use vstd::prelude::*;
use crate::probability::{
    Prob, total_units, calculate_probability_of_2dices_random_values, lemma_total_units_bounds,
    PROB_SCALE,
};

verus! {

/// `r` is the integer square root of `s`: the largest integer whose square
/// does not exceed `s`.
pub open spec fn is_isqrt(s: int, r: int) -> bool {
    &&& 0 <= r
    &&& r * r <= s
    &&& s < (r + 1) * (r + 1)
}

/// The sum over all indices of the squared difference between each target
/// and the achieved probability of the matching chain entry, in units
/// squared. Both sequences are walked in step from the front.
pub open spec fn dev_sq_sum(targets: Seq<Prob>, chain: Seq<Seq<u16>>) -> int
    decreases targets.len(),
{
    if targets.len() == 0 {
        0
    } else {
        let d = targets[0].units - total_units(chain[0]);
        d * d + dev_sq_sum(targets.drop_first(), chain.drop_first())
    }
}

/// The squared-error sum is non-negative, and it is zero exactly when every
/// entry's achieved probability equals its target.
pub proof fn lemma_zero_deviation(targets: Seq<Prob>, chain: Seq<Seq<u16>>)
    requires
        targets.len() == chain.len(),
    ensures
        dev_sq_sum(targets, chain) >= 0,
        dev_sq_sum(targets, chain) == 0 <==> (forall|k: int|
            0 <= k < targets.len() ==> total_units(#[trigger] chain[k]) == targets[k].units),
    decreases targets.len(),
{
    if targets.len() > 0 {
        let d = targets[0].units - total_units(chain[0]);
        assert(d * d >= 0) by (nonlinear_arith);
        assert(d != 0 ==> d * d > 0) by (nonlinear_arith);
        lemma_zero_deviation(targets.drop_first(), chain.drop_first());
        if dev_sq_sum(targets, chain) == 0 {
            assert forall|k: int| 0 <= k < targets.len() implies total_units(#[trigger] chain[k])
                == targets[k].units by {
                if k > 0 {
                    assert(targets.drop_first()[k - 1] == targets[k]);
                    assert(chain.drop_first()[k - 1] == chain[k]);
                }
            }
        }
        if forall|k: int|
            0 <= k < targets.len() ==> total_units(#[trigger] chain[k]) == targets[k].units {
            assert(total_units(chain[0]) == targets[0].units);
            assert forall|k: int|
                0 <= k < targets.drop_first().len() implies total_units(
                #[trigger] chain.drop_first()[k],
            ) == targets.drop_first()[k].units by {
                assert(chain.drop_first()[k] == chain[k + 1]);
                assert(targets.drop_first()[k] == targets[k + 1]);
            }
        }
    }
}

/// Exact integer square root by bisection.
fn isqrt_units(s: u64) -> (r: u64)
    ensures
        is_isqrt(s as int, r as int),
{
    let mut lo: u64 = 0;
    let mut hi: u64 = 4_294_967_296;
    proof {
        assert((4_294_967_296int) * (4_294_967_296int) > u64::MAX);
    }
    while lo + 1 < hi
        invariant
            0 <= lo < hi <= 4_294_967_296,
            (lo as int) * (lo as int) <= s,
            (hi as int) * (hi as int) > s,
        decreases hi - lo,
    {
        let mid = lo + (hi - lo) / 2;
        proof {
            assert((mid as int) * (mid as int) <= 4_294_967_296int * 4_294_967_296int)
                by (nonlinear_arith)
                requires
                    0 <= mid <= 4_294_967_296,
            ;
        }
        if (mid as u128) * (mid as u128) <= s as u128 {
            lo = mid;
        } else {
            hi = mid;
        }
    }
    lo
}

/// Deviation of a chain from its targets: the square root of the sum of
/// squared per-entry errors (root-sum-of-squares, not an average), rounded
/// down to whole fixed-point units. Zero exactly when every entry's
/// achieved probability equals its target.
pub fn measure_coverage_deviation(targets: &[Prob], coverage: &[Vec<u16>]) -> (r: Prob)
    requires
        targets@.len() == coverage@.len(),
        targets@.len() <= 11,
        forall|k: int| 0 <= k < targets@.len() ==> (#[trigger] targets@[k]).units <= PROB_SCALE,
        forall|k: int| 0 <= k < coverage@.len() ==> (#[trigger] coverage@[k])@.len() <= 11,
    ensures
        is_isqrt(dev_sq_sum(targets@, coverage.deep_view()), r.units as int),
        r.units == 0 <==> (forall|k: int|
            0 <= k < targets@.len() ==> total_units(#[trigger] coverage.deep_view()[k])
                == targets@[k].units),
{
    let ghost chain = coverage.deep_view();
    let mut sum: u64 = 0;
    let mut k: usize = 0;
    proof {
        assert(targets@.skip(0) =~= targets@);
        assert(chain.skip(0) =~= chain);
    }
    while k < targets.len()
        invariant
            0 <= k <= targets@.len(),
            targets@.len() == coverage@.len() <= 11,
            chain == coverage.deep_view(),
            forall|j: int| 0 <= j < targets@.len() ==> (#[trigger] targets@[j]).units <= PROB_SCALE,
            forall|j: int| 0 <= j < coverage@.len() ==> (#[trigger] coverage@[j])@.len() <= 11,
            sum <= k * 4_356_000_000_000_000,
            sum + dev_sq_sum(targets@.skip(k as int), chain.skip(k as int)) == dev_sq_sum(
                targets@,
                chain,
            ),
        decreases targets@.len() - k,
    {
        let entry: &Vec<u16> = &coverage[k];
        let achieved = calculate_probability_of_2dices_random_values(entry.as_slice());
        proof {
            assert(coverage@[k as int]@ == chain[k as int]);
            lemma_total_units_bounds(chain[k as int]);
            assert(total_units(chain[k as int]) <= 66_000_000);
        }
        let t = targets[k].units;
        let diff: u64 = if t >= achieved.units {
            t - achieved.units
        } else {
            achieved.units - t
        };
        proof {
            assert(diff <= 66_000_000);
            assert((diff as int) * (diff as int) <= 4_356_000_000_000_000) by (nonlinear_arith)
                requires
                    0 <= diff <= 66_000_000,
            ;
        }
        let sq: u64 = diff * diff;
        proof {
            let d = targets@[k as int].units - total_units(chain[k as int]);
            assert(sq as int == d * d) by (nonlinear_arith)
                requires
                    diff as int == if d >= 0 {
                        d
                    } else {
                        -d
                    },
                    sq as int == (diff as int) * (diff as int),
            ;
            assert(targets@.skip(k as int).drop_first() =~= targets@.skip(k as int + 1));
            assert(chain.skip(k as int).drop_first() =~= chain.skip(k as int + 1));
            assert(targets@.skip(k as int)[0] == targets@[k as int]);
            assert(chain.skip(k as int)[0] == chain[k as int]);
        }
        sum = sum + sq;
        k = k + 1;
    }
    proof {
        assert(targets@.skip(targets@.len() as int) =~= Seq::<Prob>::empty());
        assert(chain.skip(targets@.len() as int) =~= Seq::<Seq<u16>>::empty());
        lemma_zero_deviation(targets@, chain);
    }
    let units = isqrt_units(sum);
    proof {
        assert(sum == dev_sq_sum(targets@, chain));
        if units == 0 {
            assert(sum < (units as int + 1) * (units as int + 1));
            assert((units as int + 1) * (units as int + 1) == 1) by (nonlinear_arith)
                requires
                    units == 0,
            ;
            assert(dev_sq_sum(targets@, chain) < 1);
        }
        if dev_sq_sum(targets@, chain) == 0 {
            assert((units as int) * (units as int) <= 0);
            assert(units != 0 ==> (units as int) * (units as int) > 0) by (nonlinear_arith);
        }
    }
    Prob { units }
}

} // verus!
