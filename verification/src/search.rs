use vstd::prelude::*;
use crate::probability::{Prob, all_sums, total_units, lemma_permutation_total_probability};
use crate::coverage::{nums_coverage, find_nums_coverage, lemma_coverage_properties,
    lemma_too_many_targets};
use crate::deviation::measure_coverage_deviation;
use crate::random::gen_2dices_random_values;

verus! {

/// Two deviation values closer than this count as equal when comparing
/// trials: 3600 units is 1e-4 of the probability scale.
pub const DEVIATION_TOLERANCE_UNITS: u64 = 3600;

/// Number of independent random trials one search runs.
pub const ROLLS_COUNT: usize = 100;

/// `s` is a full random ordering of the 11 sums: it holds each of 2..=12
/// exactly once.
pub open spec fn is_full_permutation(s: Seq<u16>) -> bool {
    s.to_multiset() == all_sums().to_multiset()
}

/// Whether two deviation values are equal within the comparison tolerance
/// (strictly closer than 3600 units, i.e. 1e-4).
pub fn prob_eq(a: Prob, b: Prob) -> (r: bool)
    ensures
        r == (((a.units as int - b.units as int) < 3600) && ((b.units as int - a.units as int)
            < 3600)),
{
    if a.units >= b.units {
        a.units - b.units < DEVIATION_TOLERANCE_UNITS
    } else {
        b.units - a.units < DEVIATION_TOLERANCE_UNITS
    }
}

/// Whether deviation `a` improves on `b`: strictly less, and not a near-tie
/// within the tolerance — a near-tie must not displace an earlier best.
pub fn prob_lt(a: Prob, b: Prob) -> (r: bool)
    ensures
        r == (a.units as int + 3600 <= b.units as int),
{
    if prob_eq(a, b) {
        false
    } else {
        a.units < b.units
    }
}

/// Any chain built from some full permutation — in particular any chain the
/// search returns — has one entry per target, every entry's achieved
/// probability between its target and 1, at most 11 values per entry, and
/// nested entries.
pub proof fn lemma_best_coverage_properties(targets: Seq<Prob>, chain: Seq<Seq<u16>>)
    requires
        exists|perm: Seq<u16>|
            is_full_permutation(perm) && nums_coverage(targets, perm) == Some(chain),
    ensures
        chain.len() == targets.len(),
        targets.len() <= 11,
        forall|k: int| 0 <= k < chain.len() ==> total_units(#[trigger] chain[k]) >= targets[k].units,
        forall|k: int| 0 <= k < chain.len() ==> total_units(#[trigger] chain[k]) <= 36_000_000,
        forall|k: int| 0 <= k < chain.len() ==> (#[trigger] chain[k]).len() <= 11,
        forall|k: int, x: u16|
            0 <= k < chain.len() - 1 && #[trigger] chain[k].contains(x) ==> chain[k + 1].contains(
                x,
            ),
{
    let perm = choose|perm: Seq<u16>|
        is_full_permutation(perm) && nums_coverage(targets, perm) == Some(chain);
    perm.to_multiset_ensures();
    all_sums().to_multiset_ensures();
    assert(perm.len() == 11);
    lemma_coverage_properties(targets, perm, chain);
    lemma_permutation_total_probability(perm);
}

/// Best-of-N random search with an explicit trial budget.
///
/// Empty targets: one fresh full permutation as a single-entry chain, no
/// trials run. Otherwise `rolls` independent trials each draw a random
/// ordering and attempt a coverage build; of the successful ones, the first
/// best-by-more-than-tolerance chain is kept. `None` when no trial built a
/// chain — always the case for more than 11 targets.
pub fn find_best_coverage_with_budget(targets: &[Prob], rolls: usize) -> (r: Option<
    Vec<Vec<u16>>,
>)
    ensures
        targets@.len() == 0 ==> (match r {
            Some(c) => c@.len() == 1 && is_full_permutation(c@[0]@),
            None => false,
        }),
        targets@.len() > 11 ==> r is None,
        match r {
            Some(c) => targets@.len() > 0 ==> exists|perm: Seq<u16>|
                is_full_permutation(perm) && nums_coverage(targets@, perm) == Some(c.deep_view()),
            None => true,
        },
        targets@.len() > 0 && rolls > 0 && (forall|perm: Seq<u16>|
            is_full_permutation(perm) ==> nums_coverage(targets@, perm) is Some) ==> r is Some,
{
    if targets.len() == 0 {
        let perm = gen_2dices_random_values();
        let ghost perm_view = perm@;
        let mut chain: Vec<Vec<u16>> = Vec::new();
        chain.push(perm);
        proof {
            assert(chain@[0]@ == perm_view);
        }
        return Some(chain);
    }
    let mut best: Option<Vec<Vec<u16>>> = None;
    let mut best_score: Prob = Prob { units: 0 };
    let mut trial: usize = 0;
    while trial < rolls
        invariant
            0 <= trial <= rolls,
            targets@.len() > 0,
            match best {
                Some(c) => exists|perm: Seq<u16>|
                    is_full_permutation(perm) && nums_coverage(targets@, perm) == Some(
                        c.deep_view(),
                    ),
                None => true,
            },
            best is None && trial > 0 ==> !(forall|perm: Seq<u16>|
                is_full_permutation(perm) ==> nums_coverage(targets@, perm) is Some),
        decreases rolls - trial,
    {
        let nums = gen_2dices_random_values();
        let cov_opt = find_nums_coverage(targets, nums.as_slice());
        match cov_opt {
            Some(coverage) => {
                proof {
                    let chain = coverage.deep_view();
                    lemma_coverage_properties(targets@, nums@, chain);
                    lemma_permutation_total_probability(nums@);
                    assert(coverage@.len() == chain.len());
                    assert forall|k: int| 0 <= k < coverage@.len() implies (
                    #[trigger] coverage@[k])@.len() <= 11 by {
                        assert(coverage@[k]@ == chain[k]);
                    }
                    assert forall|k: int| 0 <= k < targets@.len() implies (
                    #[trigger] targets@[k]).units <= crate::probability::PROB_SCALE by {
                        assert(total_units(chain[k]) >= targets@[k].units);
                        assert(total_units(chain[k]) <= total_units(nums@));
                    }
                }
                let deviation = measure_coverage_deviation(targets, coverage.as_slice());
                let replace = if best.is_none() {
                    true
                } else {
                    prob_lt(deviation, best_score)
                };
                if replace {
                    proof {
                        assert(is_full_permutation(nums@) && nums_coverage(targets@, nums@)
                            == Some(coverage.deep_view()));
                    }
                    best = Some(coverage);
                    best_score = deviation;
                }
            },
            None => {
                proof {
                    assert(is_full_permutation(nums@) && !(nums_coverage(targets@, nums@)
                        is Some));
                }
            },
        }
        trial = trial + 1;
    }
    proof {
        if targets@.len() > 11 && best is Some {
            let c = best->Some_0;
            let perm = choose|perm: Seq<u16>|
                is_full_permutation(perm) && nums_coverage(targets@, perm) == Some(c.deep_view());
            perm.to_multiset_ensures();
            all_sums().to_multiset_ensures();
            assert(perm.len() == 11);
            lemma_too_many_targets(targets@, perm);
            assert(false);
        }
    }
    best
}

/// Best-of-100 random search for a nested coverage chain matching `targets`
/// (see `find_best_coverage_with_budget` for the contract's shape).
pub fn find_best_coverage(targets: &[Prob]) -> (r: Option<Vec<Vec<u16>>>)
    ensures
        targets@.len() == 0 ==> (match r {
            Some(c) => c@.len() == 1 && is_full_permutation(c@[0]@),
            None => false,
        }),
        targets@.len() > 11 ==> r is None,
        match r {
            Some(c) => targets@.len() > 0 ==> exists|perm: Seq<u16>|
                is_full_permutation(perm) && nums_coverage(targets@, perm) == Some(c.deep_view()),
            None => true,
        },
        targets@.len() > 0 && (forall|perm: Seq<u16>|
            is_full_permutation(perm) ==> nums_coverage(targets@, perm) is Some) ==> r is Some,
{
    find_best_coverage_with_budget(targets, ROLLS_COUNT)
}

} // verus!
