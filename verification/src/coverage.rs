use vstd::prelude::*;
use vstd::relations::{sorted_by, total_ordering};
use vstd::seq_lib::{lemma_sorted_unique, to_multiset_insert, group_to_multiset_ensures};
use crate::probability::{
    Prob, prob_units, total_units, calc_2dices_value_probability, lemma_total_units_push,
    lemma_total_units_bounds, lemma_total_units_multiset,
};

verus! {

/// Ascending order on two-dice sums.
pub open spec fn sum_order() -> spec_fn(u16, u16) -> bool {
    |a: u16, b: u16| a <= b
}

/// The values of `s` rearranged into ascending order.
pub open spec fn sorted_ascending(s: Seq<u16>) -> Seq<u16> {
    s.sort_by(sum_order())
}

proof fn lemma_sum_order_total()
    ensures
        total_ordering(sum_order()),
{
    assert forall|x: u16| #[trigger] sum_order()(x, x) by {}
    assert forall|x: u16, y: u16| #[trigger] sum_order()(x, y) && #[trigger] sum_order()(y, x)
        implies x == y by {}
    assert forall|x: u16, y: u16, z: u16|
        #[trigger] sum_order()(x, y) && #[trigger] sum_order()(y, z) implies sum_order()(x, z) by {}
    assert forall|x: u16, y: u16| #[trigger] sum_order()(x, y) || #[trigger] sum_order()(y, x) by {}
}

/// A copy of `values` with its elements in ascending order.
fn sorted_copy(values: &Vec<u16>) -> (r: Vec<u16>)
    ensures
        r@ == sorted_ascending(values@),
{
    let mut out: Vec<u16> = Vec::new();
    let mut i: usize = 0;
    proof {
        assert(values@.take(0) =~= Seq::<u16>::empty());
    }
    while i < values.len()
        invariant
            0 <= i <= values@.len(),
            sorted_by(out@, sum_order()),
            out@.to_multiset() == values@.take(i as int).to_multiset(),
            out@.len() == i,
        decreases values@.len() - i,
    {
        let x = values[i];
        let mut pos: usize = 0;
        while pos < out.len() && out[pos] <= x
            invariant
                0 <= pos <= out@.len(),
                forall|k: int| 0 <= k < pos ==> out@[k] <= x,
            decreases out@.len() - pos,
        {
            pos = pos + 1;
        }
        let ghost old_out = out@;
        out.insert(pos, x);
        proof {
            assert(out@ == old_out.insert(pos as int, x));
            assert forall|a: int, b: int| 0 <= a < b < out@.len() implies sum_order()(
                out@[a],
                out@[b],
            ) by {
                if b < pos {
                    assert(sum_order()(old_out[a], old_out[b]));
                } else if a > pos {
                    assert(sum_order()(old_out[a - 1], old_out[b - 1]));
                } else if a < pos && b == pos {
                    assert(out@[a] == old_out[a] && old_out[a] <= x);
                } else if a == pos {
                    assert(out@[b] == old_out[b - 1]);
                    assert(pos < old_out.len() && b - 1 >= pos);
                    if b - 1 > pos {
                        assert(sum_order()(old_out[pos as int], old_out[b - 1]));
                    }
                    assert(x <= old_out[b - 1]);
                } else {
                    assert(a < pos && b > pos);
                    assert(out@[b] == old_out[b - 1]);
                    if b - 1 == pos {
                        assert(out@[b] == old_out[pos as int]);
                        assert(x <= old_out[pos as int]);
                        assert(old_out[a] <= x);
                    } else {
                        assert(sum_order()(old_out[a], old_out[b - 1]));
                    }
                }
            }
            to_multiset_insert(old_out, pos as int, x);
            vstd::seq_lib::to_multiset_build(values@.take(i as int), values@[i as int]);
            assert(values@.take(i as int).push(values@[i as int]) =~= values@.take(i + 1));
        }
        i = i + 1;
    }
    proof {
        assert(values@.take(values@.len() as int) =~= values@);
        lemma_sum_order_total();
        values@.lemma_sort_by_ensures(sum_order());
        lemma_sorted_unique(out@, values@.sort_by(sum_order()), sum_order());
        assert(out@ =~= sorted_ascending(values@));
    }
    out
}

/// One step of the greedy builder, written as a recursion over `nums`:
/// each value is accumulated into `acc` (and its probability into `units`);
/// whenever the running total reaches the current target, a snapshot of the
/// accumulated values, sorted ascending, is emitted and the next target is
/// taken up. The accumulation never resets, so emitted entries are nested.
/// `None` when the values run out before every target is matched.
pub open spec fn coverage_steps(
    targets: Seq<Prob>,
    nums: Seq<u16>,
    acc: Seq<u16>,
    units: int,
) -> Option<Seq<Seq<u16>>>
    decreases nums.len(),
{
    if targets.len() == 0 {
        Some(Seq::empty())
    } else if nums.len() == 0 {
        None
    } else {
        let acc2 = acc.push(nums[0]);
        let units2 = units + prob_units(nums[0] as int);
        if units2 >= targets[0].units {
            match coverage_steps(targets.drop_first(), nums.drop_first(), acc2, units2) {
                Some(rest) => Some(seq![sorted_ascending(acc2)] + rest),
                None => None,
            }
        } else {
            coverage_steps(targets, nums.drop_first(), acc2, units2)
        }
    }
}

/// The nested chain of outcome sets that matching `nums` against `targets`
/// yields, one entry per target; `None` when the values run out first, and
/// `None` for an empty target sequence.
pub open spec fn nums_coverage(targets: Seq<Prob>, nums: Seq<u16>) -> Option<Seq<Seq<u16>>> {
    if targets.len() == 0 {
        None
    } else {
        coverage_steps(targets, nums, Seq::empty(), 0)
    }
}

/// `rest` completes the already-emitted `done` entries to the full result.
spec fn completes(
    full: Option<Seq<Seq<u16>>>,
    done: Seq<Seq<u16>>,
    rest: Option<Seq<Seq<u16>>>,
) -> bool {
    match rest {
        Some(r) => full == Some(done + r),
        None => full is None,
    }
}

/// Greedy nested-coverage builder: walks `nums` in order, accumulating
/// values and probability; each time the running total reaches the current
/// target it records the accumulated values (sorted ascending) as the next
/// chain entry. Returns `None` when `nums` is exhausted before every target
/// has been matched, and for an empty target sequence.
pub fn find_nums_coverage(targets: &[Prob], nums: &[u16]) -> (r: Option<Vec<Vec<u16>>>)
    requires
        nums@.len() <= 1_000_000_000,
    ensures
        match r {
            Some(chain) => nums_coverage(targets@, nums@) == Some(chain.deep_view()),
            None => nums_coverage(targets@, nums@) is None,
        },
{
    if targets.len() == 0 {
        return None;
    }
    let mut result: Vec<Vec<u16>> = Vec::new();
    let mut tmp: Vec<u16> = Vec::new();
    let mut units: u64 = 0;
    let mut ti: usize = 0;
    let mut i: usize = 0;
    proof {
        assert(tmp@ =~= nums@.take(0));
        assert(targets@.skip(0) =~= targets@);
        assert(nums@.skip(0) =~= nums@);
        match coverage_steps(targets@, nums@, tmp@, 0) {
            Some(rest) => {
                assert(result.deep_view() + rest =~= rest);
            },
            None => {},
        }
    }
    while i < nums.len() && ti < targets.len()
        invariant
            0 <= i <= nums@.len(),
            0 <= ti <= targets@.len(),
            targets@.len() > 0,
            nums@.len() <= 1_000_000_000,
            result.deep_view().len() == ti,
            tmp@ == nums@.take(i as int),
            units == total_units(tmp@),
            completes(
                nums_coverage(targets@, nums@),
                result.deep_view(),
                coverage_steps(
                    targets@.skip(ti as int),
                    nums@.skip(i as int),
                    tmp@,
                    units as int,
                ),
            ),
        decreases nums@.len() - i,
    {
        let ghost done0 = result.deep_view();
        let ghost targets_rest = targets@.skip(ti as int);
        let ghost nums_rest = nums@.skip(i as int);
        let ghost acc0 = tmp@;
        let ghost units0 = units as int;

        let num = nums[i];
        proof {
            assert(nums_rest[0] == nums@[i as int]);
            lemma_total_units_bounds(tmp@);
            assert(tmp@.len() == i);
            lemma_total_units_push(tmp@, num);
            assert(tmp@.push(num) =~= nums@.take(i + 1));
        }
        tmp.push(num);
        let p = calc_2dices_value_probability(num);
        units = units + p.units;
        proof {
            assert(tmp@ == acc0.push(nums_rest[0]));
            assert(units as int == units0 + prob_units(nums_rest[0] as int));
            assert(nums_rest.drop_first() =~= nums@.skip(i + 1));
        }
        if units >= targets[ti].units {
            let snapshot = sorted_copy(&tmp);
            proof {
                assert(snapshot@ == sorted_ascending(acc0.push(nums_rest[0])));
                assert(targets_rest.drop_first() =~= targets@.skip(ti as int + 1));
                let rest_after = coverage_steps(
                    targets@.skip(ti as int + 1),
                    nums@.skip(i + 1),
                    tmp@,
                    units as int,
                );
                assert(coverage_steps(targets_rest, nums_rest, acc0, units0) == (match rest_after {
                    Some(rest) => Some(seq![snapshot@] + rest),
                    None => None::<Seq<Seq<u16>>>,
                }));
            }
            let ghost snap_view = snapshot@;
            result.push(snapshot);
            proof {
                assert(result.deep_view() =~~= done0.push(snap_view));
                match coverage_steps(
                    targets@.skip(ti as int + 1),
                    nums@.skip(i + 1),
                    tmp@,
                    units as int,
                ) {
                    Some(rest) => {
                        assert(done0 + (seq![snap_view] + rest) =~= done0.push(snap_view) + rest);
                    },
                    None => {},
                }
            }
            ti = ti + 1;
        }
        i = i + 1;
    }
    if ti < targets.len() {
        proof {
            assert(i == nums.len());
            assert(nums@.skip(i as int) =~= Seq::<u16>::empty());
            assert(targets@.skip(ti as int).len() > 0);
        }
        return None;
    }
    proof {
        assert(targets@.skip(ti as int) =~= Seq::<Prob>::empty());
        assert(coverage_steps(targets@.skip(ti as int), nums@.skip(i as int), tmp@, units as int)
            == Some(Seq::<Seq<u16>>::empty()));
        assert(result.deep_view() + Seq::<Seq<u16>>::empty() =~= result.deep_view());
    }
    Some(result)
}

/// The builder can never match more targets than there are values: with
/// `targets` longer than `nums` it always fails.
proof fn lemma_coverage_steps_exhausted(
    targets: Seq<Prob>,
    nums: Seq<u16>,
    acc: Seq<u16>,
    units: int,
)
    requires
        targets.len() > nums.len(),
    ensures
        coverage_steps(targets, nums, acc, units) is None,
    decreases nums.len(),
{
    if nums.len() > 0 {
        let acc2 = acc.push(nums[0]);
        let units2 = units + prob_units(nums[0] as int);
        lemma_coverage_steps_exhausted(targets.drop_first(), nums.drop_first(), acc2, units2);
        lemma_coverage_steps_exhausted(targets, nums.drop_first(), acc2, units2);
    }
}

/// A target sequence longer than the value sequence can never be covered.
pub proof fn lemma_too_many_targets(targets: Seq<Prob>, nums: Seq<u16>)
    requires
        targets.len() > nums.len(),
    ensures
        nums_coverage(targets, nums) is None,
{
    lemma_coverage_steps_exhausted(targets, nums, Seq::empty(), 0);
}

proof fn lemma_coverage_steps_props(
    targets: Seq<Prob>,
    nums: Seq<u16>,
    acc: Seq<u16>,
    units: int,
    chain: Seq<Seq<u16>>,
)
    requires
        coverage_steps(targets, nums, acc, units) == Some(chain),
        units == total_units(acc),
    ensures
        chain.len() == targets.len(),
        targets.len() <= nums.len(),
        forall|k: int| 0 <= k < chain.len() ==> total_units(#[trigger] chain[k]) >= targets[k].units,
        forall|k: int| 0 <= k < chain.len() ==> total_units(#[trigger] chain[k]) <= units + total_units(nums),
        forall|k: int| 0 <= k < chain.len() ==> (#[trigger] chain[k]).len() <= acc.len() + nums.len(),
        forall|k: int|
            0 <= k < chain.len() ==> acc.to_multiset().subset_of(
                (#[trigger] chain[k]).to_multiset(),
            ),
        forall|k: int|
            0 <= k < chain.len() - 1 ==> (#[trigger] chain[k]).to_multiset().subset_of(
                chain[k + 1].to_multiset(),
            ),
    decreases nums.len(),
{
    broadcast use group_to_multiset_ensures;
    broadcast use vstd::multiset::group_multiset_axioms;

    if targets.len() == 0 {
    } else {
        if targets.len() > nums.len() {
            lemma_coverage_steps_exhausted(targets, nums, acc, units);
        }
        let acc2 = acc.push(nums[0]);
        let units2 = units + prob_units(nums[0] as int);
        lemma_total_units_push(acc, nums[0]);
        lemma_total_units_bounds(nums.drop_first());
        if units2 >= targets[0].units {
            let rest = coverage_steps(
                targets.drop_first(),
                nums.drop_first(),
                acc2,
                units2,
            )->Some_0;
            lemma_coverage_steps_props(
                targets.drop_first(),
                nums.drop_first(),
                acc2,
                units2,
                rest,
            );
            let entry = sorted_ascending(acc2);
            lemma_sum_order_total();
            acc2.lemma_sort_by_ensures(sum_order());
            lemma_total_units_multiset(entry, acc2);
            assert(entry.to_multiset() == acc2.to_multiset());
            entry.to_multiset_ensures();
            acc2.to_multiset_ensures();
            assert(entry.len() == entry.to_multiset().len());
            assert(entry.len() == acc2.len());
            assert(chain == seq![entry] + rest);
            assert(chain[0] == entry);
            assert(forall|k: int| 1 <= k < chain.len() ==> chain[k] == rest[k - 1]);
            assert(acc.to_multiset().subset_of(acc2.to_multiset()));
            assert forall|k: int| 0 <= k < chain.len() implies acc.to_multiset().subset_of(
                (#[trigger] chain[k]).to_multiset(),
            ) by {
                if k > 0 {
                    assert(acc2.to_multiset().subset_of(rest[k - 1].to_multiset()));
                }
            }
            if rest.len() > 0 {
                assert(chain[0].to_multiset().subset_of(chain[1].to_multiset()));
            }
        } else {
            lemma_coverage_steps_props(targets, nums.drop_first(), acc2, units2, chain);
            assert(acc.to_multiset().subset_of(acc2.to_multiset()));
        }
    }
}

/// Every chain the builder produces has one entry per target; each entry's
/// achieved probability reaches its target and is at most the whole value
/// sequence's total; each entry holds at most `nums`'s values; and the chain
/// is nested: each entry's values are contained in the next entry's.
pub proof fn lemma_coverage_properties(targets: Seq<Prob>, nums: Seq<u16>, chain: Seq<Seq<u16>>)
    requires
        nums_coverage(targets, nums) == Some(chain),
    ensures
        chain.len() == targets.len(),
        targets.len() <= nums.len(),
        forall|k: int| 0 <= k < chain.len() ==> total_units(#[trigger] chain[k]) >= targets[k].units,
        forall|k: int| 0 <= k < chain.len() ==> total_units(#[trigger] chain[k]) <= total_units(nums),
        forall|k: int| 0 <= k < chain.len() ==> (#[trigger] chain[k]).len() <= nums.len(),
        forall|k: int|
            0 <= k < chain.len() - 1 ==> (#[trigger] chain[k]).to_multiset().subset_of(
                chain[k + 1].to_multiset(),
            ),
        forall|k: int, x: u16|
            0 <= k < chain.len() - 1 && #[trigger] chain[k].contains(x) ==> chain[k + 1].contains(
                x,
            ),
{
    broadcast use group_to_multiset_ensures;
    broadcast use vstd::multiset::group_multiset_axioms;

    lemma_coverage_steps_props(targets, nums, Seq::empty(), 0, chain);
    assert forall|k: int, x: u16|
        0 <= k < chain.len() - 1 && #[trigger] chain[k].contains(x) implies chain[k
        + 1].contains(x) by {
        assert(chain[k].to_multiset().count(x) > 0);
        assert(chain[k].to_multiset().subset_of(chain[k + 1].to_multiset()));
        assert(chain[k + 1].to_multiset().count(x) > 0);
    }
}

} // verus!
