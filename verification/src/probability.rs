use vstd::prelude::*;
use vstd::seq_lib::group_to_multiset_ensures;

verus! {

/// One unit is 1/36,000,000: fine enough that every multiple of 1/36 is exact.
pub const PROB_SCALE: u64 = 36_000_000;

/// The units contributed by a single dice-face pair (1/36 of the scale).
pub const PAIR_UNITS: u64 = 1_000_000;

/// A probability (or a deviation score) held exactly as a fixed-point value:
/// the real number it stands for is `units / 36_000_000`.
#[derive(Clone, Copy, PartialEq, Eq, Structural, Debug)]
pub struct Prob {
    pub units: u64,
}

/// Number of ordered dice-face pairs in [1,6]x[1,6] that add up to `value`.
pub open spec fn pair_count(value: int) -> int {
    if value == 2 || value == 12 {
        1
    } else if value == 3 || value == 11 {
        2
    } else if value == 4 || value == 10 {
        3
    } else if value == 5 || value == 9 {
        4
    } else if value == 6 || value == 8 {
        5
    } else if value == 7 {
        6
    } else {
        0
    }
}

/// The probability of rolling `value` with two dice, in fixed-point units.
pub open spec fn prob_units(value: int) -> int {
    pair_count(value) * 1_000_000
}

/// Probability of a single two-dice sum: `pair_count(value)` out of 36
/// equally likely face pairs; 0 for any value outside 2..=12.
pub fn calc_2dices_value_probability(value: u16) -> (r: Prob)
    ensures
        r.units == prob_units(value as int),
{
    let units: u64 = match value {
        2 | 12 => 1_000_000,
        3 | 11 => 2_000_000,
        4 | 10 => 3_000_000,
        5 | 9 => 4_000_000,
        6 | 8 => 5_000_000,
        7 => 6_000_000,
        _ => 0,
    };
    Prob { units }
}

/// Sum of the probabilities of all values in `s`, in fixed-point units.
/// Duplicates are summed as-is; nothing is deduplicated.
pub open spec fn total_units(s: Seq<u16>) -> int
    decreases s.len(),
{
    if s.len() == 0 {
        0
    } else {
        prob_units(s[0] as int) + total_units(s.drop_first())
    }
}

/// The total is non-negative and at most 6,000,000 units per element.
pub proof fn lemma_total_units_bounds(s: Seq<u16>)
    ensures
        0 <= total_units(s) <= 6_000_000 * s.len(),
    decreases s.len(),
{
    if s.len() > 0 {
        lemma_total_units_bounds(s.drop_first());
    }
}

/// Appending one value adds exactly its probability to the total.
pub proof fn lemma_total_units_push(s: Seq<u16>, x: u16)
    ensures
        total_units(s.push(x)) == total_units(s) + prob_units(x as int),
    decreases s.len(),
{
    if s.len() == 0 {
        assert(s.push(x)[0] == x);
        assert(s.push(x).drop_first() =~= Seq::<u16>::empty());
        assert(total_units(Seq::<u16>::empty()) == 0);
        assert(total_units(s.push(x)) == prob_units(x as int) + total_units(
            Seq::<u16>::empty(),
        ));
    } else {
        assert(s.push(x)[0] == s[0]);
        assert(s.push(x).drop_first() =~= s.drop_first().push(x));
        lemma_total_units_push(s.drop_first(), x);
        assert(total_units(s.push(x)) == prob_units(s[0] as int) + total_units(
            s.drop_first().push(x),
        ));
    }
}

/// Removing the element at `i` subtracts exactly its probability.
pub proof fn lemma_total_units_remove(s: Seq<u16>, i: int)
    requires
        0 <= i < s.len(),
    ensures
        total_units(s) == prob_units(s[i] as int) + total_units(s.remove(i)),
    decreases i,
{
    if i == 0 {
        assert(s.remove(0) =~= s.drop_first());
    } else {
        assert(s.remove(i).drop_first() =~= s.drop_first().remove(i - 1));
        lemma_total_units_remove(s.drop_first(), i - 1);
    }
}

/// The total probability of a sequence depends only on its multiset of
/// values, not on their order.
pub proof fn lemma_total_units_multiset(s1: Seq<u16>, s2: Seq<u16>)
    requires
        s1.to_multiset() == s2.to_multiset(),
    ensures
        total_units(s1) == total_units(s2),
    decreases s1.len(),
{
    broadcast use group_to_multiset_ensures;

    if s1.len() == 0 {
        s1.to_multiset_ensures();
        s2.to_multiset_ensures();
        assert(s2.len() == 0);
    } else {
        let x = s1[0];
        assert(s1.contains(x));
        assert(s2.to_multiset().count(x) > 0);
        assert(s2.contains(x));
        let j = choose|j: int| 0 <= j < s2.len() && s2[j] == x;
        assert(s1.drop_first() =~= s1.remove(0));
        assert(s1.remove(0).to_multiset() == s1.to_multiset().remove(x));
        assert(s2.remove(j).to_multiset() == s2.to_multiset().remove(x));
        lemma_total_units_multiset(s1.drop_first(), s2.remove(j));
        lemma_total_units_remove(s2, j);
    }
}

/// The 11 possible sums of two dice, in ascending order.
pub open spec fn all_sums() -> Seq<u16> {
    seq![2u16, 3u16, 4u16, 5u16, 6u16, 7u16, 8u16, 9u16, 10u16, 11u16, 12u16]
}

/// The probabilities of the 11 sums together add up to exactly 1
/// (36,000,000 units).
pub proof fn lemma_total_probability_all_sums()
    ensures
        total_units(all_sums()) == 36_000_000,
{
    reveal_with_fuel(total_units, 12);
}

/// Any reordering of the 11 sums — anything with the same multiset of
/// values — still has total probability exactly 1.
pub proof fn lemma_permutation_total_probability(s: Seq<u16>)
    requires
        s.to_multiset() == all_sums().to_multiset(),
    ensures
        total_units(s) == 36_000_000,
{
    lemma_total_units_multiset(s, all_sums());
    lemma_total_probability_all_sums();
}

/// Total probability of a slice of two-dice values: the fixed-point sum of
/// `calc_2dices_value_probability` over every element, duplicates included.
pub fn calculate_probability_of_2dices_random_values(values: &[u16]) -> (r: Prob)
    requires
        values@.len() <= 1_000_000_000,
    ensures
        r.units == total_units(values@),
{
    let mut acc: u64 = 0;
    let mut i: usize = 0;
    proof {
        assert(values@.take(0) =~= Seq::<u16>::empty());
    }
    while i < values.len()
        invariant
            0 <= i <= values@.len(),
            values@.len() <= 1_000_000_000,
            acc == total_units(values@.take(i as int)),
        decreases values@.len() - i,
    {
        let p = calc_2dices_value_probability(values[i]);
        proof {
            lemma_total_units_bounds(values@.take(i as int));
            assert(values@.take(i as int).len() == i);
            lemma_total_units_push(values@.take(i as int), values@[i as int]);
            assert(values@.take(i as int).push(values@[i as int]) =~= values@.take(i + 1));
            assert(acc + p.units <= 6_000_000 * (i + 1));
        }
        acc = acc + p.units;
        i = i + 1;
    }
    proof {
        assert(values@.take(values@.len() as int) =~= values@);
    }
    Prob { units: acc }
}

} // verus!
