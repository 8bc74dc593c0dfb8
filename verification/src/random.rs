use vstd::prelude::*;
use crate::probability::all_sums;

verus! {

/// Relies on rand's `SliceRandom::shuffle` (with the thread-local generator
/// from `rand::rng`): it reorders the slice in place, so the multiset of
/// elements is unchanged. Nothing is assumed about which order comes out.
#[verifier::external_body]
fn shuffle_values(values: &mut Vec<u16>)
    ensures
        final(values)@.to_multiset() == old(values)@.to_multiset(),
{
    let mut rng = rand::rng();
    rand::seq::SliceRandom::shuffle(values.as_mut_slice(), &mut rng);
}

/// A fresh random ordering of the 11 possible two-dice sums: each of
/// 2..=12 appears exactly once.
pub fn gen_2dices_random_values() -> (r: Vec<u16>)
    ensures
        r@.to_multiset() == all_sums().to_multiset(),
        r@.len() == 11,
{
    let mut values: Vec<u16> = Vec::new();
    values.push(2);
    values.push(3);
    values.push(4);
    values.push(5);
    values.push(6);
    values.push(7);
    values.push(8);
    values.push(9);
    values.push(10);
    values.push(11);
    values.push(12);
    proof {
        assert(values@ =~= all_sums());
    }
    shuffle_values(&mut values);
    proof {
        values@.to_multiset_ensures();
        all_sums().to_multiset_ensures();
    }
    values
}

} // verus!
