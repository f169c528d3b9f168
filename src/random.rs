use rand::rngs::SmallRng;
use rand::seq::SliceRandom;
use vstd::prelude::*;

verus! {

#[verifier::external_type_specification]
#[verifier::external_body]
pub struct ExSmallRng(SmallRng);

/// Relies on rand's `SliceRandom::choose`: `None` for an empty slice, and otherwise one of its
/// elements, drawn at random.
#[verifier::external_body]
pub(crate) fn choose_member(members: &[usize], rng: &mut SmallRng) -> (r: Option<usize>)
    ensures
        r is None <==> members@.len() == 0,
        r matches Some(v) ==> members@.contains(v),
{
    members.choose(rng).copied()
}

} // verus!
