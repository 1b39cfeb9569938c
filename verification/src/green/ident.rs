//! Thread identities: drawn at random, unique among the live threads.

use std::collections::HashSet;
use vstd::prelude::*;

verus! {

broadcast use vstd::std_specs::hash::group_hash_axioms;

/// How many random candidates are tried before the search turns systematic.
/// A collision is already unlikely; this many in a row do not happen, so the
/// limit only serves to make the search finite.
pub const MAX_DRAWS: u64 = u64::MAX;

/// Draws a 64-bit number with `rand::random`. Nothing is claimed of the
/// value: any number may come back, and two calls need not agree.
#[verifier::external_body]
fn random_u64() -> u64 {
    rand::random::<u64>()
}

/// A set that holds every number up to and including `top` has more than
/// `top` elements.
proof fn lemma_prefix_card(s: Set<u64>, top: u64)
    requires
        s.finite(),
        forall|x: u64| x <= top ==> s.contains(x),
    ensures
        s.len() >= top + 1,
    decreases top,
{
    if top == 0 {
        assert(s.contains(0));
        assert(s.remove(0).len() + 1 == s.len());
    } else {
        let rest = s.remove(top);
        assert forall|x: u64| x <= (top - 1) as u64 implies rest.contains(x) by {
            assert(s.contains(x));
        }
        lemma_prefix_card(rest, (top - 1) as u64);
    }
}

/// Takes `candidate` into use if it is free, and says whether it did.
pub fn claim(ids: &mut HashSet<u64>, candidate: u64) -> (taken: bool)
    ensures
        taken == !old(ids)@.contains(candidate),
        taken ==> final(ids)@ == old(ids)@.insert(candidate),
        !taken ==> final(ids)@ == old(ids)@,
{
    if ids.contains(&candidate) {
        false
    } else {
        ids.insert(candidate);
        true
    }
}

/// Takes the smallest free identity into use.
fn claim_smallest(ids: &mut HashSet<u64>) -> (id: u64)
    requires
        old(ids)@.finite(),
    ensures
        !old(ids)@.contains(id),
        final(ids)@ == old(ids)@.insert(id),
        forall|x: u64| x < id ==> old(ids)@.contains(x),
{
    let mut id: u64 = 0;
    while ids.contains(&id)
        invariant
            ids@ == old(ids)@,
            ids@.finite(),
            forall|x: u64| x < id ==> ids@.contains(x),
        decreases u64::MAX - id,
    {
        proof {
            assert(ids@.len() == ids.len());
            lemma_prefix_card(ids@, id);
        }
        id += 1;
    }
    ids.insert(id);
    id
}

/// Issues an identity that no live thread has, and records it as in use.
///
/// Candidates are drawn at random until a free one turns up. Which number is
/// issued is therefore not fixed; that it was free, and that nothing else
/// changes, is.
pub fn get_id(ids: &mut HashSet<u64>) -> (id: u64)
    requires
        old(ids)@.finite(),
    ensures
        !old(ids)@.contains(id),
        final(ids)@ == old(ids)@.insert(id),
{
    let mut draws: u64 = 0;
    while draws < MAX_DRAWS
        invariant
            ids@ == old(ids)@,
            ids@.finite(),
        decreases MAX_DRAWS - draws,
    {
        let candidate = random_u64();
        if claim(ids, candidate) {
            return candidate;
        }
        draws += 1;
    }
    claim_smallest(ids)
}

/// Returns `id` to the pool of free identities.
pub fn release(ids: &mut HashSet<u64>, id: u64)
    ensures
        final(ids)@ == old(ids)@.remove(id),
{
    ids.remove(&id);
}

} // verus!
