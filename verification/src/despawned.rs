//! The handles destroyed so far in one pass over the store, kept in the hash
//! set that `bevy::utils` offers.

use vstd::prelude::*;

verus! {

/// A hash set of handle numbers: `bevy::utils::HashSet<u64>`, which is
/// hashbrown's `HashSet` with bevy's hasher. Nothing is proved of the set;
/// what is taken for granted of it is what the functions below state.
#[verifier::external_body]
pub struct Despawned {
    ids: bevy::utils::HashSet<u64>,
}

/// The numbers that the set holds.
pub uninterp spec fn despawned_ids(set: Despawned) -> Set<u64>;

/// `bevy::utils::HashSet::new`: a new set holds nothing.
#[verifier::external_body]
pub(crate) fn despawned_new() -> (set: Despawned)
    ensures
        despawned_ids(set) == Set::<u64>::empty(),
{
    Despawned { ids: bevy::utils::HashSet::new() }
}

/// `bevy::utils::HashSet::contains`: tells whether the set holds `id`.
#[verifier::external_body]
pub(crate) fn despawned_contains(set: &Despawned, id: u64) -> (found: bool)
    ensures
        found == despawned_ids(*set).contains(id),
{
    set.ids.contains(&id)
}

/// `bevy::utils::HashSet::insert`: afterwards the set holds `id` and what
/// it held before, and nothing else.
#[verifier::external_body]
pub(crate) fn despawned_insert(set: &mut Despawned, id: u64)
    ensures
        despawned_ids(*final(set)) == despawned_ids(*old(set)).insert(id),
{
    set.ids.insert(id);
}

} // verus!
