//! Declarations for the outside crates this library calls: `rand`, which
//! draws the fresh `Gid` an entity gets when it starts being tracked, and
//! `bimap`, which keeps the session's bidirectional peer-to-player-entity
//! map. Verus believes the contracts stated here; they are held to the
//! crates' own sources.

use vstd::prelude::*;

verus! {

/// Relies on rand::random: a value drawn from the thread-local generator.
/// Nothing can be promised of a random value.
pub assume_specification<T>[ rand::random::<T> ]() -> (r: T)
    where
        rand::distr::StandardUniform: rand::distr::Distribution<T>,
;

#[verifier::external_type_specification]
#[verifier::external_body]
#[verifier::reject_recursive_types(L)]
#[verifier::reject_recursive_types(R)]
#[verifier::reject_recursive_types(LS)]
#[verifier::reject_recursive_types(RS)]
pub struct ExBiHashMap<L, R, LS, RS>(bimap::BiHashMap<L, R, LS, RS>);

/// The set of left/right pairs a bidirectional map holds.
pub uninterp spec fn bimap_pairs(m: bimap::BiHashMap<u64, u32>) -> Set<(u64, u32)>;

/// Relies on bimap::BiHashMap::new: the new map is empty.
#[verifier::external_body]
pub fn bimap_new() -> (m: bimap::BiHashMap<u64, u32>)
    ensures
        bimap_pairs(m) == Set::<(u64, u32)>::empty(),
{
    bimap::BiHashMap::new()
}

/// Relies on bimap::BiHashMap::insert: any pair holding the same left or
/// the same right value is removed, then the new pair is inserted.
#[verifier::external_body]
pub fn bimap_insert(m: &mut bimap::BiHashMap<u64, u32>, left: u64, right: u32)
    ensures
        bimap_pairs(*final(m)) == bimap_pairs(*old(m)).filter(
            |p: (u64, u32)| p.0 != left && p.1 != right,
        ).insert((left, right)),
{
    m.insert(left, right);
}

/// Relies on bimap::BiHashMap::get_by_left: the right value paired with
/// `left`, if the map holds such a pair.
#[verifier::external_body]
pub fn bimap_get_by_left(m: &bimap::BiHashMap<u64, u32>, left: u64) -> (r: Option<u32>)
    ensures
        match r {
            Some(right) => bimap_pairs(*m).contains((left, right)),
            None => forall|right: u32| !bimap_pairs(*m).contains((left, right)),
        },
{
    m.get_by_left(&left).copied()
}

/// Relies on bimap::BiHashMap::get_by_right: the left value paired with
/// `right`, if the map holds such a pair.
#[verifier::external_body]
pub fn bimap_get_by_right(m: &bimap::BiHashMap<u64, u32>, right: u32) -> (r: Option<u64>)
    ensures
        match r {
            Some(left) => bimap_pairs(*m).contains((left, right)),
            None => forall|left: u64| !bimap_pairs(*m).contains((left, right)),
        },
{
    m.get_by_right(&right).copied()
}

} // verus!
