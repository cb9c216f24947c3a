//! The live units, keyed by a stable index, held in a `vec_map::VecMap`.

use vec_map::VecMap;
use vstd::prelude::*;

use crate::grid::MAX_SIDE;
use crate::unit::Unit;

verus! {

/// Keys stay below this bound, one per cell of the largest board, so that
/// the map's slot vector, one slot per key up to the largest, stays small.
pub const MAX_KEYS: usize = MAX_SIDE * MAX_SIDE;

#[verifier::external_type_specification]
#[verifier::external_body]
#[verifier::reject_recursive_types(V)]
pub struct ExVecMap<V>(VecMap<V>);

/// The unit stored under each key of a map.
pub uninterp spec fn roster_of(m: VecMap<Unit>) -> Map<usize, Unit>;

/// Relies on `VecMap::new`: a map with no entries.
#[verifier::external_body]
pub(crate) fn roster_new() -> (r: VecMap<Unit>)
    ensures
        roster_of(r).dom() == Set::<usize>::empty(),
{
    VecMap::new()
}

/// Relies on `VecMap::get`: the value under `k`, if there is one.
#[verifier::external_body]
pub(crate) fn roster_get(m: &VecMap<Unit>, k: usize) -> (r: Option<&Unit>)
    ensures
        r.is_some() == roster_of(*m).contains_key(k),
        r matches Some(u) ==> *u == roster_of(*m)[k],
{
    m.get(k)
}

/// Relies on `VecMap::insert`: `u` is stored under `k`, replacing any value
/// there. The map grows its slot vector to `k + 1` slots, so `k` is kept
/// below `MAX_KEYS`, far from the `usize` overflow of `k + 1` and from a
/// capacity overflow.
#[verifier::external_body]
pub(crate) fn roster_insert(m: &mut VecMap<Unit>, k: usize, u: Unit)
    requires
        k < MAX_KEYS,
    ensures
        roster_of(*final(m)) == roster_of(*old(m)).insert(k, u),
{
    m.insert(k, u);
}

/// Relies on `VecMap::remove`: takes out and returns the value under `k`.
#[verifier::external_body]
pub(crate) fn roster_remove(m: &mut VecMap<Unit>, k: usize) -> (r: Option<Unit>)
    ensures
        roster_of(*final(m)) == roster_of(*old(m)).remove(k),
        r.is_some() == roster_of(*old(m)).contains_key(k),
        r matches Some(u) ==> u == roster_of(*old(m))[k],
{
    m.remove(k)
}

/// Relies on `VecMap::keys`: every key, each once, in ascending order.
#[verifier::external_body]
pub(crate) fn roster_keys(m: &VecMap<Unit>) -> (r: Vec<usize>)
    ensures
        forall|i: int, j: int| 0 <= i < j < r@.len() ==> r@[i] < r@[j],
        forall|k: usize| roster_of(*m).contains_key(k) <==> r@.contains(k),
{
    m.keys().collect()
}

} // verus!
