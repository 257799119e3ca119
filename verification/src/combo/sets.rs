//! The outside collections that a handler is made of.
use frozen_collections::{FzScalarMap, FzScalarSet};
use tinyset::SetUsize;
use vstd::prelude::*;

verus! {

/// `frozen_collections::FzScalarMap`, a read-only map that is keyed by scalars.
#[verifier::external_type_specification]
#[verifier::external_body]
#[verifier::reject_recursive_types(K)]
#[verifier::reject_recursive_types(V)]
pub struct ExFzScalarMap<K, V>(FzScalarMap<K, V>);

/// `frozen_collections::FzScalarSet`, a read-only set of scalars.
#[verifier::external_type_specification]
#[verifier::external_body]
#[verifier::reject_recursive_types(T)]
pub struct ExFzScalarSet<T>(FzScalarSet<T>);

/// `tinyset::SetUsize`, a compact set.
#[verifier::external_type_specification]
#[verifier::external_body]
pub struct ExSetUsize(SetUsize);

/// The entries of a frozen map.
pub uninterp spec fn map_contents(map: FzScalarMap<usize, usize>) -> Map<usize, usize>;

/// The elements of a frozen set.
pub uninterp spec fn frozen_contents(set: FzScalarSet<usize>) -> Set<usize>;

/// The elements of a compact set.
pub uninterp spec fn set_contents(set: SetUsize) -> Set<usize>;

/// The map that a sequence of entries stands for: of several entries with the same key the last
/// one counts.
pub open spec fn entries_map(entries: Seq<(usize, usize)>) -> Map<usize, usize>
    decreases entries.len(),
{
    if entries.len() == 0 {
        Map::empty()
    } else {
        entries_map(entries.drop_last()).insert(entries.last().0, entries.last().1)
    }
}

/// Calls `FzScalarMap::new`. The map holds the given entries; of several entries with the same
/// key it keeps the last one.
#[verifier::external_body]
pub(crate) fn frozen_map(entries: Vec<(usize, usize)>) -> (map: FzScalarMap<usize, usize>)
    ensures
        map_contents(map) == entries_map(entries@),
{
    FzScalarMap::new(entries)
}

/// Calls `FzScalarMap::get`. It finds the value of a key if there is one.
#[verifier::external_body]
pub(crate) fn frozen_map_get(map: &FzScalarMap<usize, usize>, key: usize) -> (value: Option<usize>)
    ensures
        value == if map_contents(*map).dom().contains(key) {
            Some(map_contents(*map)[key])
        } else {
            None
        },
{
    map.get(&key).copied()
}

/// Calls `FzScalarSet::new`. The set holds the given elements.
#[verifier::external_body]
pub(crate) fn frozen_set(elements: Vec<usize>) -> (set: FzScalarSet<usize>)
    ensures
        frozen_contents(set) == elements@.to_set(),
{
    FzScalarSet::new(elements)
}

/// Calls `FzScalarSet::contains`. It says whether the set holds the element.
#[verifier::external_body]
pub(crate) fn frozen_set_contains(set: &FzScalarSet<usize>, element: usize) -> (found: bool)
    ensures
        found == frozen_contents(*set).contains(element),
{
    set.contains(&element)
}

/// Calls `FzScalarSet::clone`. The copy holds the same elements.
#[verifier::external_body]
pub(crate) fn frozen_set_clone(set: &FzScalarSet<usize>) -> (copy: FzScalarSet<usize>)
    ensures
        frozen_contents(copy) == frozen_contents(*set),
{
    set.clone()
}

/// Calls `SetUsize::new`. The set is empty.
#[verifier::external_body]
pub(crate) fn compact_set() -> (set: SetUsize)
    ensures
        set_contents(set) == Set::<usize>::empty(),
{
    SetUsize::new()
}

/// Calls `SetUsize::insert`. The set holds the element afterwards, and the rest as before.
#[verifier::external_body]
pub(crate) fn compact_set_insert(set: &mut SetUsize, element: usize)
    ensures
        set_contents(*final(set)) == set_contents(*old(set)).insert(element),
{
    set.insert(element);
}

/// Calls `SetUsize::remove`. The set does not hold the element afterwards, and the rest as before.
#[verifier::external_body]
pub(crate) fn compact_set_remove(set: &mut SetUsize, element: usize)
    ensures
        set_contents(*final(set)) == set_contents(*old(set)).remove(element),
{
    set.remove(element);
}

/// Calls `SetUsize::drain`. It hands out each element once, in an order that is left open, and
/// leaves the set empty.
#[verifier::external_body]
pub(crate) fn compact_set_drain(set: &mut SetUsize) -> (elements: Vec<usize>)
    ensures
        elements@.no_duplicates(),
        elements@.to_set() == set_contents(*old(set)),
        set_contents(*final(set)) == Set::<usize>::empty(),
{
    set.drain().collect()
}

/// Calls `SetUsize::clone`. The copy holds the same elements.
#[verifier::external_body]
pub(crate) fn compact_set_clone(set: &SetUsize) -> (copy: SetUsize)
    ensures
        set_contents(copy) == set_contents(*set),
{
    set.clone()
}

} // verus!
