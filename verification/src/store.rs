//! The two insertion-ordered hash maps of the solver, behind contracts that
//! the verifier takes on trust: the trail, which maps each asserted literal to
//! the decision level it was set at, and the variable table, which lists the
//! variable names with their identifiers in the order they were first seen.

use indexmap::IndexMap;
use vstd::prelude::*;

verus! {

/// The insertion-ordered hash map of the `indexmap` crate, opaque to the
/// verifier.
#[verifier::external_type_specification]
#[verifier::external_body]
#[verifier::reject_recursive_types(K)]
#[verifier::reject_recursive_types(V)]
#[verifier::reject_recursive_types(S)]
pub struct ExIndexMap<K, V, S>(IndexMap<K, V, S>);

/// The mapping from asserted literal to decision level that a trail holds.
pub uninterp spec fn trail_map(trail: IndexMap<u32, i32>) -> Map<u32, i32>;

/// The level that the mapping stores for `lit`, if `lit` is a key.
pub open spec fn stored(map: Map<u32, i32>, lit: u32) -> Option<i32> {
    if map.dom().contains(lit) {
        Some(map[lit])
    } else {
        None
    }
}

/// `IndexMap::new`: a fresh map holds no entry.
#[verifier::external_body]
pub(crate) fn trail_new() -> (trail: IndexMap<u32, i32>)
    ensures
        trail_map(trail) == (Map::<u32, i32>::empty()),
{
    IndexMap::new()
}

/// `IndexMap::get`: the level stored for `lit`, if `lit` is a key.
#[verifier::external_body]
pub(crate) fn trail_get(trail: &IndexMap<u32, i32>, lit: u32) -> (level: Option<i32>)
    ensures
        level == stored(trail_map(*trail), lit),
{
    trail.get(&lit).copied()
}

/// `IndexMap::insert`: afterwards `lit` maps to `level` and every other key
/// is as before; the result is the level that `lit` had, if it was a key.
#[verifier::external_body]
pub(crate) fn trail_insert(trail: &mut IndexMap<u32, i32>, lit: u32, level: i32) -> (previous:
    Option<i32>)
    ensures
        trail_map(*final(trail)) == trail_map(*old(trail)).insert(lit, level),
        previous == stored(trail_map(*old(trail)), lit),
{
    trail.insert(lit, level)
}

/// `IndexMap::remove`: afterwards `lit` is no key and every other key is as
/// before; the result is the level that `lit` had, if it was a key.
#[verifier::external_body]
pub(crate) fn trail_remove(trail: &mut IndexMap<u32, i32>, lit: u32) -> (previous: Option<i32>)
    ensures
        trail_map(*final(trail)) == trail_map(*old(trail)).remove(lit),
        previous == stored(trail_map(*old(trail)), lit),
{
    trail.remove(&lit)
}

/// `IndexMap::clear`: afterwards the map holds no entry.
#[verifier::external_body]
pub(crate) fn trail_clear(trail: &mut IndexMap<u32, i32>)
    ensures
        trail_map(*final(trail)) == (Map::<u32, i32>::empty()),
{
    trail.clear()
}

/// `IndexMap::iter`, collected: every entry exactly once, each as a pair of
/// literal and level. Nothing is claimed of the order.
#[verifier::external_body]
pub(crate) fn trail_entries(trail: &IndexMap<u32, i32>) -> (entries: Vec<(u32, i32)>)
    ensures
        forall|i: int|
            0 <= i < entries@.len() ==> trail_map(*trail).dom().contains(#[trigger] entries@[i].0)
                && trail_map(*trail)[entries@[i].0] == entries@[i].1,
        forall|i: int, j: int| 0 <= i < j < entries@.len() ==> entries@[i].0 != entries@[j].0,
        forall|lit: u32|
            trail_map(*trail).dom().contains(lit) ==> exists|i: int|
                0 <= i < entries@.len() && #[trigger] entries@[i].0 == lit,
{
    trail.iter().map(|(lit, level)| (*lit, *level)).collect()
}

/// The entries of a variable table, in the map's order: each a name and the
/// identifier stored for it.
pub uninterp spec fn table_entries(table: IndexMap<String, u32>) -> Seq<(Seq<char>, u32)>;

/// No entry of the table has the name `name`.
pub open spec fn table_lacks(entries: Seq<(Seq<char>, u32)>, name: Seq<char>) -> bool {
    forall|i: int| 0 <= i < entries.len() ==> (#[trigger] entries[i]).0 != name
}

/// `found` is what a lookup of `name` may return: the identifier of an entry
/// with that name, or nothing if there is no such entry.
pub open spec fn table_lookup(
    entries: Seq<(Seq<char>, u32)>,
    name: Seq<char>,
    found: Option<u32>,
) -> bool {
    match found {
        Some(id) => exists|i: int| 0 <= i < entries.len() && #[trigger] entries[i] == (name, id),
        None => table_lacks(entries, name),
    }
}

/// `entry` is the entry at position `index`, or nothing if the table is
/// shorter.
pub open spec fn table_entry_is(
    entries: Seq<(Seq<char>, u32)>,
    index: int,
    entry: Option<(&String, u32)>,
) -> bool {
    match entry {
        Some((name, id)) => 0 <= index < entries.len() && entries[index] == (name@, id),
        None => index >= entries.len(),
    }
}

/// `IndexMap::new`: a fresh map holds no entry.
#[verifier::external_body]
pub(crate) fn table_new() -> (table: IndexMap<String, u32>)
    ensures
        table_entries(table).len() == 0,
{
    IndexMap::new()
}

/// `IndexMap::get`: the identifier stored for `name`, if `name` is a key.
#[verifier::external_body]
pub(crate) fn table_get(table: &IndexMap<String, u32>, name: &str) -> (found: Option<u32>)
    ensures
        table_lookup(table_entries(*table), name@, found),
{
    table.get(name).copied()
}

/// `IndexMap::insert` of a name that is no key yet: the pair is added last in
/// order, and nothing is returned.
#[verifier::external_body]
pub(crate) fn table_insert(table: &mut IndexMap<String, u32>, name: String, id: u32) -> (previous:
    Option<u32>)
    requires
        table_lacks(table_entries(*old(table)), name@),
    ensures
        table_entries(*final(table)) == table_entries(*old(table)).push((name@, id)),
        previous.is_none(),
{
    table.insert(name, id)
}

/// `IndexMap::get_index`: the entry at position `index`, if there is one.
#[verifier::external_body]
pub(crate) fn table_get_index(table: &IndexMap<String, u32>, index: usize) -> (entry: Option<
    (&String, u32),
>)
    ensures
        table_entry_is(table_entries(*table), index as int, entry),
{
    table.get_index(index).map(|(name, id)| (name, *id))
}

/// `IndexMap::len`: the number of entries.
#[verifier::external_body]
pub(crate) fn table_len(table: &IndexMap<String, u32>) -> (n: usize)
    ensures
        n == table_entries(*table).len(),
{
    table.len()
}

} // verus!
