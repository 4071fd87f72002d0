//! The insertion-ordered map that holds the waiter table.
//!
//! The map itself comes from the `indexmap` crate. What is stated of it here
//! is taken on trust from that crate's documentation; everything else in the
//! library is proved from these statements.

use indexmap::IndexMap;
use std::collections::hash_map::RandomState;
use vstd::prelude::*;

use crate::scheduler::WaiterState;

verus! {

/// `indexmap::IndexMap`, as a type that verified code can hold and hand on.
/// Nothing is known of what a map holds but what is stated over `entries`.
#[verifier::external_type_specification]
#[verifier::external_body]
#[verifier::reject_recursive_types(K)]
#[verifier::reject_recursive_types(V)]
#[verifier::reject_recursive_types(S)]
pub struct ExIndexMap<K, V, S>(IndexMap<K, V, S>);

/// The key-value pairs that the map holds, in its iteration order: the order
/// of first insertion, closed up after removals.
pub uninterp spec fn entries(m: &IndexMap<u32, WaiterState, RandomState>) -> Seq<(u32, WaiterState)>;

/// Whether some pair of `entries` has the key `key`.
pub open spec fn has_key(entries: Seq<(u32, WaiterState)>, key: u32) -> bool {
    exists|i: int| 0 <= i < entries.len() && (#[trigger] entries[i]).0 == key
}

/// `IndexMap::new`: a map without entries.
#[verifier::external_body]
pub(crate) fn table_new() -> (m: IndexMap<u32, WaiterState, RandomState>)
    ensures
        entries(&m) == Seq::<(u32, WaiterState)>::empty(),
{
    IndexMap::new()
}

/// `IndexMap::len`: the number of entries.
#[verifier::external_body]
pub(crate) fn table_len(m: &IndexMap<u32, WaiterState, RandomState>) -> (n: usize)
    ensures
        n == entries(m).len(),
{
    m.len()
}

/// `IndexMap::get`: the value stored under `key`, if the key is present.
#[verifier::external_body]
pub(crate) fn table_get(m: &IndexMap<u32, WaiterState, RandomState>, key: u32) -> (r: Option<
    &WaiterState,
>)
    ensures
        match r {
            Some(v) => exists|i: int|
                0 <= i < entries(m).len() && #[trigger] entries(m)[i] == (key, *v),
            None => !has_key(entries(m), key),
        },
{
    m.get(&key)
}

/// `IndexMap::get_index`: the pair at position `index` of the iteration
/// order, if there is one.
#[verifier::external_body]
pub(crate) fn table_get_index(m: &IndexMap<u32, WaiterState, RandomState>, index: usize) -> (r:
    Option<(u32, &WaiterState)>)
    ensures
        match r {
            Some((k, v)) => index < entries(m).len() && entries(m)[index as int] == (k, *v),
            None => index >= entries(m).len(),
        },
{
    m.get_index(index).map(|(k, v)| (*k, v))
}

/// `IndexMap::insert`: a present key keeps its place and gets the new value,
/// and the old value is returned; an absent key is appended, last in order.
#[verifier::external_body]
pub(crate) fn table_insert(
    m: &mut IndexMap<u32, WaiterState, RandomState>,
    key: u32,
    value: WaiterState,
) -> (r: Option<WaiterState>)
    ensures
        match r {
            Some(prev) => exists|i: int|
                0 <= i < entries(old(m)).len() && #[trigger] entries(old(m))[i] == (key, prev)
                    && entries(final(m)) == entries(old(m)).update(i, (key, value)),
            None => !has_key(entries(old(m)), key) && entries(final(m)) == entries(old(m)).push(
                (key, value),
            ),
        },
{
    m.insert(key, value)
}

/// `IndexMap::shift_remove`: a present key is removed with its value, which
/// is returned, and the pairs after it move up by one, keeping their order.
#[verifier::external_body]
pub(crate) fn table_shift_remove(m: &mut IndexMap<u32, WaiterState, RandomState>, key: u32) -> (r:
    Option<WaiterState>)
    ensures
        match r {
            Some(prev) => exists|i: int|
                0 <= i < entries(old(m)).len() && #[trigger] entries(old(m))[i] == (key, prev)
                    && entries(final(m)) == entries(old(m)).remove(i),
            None => !has_key(entries(old(m)), key) && entries(final(m)) == entries(old(m)),
        },
{
    m.shift_remove(&key)
}

} // verus!
