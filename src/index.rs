//! The order index, held by `dashmap::DashMap`: order identifier to the
//! price and side it rests at.
use vstd::prelude::*;
use dashmap::DashMap;
use crate::types::Side;

verus! {

#[verifier::external_type_specification]
#[verifier::external_body]
#[verifier::reject_recursive_types(K)]
#[verifier::reject_recursive_types(V)]
#[verifier::reject_recursive_types(S)]
pub struct ExDashMap<K, V, S>(DashMap<K, V, S>);

/// The entries of an index: identifier to price and side.
pub uninterp spec fn indexed(m: DashMap<u128, (u64, Side)>) -> Map<u128, (u64, Side)>;

/// Relies on `DashMap::new`: a new map is empty.
#[verifier::external_body]
pub(crate) fn index_new() -> (r: DashMap<u128, (u64, Side)>)
    ensures
        indexed(r).dom().is_empty(),
{
    DashMap::new()
}

/// Relies on `DashMap::insert`: the key maps to the value afterwards.
#[verifier::external_body]
pub(crate) fn index_insert(m: &mut DashMap<u128, (u64, Side)>, k: u128, v: (u64, Side))
    ensures
        indexed(*final(m)) == indexed(*old(m)).insert(k, v),
{
    m.insert(k, v);
}

/// Relies on `DashMap::remove`: the key leaves the map, and its value is
/// returned where it had one.
#[verifier::external_body]
pub(crate) fn index_remove(m: &mut DashMap<u128, (u64, Side)>, k: u128) -> (r: Option<(u64, Side)>)
    ensures
        indexed(*final(m)) == indexed(*old(m)).remove(k),
        r == if indexed(*old(m)).contains_key(k) {
            Some(indexed(*old(m))[k])
        } else {
            None
        },
{
    m.remove(&k).map(|(_, v)| v)
}

/// Relies on `DashMap::get`: the value of the key, copied out, if any.
#[verifier::external_body]
pub(crate) fn index_get(m: &DashMap<u128, (u64, Side)>, k: u128) -> (r: Option<(u64, Side)>)
    ensures
        r == if indexed(*m).contains_key(k) {
            Some(indexed(*m)[k])
        } else {
            None
        },
{
    m.get(&k).map(|e| *e)
}

/// Relies on `DashMap::len`: the number of entries.
#[verifier::external_body]
pub(crate) fn index_len(m: &DashMap<u128, (u64, Side)>) -> (r: usize)
    ensures
        r == indexed(*m).len(),
{
    m.len()
}

} // verus!
