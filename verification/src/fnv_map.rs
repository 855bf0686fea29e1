//! Trusted boundary around `fnv::FnvHashMap` keyed by segment id.
//!
//! `FnvHashMap<u64, V>` is `std::collections::HashMap` with the
//! deterministic Fowler-Noll-Vo hasher.  vstd already gives `HashMap` a view
//! of type `Map<u64, V>`; the wrappers below state what each operation does
//! to that view.  They rely on `HashMap` behaving as a finite map, which its
//! documentation promises for any consistent `Hash`/`Eq` pair such as the
//! derived ones on `u64`.

use vstd::prelude::*;
use fnv::FnvHashMap;

verus! {

#[verifier::external_type_specification]
#[verifier::external_body]
pub struct ExFnvHasher(fnv::FnvHasher);

#[verifier::reject_recursive_types(H)]
#[verifier::external_type_specification]
#[verifier::external_body]
pub struct ExBuildHasherDefault<H>(core::hash::BuildHasherDefault<H>);

/// Relies on `FnvHashMap::default`: a fresh map is empty.
#[verifier::external_body]
pub(crate) fn fnv_new<V>() -> (r: FnvHashMap<u64, V>)
    ensures
        r@.dom().len() == 0 && r@.dom().finite(),
{
    FnvHashMap::default()
}

/// Relies on `HashMap::insert`: the entry is added, all others are kept.
#[verifier::external_body]
pub(crate) fn fnv_insert<V>(m: &mut FnvHashMap<u64, V>, k: u64, v: V)
    ensures
        final(m)@ == old(m)@.insert(k, v),
{
    m.insert(k, v);
}

/// Relies on `HashMap::get`: the value stored under the key, if any.
#[verifier::external_body]
pub(crate) fn fnv_get<'a, V>(m: &'a FnvHashMap<u64, V>, k: u64) -> (r: Option<&'a V>)
    ensures
        match r {
            Some(v) => m@.contains_key(k) && *v == m@[k],
            None => !m@.contains_key(k),
        },
{
    m.get(&k)
}

/// Relies on `HashMap::remove`: the entry is taken out and returned.
#[verifier::external_body]
pub(crate) fn fnv_remove<V>(m: &mut FnvHashMap<u64, V>, k: u64) -> (r: Option<V>)
    ensures
        final(m)@ == old(m)@.remove(k),
        match r {
            Some(v) => old(m)@.contains_key(k) && v == old(m)@[k],
            None => !old(m)@.contains_key(k),
        },
{
    m.remove(&k)
}

/// Relies on `HashMap::len`: the number of stored entries.
#[verifier::external_body]
pub(crate) fn fnv_len<V>(m: &FnvHashMap<u64, V>) -> (r: usize)
    ensures
        r == m@.dom().len(),
        r as nat == m@.dom().len() ==> m@.dom().finite(),
{
    m.len()
}

} // verus!
