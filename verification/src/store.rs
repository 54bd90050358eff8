//! The slot store: an arena of records at stable integer slot ids, with
//! free-slot reuse, backed by `slab::Slab`.
//!
//! The slab is held behind a small set of trusted wrappers. Its contents are
//! named by the uninterpreted function [`slab_model`], a map from live slot
//! id to the record stored there; every wrapper's contract says over that
//! name what `slab`'s source shows of the call it makes.

use vstd::prelude::*;

use crate::order::Order;

verus! {

/// Declares `slab::Slab` so that it can stand in fields and signatures.
#[verifier::external_type_specification]
#[verifier::external_body]
#[verifier::reject_recursive_types(T)]
pub struct ExSlab<T>(slab::Slab<T>);

/// Declares `slab::Slab::clone` so that a container can be cloned. Nothing
/// is promised of the copy: cloning the records clones what they own, and
/// the copy's contents are its own.
pub assume_specification<T: Clone>[ <slab::Slab<T> as Clone>::clone ](s: &slab::Slab<T>) -> slab::Slab<
    T,
>;

/// What a slab holds: the map from each occupied slot id to its record.
pub uninterp spec fn slab_model(s: slab::Slab<Order>) -> Map<usize, Order>;

/// The contents of a slab that holds nothing.
pub open spec fn no_recs() -> Map<usize, Order> {
    Map::empty()
}

/// Relies on `slab::Slab::new`: the new slab holds nothing.
#[verifier::external_body]
pub(crate) fn slab_new() -> (s: slab::Slab<Order>)
    ensures
        slab_model(s) == no_recs(),
{
    slab::Slab::new()
}

/// Relies on `slab::Slab::with_capacity`: the new slab holds nothing.
#[verifier::external_body]
pub(crate) fn slab_with_capacity(n: usize) -> (s: slab::Slab<Order>)
    ensures
        slab_model(s) == no_recs(),
{
    slab::Slab::with_capacity(n)
}

/// Relies on `slab::Slab::insert`: the value is stored at a previously
/// vacant slot id, whose key is returned, and no other slot changes.
#[verifier::external_body]
pub(crate) fn slab_insert(s: &mut slab::Slab<Order>, val: Order) -> (key: usize)
    ensures
        !slab_model(*old(s)).contains_key(key),
        slab_model(*final (s)) == slab_model(*old(s)).insert(key, val),
{
    s.insert(val)
}

/// Relies on `slab::Slab::get`: returns the record at the slot id if that
/// slot is occupied, and `None` otherwise.
#[verifier::external_body]
pub(crate) fn slab_get<'a>(s: &'a slab::Slab<Order>, key: usize) -> (r: Option<&'a Order>)
    ensures
        match r {
            Some(v) => slab_model(*s).contains_key(key) && *v == slab_model(*s)[key],
            None => !slab_model(*s).contains_key(key),
        },
{
    s.get(key)
}

/// Relies on `slab::Slab::remove`: the record at the slot id is taken out
/// and its slot becomes vacant. `remove` panics on a vacant slot, so the
/// contract admits only occupied ones.
#[verifier::external_body]
pub(crate) fn slab_remove(s: &mut slab::Slab<Order>, key: usize) -> (r: Order)
    requires
        slab_model(*old(s)).contains_key(key),
    ensures
        r == slab_model(*old(s))[key],
        slab_model(*final (s)) == slab_model(*old(s)).remove(key),
{
    s.remove(key)
}

/// Relies on `slab::Slab::get_mut`: puts the value into an occupied slot in
/// place of what it held; the slot id stays live and no other slot changes.
#[verifier::external_body]
pub(crate) fn slab_replace(s: &mut slab::Slab<Order>, key: usize, val: Order)
    requires
        slab_model(*old(s)).contains_key(key),
    ensures
        slab_model(*final (s)) == slab_model(*old(s)).insert(key, val),
{
    if let Some(p) = s.get_mut(key) {
        *p = val;
    }
}

/// Relies on `slab::Slab::len`: the number of stored values, which is the
/// (finite) number of occupied slots.
#[verifier::external_body]
pub(crate) fn slab_len(s: &slab::Slab<Order>) -> (n: usize)
    ensures
        n == slab_model(*s).dom().len(),
{
    s.len()
}

/// Relies on `slab::Slab::capacity`. Nothing is promised of the number it
/// returns: how much the slab has allocated is not modelled.
#[verifier::external_body]
pub(crate) fn slab_capacity(s: &slab::Slab<Order>) -> usize {
    s.capacity()
}

/// Relies on `slab::Slab::reserve`: allocation only; no slot changes.
#[verifier::external_body]
pub(crate) fn slab_reserve(s: &mut slab::Slab<Order>, additional: usize)
    ensures
        slab_model(*final (s)) == slab_model(*old(s)),
{
    s.reserve(additional)
}

/// Relies on `slab::Slab::shrink_to_fit`: allocation only; no slot changes.
#[verifier::external_body]
pub(crate) fn slab_shrink_to_fit(s: &mut slab::Slab<Order>)
    ensures
        slab_model(*final (s)) == slab_model(*old(s)),
{
    s.shrink_to_fit()
}

/// Relies on `slab::Slab::clear`: every slot becomes vacant.
#[verifier::external_body]
pub(crate) fn slab_clear(s: &mut slab::Slab<Order>)
    ensures
        slab_model(*final (s)) == no_recs(),
{
    s.clear()
}

/// Relies on `slab::Slab::iter`: it walks the occupied slots in ascending
/// slot-id order. Only the slot ids are kept; the records are read back
/// through [`slab_get`].
#[verifier::external_body]
pub(crate) fn slab_slots(s: &slab::Slab<Order>) -> (r: Vec<usize>)
    ensures
        forall|i: int, j: int| 0 <= i < j < r@.len() ==> r@[i] < r@[j],
        forall|i: int| 0 <= i < r@.len() ==> slab_model(*s).contains_key(#[trigger] r@[i]),
        forall|k: usize| #[trigger] slab_model(*s).contains_key(k) ==> r@.contains(k),
{
    s.iter().map(|(k, _)| k).collect()
}

} // verus!
