//! The hashed indices, backed by `rustc_hash`'s `FxHashMap`: std's
//! `HashMap` with the deterministic Fx hasher, for fast integer and string
//! keys.
//!
//! vstd specifies `HashMap` only under `builds_valid_hashers` for the
//! hasher, which it states of `RandomState` alone, so the calls stand behind
//! trusted wrappers here. The Fx hasher is deterministic and hashes by the
//! key's `Hash` impl, so the map behaves as std documents; each wrapper's
//! contract states exactly that map behaviour.
//!
//! The `u64`-keyed index is described through vstd's view of the map. The
//! `String`-keyed index is instead named by [`trader_map_model`], a map keyed
//! by the string's characters: `HashMap` finds a key by hash and equality,
//! that is by the characters, not by any particular `String` value.

use std::collections::BTreeSet;
use std::collections::HashMap;

use rustc_hash::FxBuildHasher;
use vstd::prelude::*;

verus! {

/// Declares `rustc_hash::FxBuildHasher` so that `HashMap<_, _, FxBuildHasher>`
/// can stand in fields and signatures.
#[verifier::external_type_specification]
#[verifier::external_body]
pub struct ExFxBuildHasher(FxBuildHasher);

/// Relies on `HashMap::insert` (Fx hasher): the key now maps to the value,
/// nothing else changes, and the prior value for the key is returned.
#[verifier::external_body]
pub(crate) fn id_map_insert(m: &mut HashMap<u64, usize, FxBuildHasher>, k: u64, v: usize) -> (r:
    Option<usize>)
    ensures
        (*final (m))@ == (*old(m))@.insert(k, v),
        match r {
            Some(prev) => (*old(m))@.contains_key(k) && prev == (*old(m))@[k],
            None => !(*old(m))@.contains_key(k),
        },
{
    m.insert(k, v)
}

/// Relies on `HashMap::get` (Fx hasher): the value under the key, if any.
#[verifier::external_body]
pub(crate) fn id_map_get(m: &HashMap<u64, usize, FxBuildHasher>, k: &u64) -> (r: Option<usize>)
    ensures
        match r {
            Some(v) => (*m)@.contains_key(*k) && v == (*m)@[*k],
            None => !(*m)@.contains_key(*k),
        },
{
    m.get(k).copied()
}

/// Relies on `HashMap::remove` (Fx hasher): the key is gone, nothing else
/// changes, and its prior value is returned.
#[verifier::external_body]
pub(crate) fn id_map_remove(m: &mut HashMap<u64, usize, FxBuildHasher>, k: &u64) -> (r: Option<
    usize,
>)
    ensures
        (*final (m))@ == (*old(m))@.remove(*k),
        match r {
            Some(prev) => (*old(m))@.contains_key(*k) && prev == (*old(m))@[*k],
            None => !(*old(m))@.contains_key(*k),
        },
{
    m.remove(k)
}

/// Relies on `HashMap::iter` (Fx hasher): every entry once, in no promised
/// order.
#[verifier::external_body]
pub(crate) fn id_map_pairs(m: &HashMap<u64, usize, FxBuildHasher>) -> (r: Vec<(u64, usize)>)
    ensures
        r@.len() == (*m)@.dom().len(),
        forall|i: int|
            0 <= i < r@.len() ==> (*m)@.contains_key(#[trigger] r@[i].0) && r@[i].1 == (*m)@[r@[i].0],
        forall|i: int, j: int| 0 <= i < j < r@.len() ==> r@[i].0 != r@[j].0,
{
    m.iter().map(|(k, v)| (*k, *v)).collect()
}

/// Relies on `HashMap::shrink_to_fit` (Fx hasher): allocation only; no entry
/// changes.
#[verifier::external_body]
pub(crate) fn id_map_shrink_to_fit(m: &mut HashMap<u64, usize, FxBuildHasher>)
    ensures
        (*final (m))@ == (*old(m))@,
{
    m.shrink_to_fit()
}

/// What the trader index holds, keyed by the characters of each key: the map
/// from a trader name to the set of slot ids of the live records bearing it.
pub uninterp spec fn trader_map_model(m: HashMap<String, BTreeSet<usize>, FxBuildHasher>) -> Map<
    Seq<char>,
    Set<usize>,
>;

/// The contents of a trader index that holds nothing.
pub open spec fn no_groups() -> Map<Seq<char>, Set<usize>> {
    Map::empty()
}

/// Relies on `HashMap::default` (Fx hasher): the new map is empty.
#[verifier::external_body]
pub(crate) fn trader_map_new() -> (m: HashMap<String, BTreeSet<usize>, FxBuildHasher>)
    ensures
        trader_map_model(m) == no_groups(),
{
    HashMap::default()
}

/// Relies on `HashMap::insert` (Fx hasher): the key's characters now map to
/// the given set's contents, and nothing else changes.
#[verifier::external_body]
pub(crate) fn trader_map_insert(
    m: &mut HashMap<String, BTreeSet<usize>, FxBuildHasher>,
    k: String,
    v: BTreeSet<usize>,
)
    ensures
        trader_map_model(*final (m)) == trader_map_model(*old(m)).insert(k@, v@),
{
    m.insert(k, v);
}

/// Relies on `HashMap::get` (Fx hasher): the set under the key's characters,
/// if any.
#[verifier::external_body]
pub(crate) fn trader_map_get<'a>(
    m: &'a HashMap<String, BTreeSet<usize>, FxBuildHasher>,
    k: &String,
) -> (r: Option<&'a BTreeSet<usize>>)
    ensures
        match r {
            Some(s) => trader_map_model(*m).contains_key(k@) && s@ == trader_map_model(*m)[k@],
            None => !trader_map_model(*m).contains_key(k@),
        },
{
    m.get(k)
}

/// Relies on `HashMap::remove` (Fx hasher): the key's characters are gone,
/// nothing else changes, and the prior set is returned.
#[verifier::external_body]
pub(crate) fn trader_map_remove(
    m: &mut HashMap<String, BTreeSet<usize>, FxBuildHasher>,
    k: &String,
) -> (r: Option<BTreeSet<usize>>)
    ensures
        trader_map_model(*final (m)) == trader_map_model(*old(m)).remove(k@),
        match r {
            Some(s) => trader_map_model(*old(m)).contains_key(k@) && s@ == trader_map_model(
                *old(m),
            )[k@],
            None => !trader_map_model(*old(m)).contains_key(k@),
        },
{
    m.remove(k)
}

/// Relies on `HashMap::clear` (Fx hasher): the map is emptied.
#[verifier::external_body]
pub(crate) fn trader_map_clear(m: &mut HashMap<String, BTreeSet<usize>, FxBuildHasher>)
    ensures
        trader_map_model(*final (m)) == no_groups(),
{
    m.clear()
}

/// Relies on `HashMap::reserve` (Fx hasher): allocation only; no entry
/// changes.
#[verifier::external_body]
pub(crate) fn trader_map_reserve(
    m: &mut HashMap<String, BTreeSet<usize>, FxBuildHasher>,
    additional: usize,
)
    ensures
        trader_map_model(*final (m)) == trader_map_model(*old(m)),
{
    m.reserve(additional)
}

/// Relies on `HashMap::shrink_to_fit` (Fx hasher): allocation only; no entry
/// changes.
#[verifier::external_body]
pub(crate) fn trader_map_shrink_to_fit(m: &mut HashMap<String, BTreeSet<usize>, FxBuildHasher>)
    ensures
        trader_map_model(*final (m)) == trader_map_model(*old(m)),
{
    m.shrink_to_fit()
}

/// Relies on `HashMap::iter` (Fx hasher): every entry once, in no promised
/// order. The keys are cloned and the sets with them.
#[verifier::external_body]
pub(crate) fn trader_map_pairs(m: &HashMap<String, BTreeSet<usize>, FxBuildHasher>) -> (r: Vec<
    (String, BTreeSet<usize>),
>)
    ensures
        r@.len() == trader_map_model(*m).dom().len(),
        forall|i: int|
            0 <= i < r@.len() ==> trader_map_model(*m).contains_key(#[trigger] r@[i].0@)
                && r@[i].1@ == trader_map_model(*m)[r@[i].0@],
        forall|i: int, j: int| 0 <= i < j < r@.len() ==> r@[i].0@ != r@[j].0@,
{
    m.iter().map(|(k, v)| (k.clone(), v.clone())).collect()
}

} // verus!
