//! Ascending traversal of the ordered indices.
//!
//! The ordered indices are std `BTreeMap`s and the per-key slot groups std
//! `BTreeSet`s, which vstd specifies; every call here, the iteration
//! included, is verified against vstd's contracts.

use std::collections::BTreeMap;
use std::collections::BTreeSet;

use vstd::prelude::*;
use vstd::std_specs::cmp::OrdSpec;
use vstd::std_specs::iter::IteratorSpec;

verus! {

/// Collects the index's entries through `BTreeMap::iter`, which vstd
/// specifies: every entry once, keys strictly ascending.
pub(crate) fn ts_map_pairs(m: &BTreeMap<u64, usize>) -> (r: Vec<(u64, usize)>)
    ensures
        r@.len() == (*m)@.dom().len(),
        forall|i: int|
            0 <= i < r@.len() ==> (*m)@.contains_key(#[trigger] r@[i].0) && r@[i].1 == (*m)@[r@[i].0],
        forall|i: int, j: int| 0 <= i < j < r@.len() ==> r@[i].0 < r@[j].0,
{
    broadcast use {vstd::std_specs::btree::group_btree_axioms, vstd::laws_cmp::group_laws_cmp};

    let mut out: Vec<(u64, usize)> = Vec::new();
    proof {
        assert(vstd::std_specs::btree::key_obeys_cmp_spec::<u64>());
    }
    for kv in it: m.iter()
        invariant
            out@.len() == it.index(),
            it.seq() == vstd::std_specs::btree::spec_btree_map_iter(m).remaining(),
            forall|i: int|
                0 <= i < out@.len() ==> (#[trigger] out@[i]).0 == *it.seq()[i].0 && out@[i].1
                    == *it.seq()[i].1,
    {
        out.push((*kv.0, *kv.1));
    }
    proof {
        let full = vstd::std_specs::btree::spec_btree_map_iter(m).remaining();
        assert forall|i: int| 0 <= i < out@.len() implies (*m)@.contains_key(
            #[trigger] out@[i].0,
        ) && out@[i].1 == (*m)@[out@[i].0] by {
            assert((*m)@.contains_key(*full[i].0) && (*m)@[*full[i].0] == *full[i].1);
        }
        let keys = full.map_values(|kv: (&u64, &usize)| *kv.0);
        assert forall|i: int, j: int| 0 <= i < j < out@.len() implies out@[i].0 < out@[j].0 by {
            lemma_increasing_at::<u64>(keys, i, j);
            assert(keys[i] == *full[i].0 && keys[j] == *full[j].0);
        }
    }
    out
}

/// Collects the index's entries through `BTreeMap::iter`, which vstd
/// specifies: every entry once, keys strictly ascending. The sets are
/// cloned.
pub(crate) fn priority_map_pairs(m: &BTreeMap<u64, BTreeSet<usize>>) -> (r: Vec<
    (u64, BTreeSet<usize>),
>)
    ensures
        r@.len() == (*m)@.dom().len(),
        forall|i: int|
            0 <= i < r@.len() ==> (*m)@.contains_key(#[trigger] r@[i].0) && r@[i].1@
                == (*m)@[r@[i].0]@,
        forall|i: int, j: int| 0 <= i < j < r@.len() ==> r@[i].0 < r@[j].0,
{
    broadcast use {vstd::std_specs::btree::group_btree_axioms, vstd::laws_cmp::group_laws_cmp};

    let mut out: Vec<(u64, BTreeSet<usize>)> = Vec::new();
    proof {
        assert(vstd::std_specs::btree::key_obeys_cmp_spec::<u64>());
    }
    for kv in it: m.iter()
        invariant
            out@.len() == it.index(),
            it.seq() == vstd::std_specs::btree::spec_btree_map_iter(m).remaining(),
            forall|i: int|
                0 <= i < out@.len() ==> (#[trigger] out@[i]).0 == *it.seq()[i].0 && out@[i].1@
                    == it.seq()[i].1@,
    {
        out.push((*kv.0, kv.1.clone()));
    }
    proof {
        let full = vstd::std_specs::btree::spec_btree_map_iter(m).remaining();
        assert forall|i: int| 0 <= i < out@.len() implies (*m)@.contains_key(
            #[trigger] out@[i].0,
        ) && out@[i].1@ == (*m)@[out@[i].0]@ by {
            assert((*m)@.contains_key(*full[i].0) && (*m)@[*full[i].0] == *full[i].1);
        }
        let keys = full.map_values(|kv: (&u64, &BTreeSet<usize>)| *kv.0);
        assert forall|i: int, j: int| 0 <= i < j < out@.len() implies out@[i].0 < out@[j].0 by {
            lemma_increasing_at::<u64>(keys, i, j);
            assert(keys[i] == *full[i].0 && keys[j] == *full[j].0);
        }
    }
    out
}

/// In an increasing sequence, an earlier element compares `Less` than a
/// later one.
proof fn lemma_increasing_at<K: Ord>(s: Seq<K>, i: int, j: int)
    requires
        vstd::laws_cmp::obeys_cmp::<K>(),
        vstd::std_specs::btree::increasing_seq(s),
        0 <= i < j < s.len(),
    ensures
        s[i].cmp_spec(&s[j]) is Less,
{
    broadcast use vstd::std_specs::btree::group_btree_axioms;

}

/// Collects a set's elements through `BTreeSet::iter`, which vstd
/// specifies: every element once, strictly ascending.
pub(crate) fn set_slots(s: &BTreeSet<usize>) -> (r: Vec<usize>)
    ensures
        r@.len() == (*s)@.len(),
        forall|i: int| 0 <= i < r@.len() ==> (*s)@.contains(#[trigger] r@[i]),
        forall|x: usize| #[trigger] (*s)@.contains(x) ==> r@.contains(x),
        forall|i: int, j: int| 0 <= i < j < r@.len() ==> r@[i] < r@[j],
{
    broadcast use {vstd::std_specs::btree::group_btree_axioms, vstd::laws_cmp::group_laws_cmp};

    let mut out: Vec<usize> = Vec::new();
    for x in it: s.iter()
        invariant
            out@.len() == it.index(),
            it.seq() == vstd::std_specs::btree::spec_btree_keys_iter(s).remaining(),
            forall|i: int| 0 <= i < out@.len() ==> out@[i] == *(#[trigger] it.seq()[i]),
    {
        out.push(*x);
    }
    proof {
        let full = vstd::std_specs::btree::spec_btree_keys_iter(s).remaining();
        assert(full.unref().to_set() == (*s)@);
        assert forall|i: int| 0 <= i < out@.len() implies (*s)@.contains(#[trigger] out@[i]) by {
            assert(full.unref()[i] == *full[i]);
            assert(full.unref().to_set().contains(full.unref()[i]));
        }
        assert forall|x: usize| #[trigger] (*s)@.contains(x) implies out@.contains(x) by {
            assert(full.unref().to_set().contains(x));
            let i = choose|i: int| 0 <= i < full.unref().len() && full.unref()[i] == x;
            assert(out@[i] == x);
        }
        assert forall|i: int, j: int| 0 <= i < j < out@.len() implies out@[i] < out@[j] by {
            assert(vstd::laws_cmp::obeys_cmp::<&usize>());
            lemma_increasing_at::<&usize>(full, i, j);
            assert(full[i].cmp_spec(&full[j]) is Less);
        }
    }
    out
}

} // verus!
