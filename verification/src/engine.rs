//! The multi-index container: one slot store plus one index per indexed
//! field, with insert, lookup, removal, modification and traversal through
//! any index, and the cross-index consistency invariant they all preserve.

use std::collections::BTreeMap;
use std::collections::BTreeSet;
use std::collections::HashMap;

use rustc_hash::FxBuildHasher;
use vstd::prelude::*;

use crate::hashed::trader_map_model;
use crate::order::Order;
use crate::order::UniqueViolation;
use crate::store::slab_model;

verus! {

broadcast use {vstd::std_specs::btree::group_btree_axioms, vstd::laws_cmp::group_laws_cmp};

/// The container: the slot store and one index per indexed field.
#[derive(Clone, Debug)]
pub struct OrderMap {
    store: slab::Slab<Order>,
    id_index: HashMap<u64, usize, FxBuildHasher>,
    timestamp_index: BTreeMap<u64, usize>,
    trader_index: HashMap<String, BTreeSet<usize>, FxBuildHasher>,
    priority_index: BTreeMap<u64, BTreeSet<usize>>,
}

impl OrderMap {
    /// The record at each live slot id: the abstract state every contract
    /// speaks of.
    pub closed spec fn recs(self) -> Map<usize, Order> {
        slab_model(self.store)
    }

    /// The hashed-unique index over `id`, as a map from key to slot id.
    pub closed spec fn id_keys(self) -> Map<u64, usize> {
        self.id_index@
    }

    /// The ordered-unique index over `timestamp`, as a map from key to slot
    /// id.
    pub closed spec fn timestamp_keys(self) -> Map<u64, usize> {
        self.timestamp_index@
    }

    /// The hashed-non-unique index over `trader`, as a map from key (the
    /// name's characters) to the set of slot ids bearing it.
    pub closed spec fn trader_keys(self) -> Map<Seq<char>, Set<usize>> {
        trader_map_model(self.trader_index)
    }

    /// The ordered-non-unique index over `priority`, as a map from key to
    /// the set of slot ids bearing it.
    pub closed spec fn priority_keys(self) -> Map<u64, Set<usize>> {
        self.priority_index@.map_values(|g: BTreeSet<usize>| g@)
    }

    /// A unique index is exactly right for a store when it holds each live
    /// record's key, that key leads back to the record's slot, and nothing
    /// else: no dangling slot, no duplicated key, no missing record.
    pub open spec fn unique_index_ok(
        recs: Map<usize, Order>,
        index: Map<u64, usize>,
        key_of: spec_fn(Order) -> u64,
    ) -> bool {
        &&& forall|k: u64| #[trigger]
            index.contains_key(k) ==> recs.contains_key(index[k]) && key_of(recs[index[k]]) == k
        &&& forall|x: usize| #[trigger]
            recs.contains_key(x) ==> index.contains_key(key_of(recs[x])) && index[key_of(recs[x])]
                == x
    }

    /// A non-unique index is exactly right for a store when every key held
    /// maps to a finite, non-empty set of live slots whose records bear that
    /// key, and every live record's slot is in its own key's set.
    pub open spec fn group_index_ok<K>(
        recs: Map<usize, Order>,
        index: Map<K, Set<usize>>,
        key_of: spec_fn(Order) -> K,
    ) -> bool {
        &&& forall|k: K| #[trigger]
            index.contains_key(k) ==> index[k].finite() && index[k].len() > 0
        &&& forall|k: K, x: usize|
            index.contains_key(k) && #[trigger] index[k].contains(x) ==> recs.contains_key(x)
                && key_of(recs[x]) == k
        &&& forall|x: usize| #[trigger]
            recs.contains_key(x) ==> index.contains_key(key_of(recs[x]))
                && index[key_of(recs[x])].contains(x)
    }

    /// The container's invariant: the store is finite and each of the four
    /// indices is exactly the one its field induces on the store.
    pub open spec fn wf(self) -> bool {
        &&& self.recs().dom().finite()
        &&& Self::unique_index_ok(self.recs(), self.id_keys(), |o: Order| o.id)
        &&& Self::unique_index_ok(self.recs(), self.timestamp_keys(), |o: Order| o.timestamp)
        &&& Self::group_index_ok(self.recs(), self.trader_keys(), |o: Order| o.trader@)
        &&& Self::group_index_ok(self.recs(), self.priority_keys(), |o: Order| o.priority)
    }

    /// Whether some live record bears this `id`.
    pub open spec fn has_id(self, k: u64) -> bool {
        exists|x: usize| #[trigger] self.recs().contains_key(x) && self.recs()[x].id == k
    }

    /// Whether some live record bears this `timestamp`.
    pub open spec fn has_timestamp(self, k: u64) -> bool {
        exists|x: usize| #[trigger] self.recs().contains_key(x) && self.recs()[x].timestamp == k
    }

    /// The set of slot ids of the live records bearing this `trader` key.
    pub open spec fn trader_slots(self, k: Seq<char>) -> Set<usize> {
        self.recs().dom().filter(|x: usize| self.recs()[x].trader@ == k)
    }

    /// The set of slot ids of the live records bearing this `priority` key.
    pub open spec fn priority_slots(self, k: u64) -> Set<usize> {
        self.recs().dom().filter(|x: usize| self.recs()[x].priority == k)
    }

    /// Slot ids listed in strictly ascending order: the order in which a
    /// group's records are returned, for determinism.
    pub open spec fn ascending(s: Seq<usize>) -> bool {
        forall|i: int, j: int| 0 <= i < j < s.len() ==> s[i] < s[j]
    }

    /// `r` lists, in the order of `slots`, a reference to the record at each
    /// of those slots.
    pub open spec fn lists_records(self, slots: Seq<usize>, r: Seq<&Order>) -> bool {
        &&& r.len() == slots.len()
        &&& forall|i: int|
            0 <= i < slots.len() ==> self.recs().contains_key(#[trigger] slots[i]) && *(#[trigger] r[i])
                == self.recs()[slots[i]]
    }

    /// In a well-formed container a unique index holds a key exactly when
    /// some live record bears it, and then it leads to that record's slot.
    proof fn lemma_unique_key_meaning(
        recs: Map<usize, Order>,
        index: Map<u64, usize>,
        key_of: spec_fn(Order) -> u64,
        k: u64,
    )
        requires
            Self::unique_index_ok(recs, index, key_of),
        ensures
            index.contains_key(k) <==> exists|x: usize| #[trigger]
                recs.contains_key(x) && key_of(recs[x]) == k,
            index.contains_key(k) ==> recs.contains_key(index[k]) && key_of(recs[index[k]]) == k,
            forall|x: usize|
                index.contains_key(k) && #[trigger] recs.contains_key(x) && key_of(recs[x]) == k
                    ==> x == index[k],
    {
        if index.contains_key(k) {
            assert(recs.contains_key(index[k]) && key_of(recs[index[k]]) == k);
        }
    }

    /// In a well-formed container a non-unique index's set under any key is
    /// exactly the set of live slots whose record bears that key.
    proof fn lemma_group_key_meaning<K>(
        recs: Map<usize, Order>,
        index: Map<K, Set<usize>>,
        key_of: spec_fn(Order) -> K,
        k: K,
    )
        requires
            Self::group_index_ok(recs, index, key_of),
        ensures
            index.contains_key(k) ==> index[k] =~= recs.dom().filter(
                |x: usize| key_of(recs[x]) == k,
            ),
            !index.contains_key(k) ==> recs.dom().filter(|x: usize| key_of(recs[x]) == k)
                =~= Set::<usize>::empty(),
    {
        if index.contains_key(k) {
            assert forall|x: usize| #[trigger]
                recs.dom().contains(x) && key_of(recs[x]) == k implies index[k].contains(x) by {
                assert(recs.contains_key(x));
            }
            assert(index[k] =~= recs.dom().filter(|x: usize| key_of(recs[x]) == k));
        } else {
            assert forall|x: usize| #[trigger]
                recs.dom().contains(x) implies key_of(recs[x]) != k by {
                assert(index.contains_key(key_of(recs[x])));
            }
        }
    }

    /// A unique index stays exact when a record with a fresh key is stored
    /// at a fresh slot and the key entered.
    proof fn lemma_unique_insert(
        r0: Map<usize, Order>,
        i0: Map<u64, usize>,
        key_of: spec_fn(Order) -> u64,
        x: usize,
        elem: Order,
    )
        requires
            Self::unique_index_ok(r0, i0, key_of),
            !r0.contains_key(x),
            forall|y: usize| #[trigger] r0.contains_key(y) ==> key_of(r0[y]) != key_of(elem),
        ensures
            Self::unique_index_ok(r0.insert(x, elem), i0.insert(key_of(elem), x), key_of),
    {
        let r1 = r0.insert(x, elem);
        let i1 = i0.insert(key_of(elem), x);
        assert forall|k: u64| #[trigger] i1.contains_key(k) implies r1.contains_key(i1[k])
            && key_of(r1[i1[k]]) == k by {
            if k != key_of(elem) {
                assert(i0.contains_key(k));
                assert(r0.contains_key(i0[k]));
            }
        }
        assert forall|y: usize| #[trigger] r1.contains_key(y) implies i1.contains_key(
            key_of(r1[y]),
        ) && i1[key_of(r1[y])] == y by {
            if y != x {
                assert(r0.contains_key(y));
            }
        }
    }

    /// A non-unique index stays exact when a record stored at a fresh slot
    /// has that slot added to its key's group.
    proof fn lemma_group_insert<K>(
        r0: Map<usize, Order>,
        g0: Map<K, Set<usize>>,
        key_of: spec_fn(Order) -> K,
        x: usize,
        elem: Order,
        gs: Set<usize>,
    )
        requires
            Self::group_index_ok(r0, g0, key_of),
            !r0.contains_key(x),
            gs == if g0.contains_key(key_of(elem)) {
                g0[key_of(elem)].insert(x)
            } else {
                Set::<usize>::empty().insert(x)
            },
        ensures
            Self::group_index_ok(r0.insert(x, elem), g0.insert(key_of(elem), gs), key_of),
    {
        let ke = key_of(elem);
        let r1 = r0.insert(x, elem);
        let g1 = g0.insert(ke, gs);
        assert forall|k: K| #[trigger] g1.contains_key(k) implies g1[k].finite() && g1[k].len()
            > 0 by {
            if k == ke {
                if g0.contains_key(ke) {
                    assert(gs.contains(x));
                }
            } else {
                assert(g0.contains_key(k));
            }
        }
        assert forall|k: K, y: usize|
            g1.contains_key(k) && #[trigger] g1[k].contains(y) implies r1.contains_key(y) && key_of(
            r1[y],
        ) == k by {
            if k == ke {
                if y != x {
                    assert(g0.contains_key(ke) && g0[ke].contains(y));
                    assert(r0.contains_key(y));
                }
            } else {
                assert(g0.contains_key(k) && g0[k].contains(y));
                assert(r0.contains_key(y));
            }
        }
        assert forall|y: usize| #[trigger] r1.contains_key(y) implies g1.contains_key(
            key_of(r1[y]),
        ) && g1[key_of(r1[y])].contains(y) by {
            if y != x {
                assert(r0.contains_key(y));
                if key_of(r0[y]) == ke {
                    assert(g0.contains_key(ke) && g0[ke].contains(y));
                }
            }
        }
    }

    /// Mapping each group to its contents commutes with updating one key.
    proof fn lemma_group_view_insert(m: Map<u64, BTreeSet<usize>>, k: u64, v: BTreeSet<usize>)
        ensures
            m.insert(k, v).map_values(|g: BTreeSet<usize>| g@) =~= m.map_values(
                |g: BTreeSet<usize>| g@,
            ).insert(k, v@),
    {
    }

    /// A unique index stays exact when a record is removed and its key
    /// deleted.
    proof fn lemma_unique_remove(
        r0: Map<usize, Order>,
        i0: Map<u64, usize>,
        key_of: spec_fn(Order) -> u64,
        x: usize,
    )
        requires
            Self::unique_index_ok(r0, i0, key_of),
            r0.contains_key(x),
        ensures
            Self::unique_index_ok(r0.remove(x), i0.remove(key_of(r0[x])), key_of),
    {
        let k = key_of(r0[x]);
        assert(i0.contains_key(k) && i0[k] == x);
        let r1 = r0.remove(x);
        let i1 = i0.remove(k);
        assert forall|kk: u64| #[trigger] i1.contains_key(kk) implies r1.contains_key(i1[kk])
            && key_of(r1[i1[kk]]) == kk by {
            assert(i0.contains_key(kk));
            assert(r0.contains_key(i0[kk]));
            if i0[kk] == x {
                assert(kk == k);
            }
        }
        assert forall|y: usize| #[trigger] r1.contains_key(y) implies i1.contains_key(
            key_of(r1[y]),
        ) && i1[key_of(r1[y])] == y by {
            assert(r0.contains_key(y));
            if key_of(r0[y]) == k {
                assert(i0[k] == y);
            }
        }
    }

    /// A non-unique index stays exact when a record is removed and its slot
    /// taken out of its key's group, the key itself going once its group
    /// holds no other slot.
    proof fn lemma_group_remove<K>(
        r0: Map<usize, Order>,
        g0: Map<K, Set<usize>>,
        key_of: spec_fn(Order) -> K,
        x: usize,
    )
        requires
            Self::group_index_ok(r0, g0, key_of),
            r0.contains_key(x),
        ensures
            Self::group_index_ok(
                r0.remove(x),
                if g0[key_of(r0[x])].len() > 1 {
                    g0.insert(key_of(r0[x]), g0[key_of(r0[x])].remove(x))
                } else {
                    g0.remove(key_of(r0[x]))
                },
                key_of,
            ),
    {
        let k = key_of(r0[x]);
        assert(g0.contains_key(k) && g0[k].contains(x));
        let r1 = r0.remove(x);
        if g0[k].len() > 1 {
            let s1 = g0[k].remove(x);
            let g1 = g0.insert(k, s1);
            assert forall|kk: K| #[trigger] g1.contains_key(kk) implies g1[kk].finite()
                && g1[kk].len() > 0 by {
                if kk != k {
                    assert(g0.contains_key(kk));
                }
            }
            assert forall|kk: K, y: usize|
                g1.contains_key(kk) && #[trigger] g1[kk].contains(y) implies r1.contains_key(y)
                && key_of(r1[y]) == kk by {
                assert(g0.contains_key(kk) && g0[kk].contains(y));
                assert(r0.contains_key(y));
                if y == x {
                    assert(kk == k);
                }
            }
            assert forall|y: usize| #[trigger] r1.contains_key(y) implies g1.contains_key(
                key_of(r1[y]),
            ) && g1[key_of(r1[y])].contains(y) by {
                assert(r0.contains_key(y));
                assert(g0.contains_key(key_of(r0[y])) && g0[key_of(r0[y])].contains(y));
            }
        } else {
            let g1 = g0.remove(k);
            assert forall|kk: K, y: usize|
                g1.contains_key(kk) && #[trigger] g1[kk].contains(y) implies r1.contains_key(y)
                && key_of(r1[y]) == kk by {
                assert(g0.contains_key(kk) && g0[kk].contains(y));
                assert(r0.contains_key(y));
                if y == x {
                    assert(kk == k);
                }
            }
            assert forall|y: usize| #[trigger] r1.contains_key(y) implies g1.contains_key(
                key_of(r1[y]),
            ) && g1[key_of(r1[y])].contains(y) by {
                assert(r0.contains_key(y));
                assert(g0.contains_key(key_of(r0[y])) && g0[key_of(r0[y])].contains(y));
                if key_of(r0[y]) == k {
                    assert(g0[k].remove(x).contains(y));
                    assert(g0[k].remove(x).len() >= 1);
                }
            }
        }
    }

    /// What is left of `r0` after the first `i` slots of `all` have been
    /// removed.
    pub open spec fn removed_upto(r0: Map<usize, Order>, all: Seq<usize>, i: int) -> Map<
        usize,
        Order,
    > {
        Map::new(|y: usize| r0.contains_key(y) && !all.take(i).contains(y), |y: usize| r0[y])
    }

    /// A non-unique index from which one key has been detached: everything
    /// the index still holds is exact, every record not bearing the detached
    /// key is still indexed, but the records bearing it are on their way out
    /// of the store and no longer indexed.
    pub open spec fn group_index_detached<K>(
        recs: Map<usize, Order>,
        index: Map<K, Set<usize>>,
        key_of: spec_fn(Order) -> K,
        kv: K,
    ) -> bool {
        &&& !index.contains_key(kv)
        &&& forall|k: K| #[trigger]
            index.contains_key(k) ==> index[k].finite() && index[k].len() > 0
        &&& forall|k: K, x: usize|
            index.contains_key(k) && #[trigger] index[k].contains(x) ==> recs.contains_key(x)
                && key_of(recs[x]) == k
        &&& forall|x: usize|
            #[trigger] recs.contains_key(x) && key_of(recs[x]) != kv ==> index.contains_key(
                key_of(recs[x]),
            ) && index[key_of(recs[x])].contains(x)
    }

    /// Deleting a key from an exact non-unique index detaches that key.
    proof fn lemma_group_detach<K>(
        recs: Map<usize, Order>,
        g0: Map<K, Set<usize>>,
        key_of: spec_fn(Order) -> K,
        kv: K,
    )
        requires
            Self::group_index_ok(recs, g0, key_of),
        ensures
            Self::group_index_detached(recs, g0.remove(kv), key_of, kv),
    {
        let g1 = g0.remove(kv);
        assert forall|k: K, x: usize|
            g1.contains_key(k) && #[trigger] g1[k].contains(x) implies recs.contains_key(x)
            && key_of(recs[x]) == k by {
            assert(g0.contains_key(k) && g0[k].contains(x));
        }
    }

    /// Removing a record that bears the detached key keeps the index
    /// detached.
    proof fn lemma_group_detached_step<K>(
        recs: Map<usize, Order>,
        g: Map<K, Set<usize>>,
        key_of: spec_fn(Order) -> K,
        kv: K,
        x: usize,
    )
        requires
            Self::group_index_detached(recs, g, key_of, kv),
            recs.contains_key(x),
            key_of(recs[x]) == kv,
        ensures
            Self::group_index_detached(recs.remove(x), g, key_of, kv),
    {
        let r1 = recs.remove(x);
        assert forall|k: K, y: usize|
            g.contains_key(k) && #[trigger] g[k].contains(y) implies r1.contains_key(y) && key_of(
            r1[y],
        ) == k by {
            assert(recs.contains_key(y) && key_of(recs[y]) == k);
            if y == x {
                assert(k == kv);
            }
        }
    }

    /// Once no live record bears the detached key, the index is exact
    /// again.
    proof fn lemma_group_reattach<K>(
        recs: Map<usize, Order>,
        g: Map<K, Set<usize>>,
        key_of: spec_fn(Order) -> K,
        kv: K,
    )
        requires
            Self::group_index_detached(recs, g, key_of, kv),
            forall|y: usize| #[trigger] recs.contains_key(y) ==> key_of(recs[y]) != kv,
        ensures
            Self::group_index_ok(recs, g, key_of),
    {
    }

    /// Mapping each group to its contents commutes with deleting one key.
    proof fn lemma_group_view_remove(m: Map<u64, BTreeSet<usize>>, k: u64)
        ensures
            m.remove(k).map_values(|g: BTreeSet<usize>| g@) =~= m.map_values(
                |g: BTreeSet<usize>| g@,
            ).remove(k),
    {
    }

    /// A unique index stays exact when the record at a live slot is
    /// replaced by one bearing the same key.
    proof fn lemma_unique_replace_same(
        r0: Map<usize, Order>,
        i0: Map<u64, usize>,
        key_of: spec_fn(Order) -> u64,
        x: usize,
        ne: Order,
    )
        requires
            Self::unique_index_ok(r0, i0, key_of),
            r0.contains_key(x),
            key_of(ne) == key_of(r0[x]),
        ensures
            Self::unique_index_ok(r0.insert(x, ne), i0, key_of),
    {
        let r1 = r0.insert(x, ne);
        assert forall|k: u64| #[trigger] i0.contains_key(k) implies r1.contains_key(i0[k])
            && key_of(r1[i0[k]]) == k by {
            assert(r0.contains_key(i0[k]));
        }
        assert forall|y: usize| #[trigger] r1.contains_key(y) implies i0.contains_key(
            key_of(r1[y]),
        ) && i0[key_of(r1[y])] == y by {
            assert(r0.contains_key(y));
        }
    }

    /// A non-unique index stays exact when the record at a live slot is
    /// replaced by one bearing the same key.
    proof fn lemma_group_replace_same<K>(
        r0: Map<usize, Order>,
        g0: Map<K, Set<usize>>,
        key_of: spec_fn(Order) -> K,
        x: usize,
        ne: Order,
    )
        requires
            Self::group_index_ok(r0, g0, key_of),
            r0.contains_key(x),
            key_of(ne) == key_of(r0[x]),
        ensures
            Self::group_index_ok(r0.insert(x, ne), g0, key_of),
    {
        let r1 = r0.insert(x, ne);
        assert forall|k: K, y: usize|
            g0.contains_key(k) && #[trigger] g0[k].contains(y) implies r1.contains_key(y) && key_of(
            r1[y],
        ) == k by {
            assert(r0.contains_key(y));
        }
        assert forall|y: usize| #[trigger] r1.contains_key(y) implies g0.contains_key(
            key_of(r1[y]),
        ) && g0[key_of(r1[y])].contains(y) by {
            assert(r0.contains_key(y));
        }
    }

    /// Inserts the record, after checking every unique index: on a
    /// uniqueness violation nothing at all is changed and the violated
    /// field's error is returned; otherwise the record is stored at a fresh
    /// slot and entered in all four indices in one step.
    pub fn try_insert(&mut self, elem: Order) -> (r: Result<(), UniqueViolation>)
        requires
            old(self).wf(),
        ensures
            final (self).wf(),
            match r {
                Ok(()) => {
                    &&& !old(self).has_id(elem.id)
                    &&& !old(self).has_timestamp(elem.timestamp)
                    &&& exists|x: usize|
                        !old(self).recs().contains_key(x) && final (self).recs() == old(
                            self,
                        ).recs().insert(x, elem)
                },
                Err(e) => {
                    &&& final (self).recs() == old(self).recs()
                    &&& match e {
                        UniqueViolation::Id => old(self).has_id(elem.id),
                        UniqueViolation::Timestamp => !old(self).has_id(elem.id) && old(
                            self,
                        ).has_timestamp(elem.timestamp),
                    }
                },
            },
    {
        proof {
            Self::lemma_unique_key_meaning(
                self.recs(),
                self.id_keys(),
                |o: Order| o.id,
                elem.id,
            );
            Self::lemma_unique_key_meaning(
                self.recs(),
                self.timestamp_keys(),
                |o: Order| o.timestamp,
                elem.timestamp,
            );
        }
        if crate::hashed::id_map_get(&self.id_index, &elem.id).is_some() {
            return Err(UniqueViolation::Id);
        }
        if self.timestamp_index.contains_key(&elem.timestamp) {
            return Err(UniqueViolation::Timestamp);
        }
        let ghost r0 = self.recs();
        let id_k = elem.id;
        let ts_k = elem.timestamp;
        let pr_k = elem.priority;
        let tr_k = elem.trader.clone();
        let x = crate::store::slab_insert(&mut self.store, elem);
        proof {
            assert(self.recs().dom() =~= r0.dom().insert(x));
            Self::lemma_unique_insert(r0, old(self).id_keys(), |o: Order| o.id, x, elem);
            Self::lemma_unique_insert(
                r0,
                old(self).timestamp_keys(),
                |o: Order| o.timestamp,
                x,
                elem,
            );
        }
        crate::hashed::id_map_insert(&mut self.id_index, id_k, x);
        self.timestamp_index.insert(ts_k, x);
        let mut g: BTreeSet<usize> = match crate::hashed::trader_map_get(&self.trader_index, &tr_k) {
            Some(s) => s.clone(),
            None => BTreeSet::new(),
        };
        g.insert(x);
        proof {
            Self::lemma_group_insert(
                r0,
                old(self).trader_keys(),
                |o: Order| o.trader@,
                x,
                elem,
                g@,
            );
        }
        crate::hashed::trader_map_insert(&mut self.trader_index, tr_k, g);
        let mut g2: BTreeSet<usize> = match self.priority_index.get(&pr_k) {
            Some(s) => s.clone(),
            None => BTreeSet::new(),
        };
        g2.insert(x);
        proof {
            Self::lemma_group_insert(
                r0,
                old(self).priority_keys(),
                |o: Order| o.priority,
                x,
                elem,
                g2@,
            );
            Self::lemma_group_view_insert(self.priority_index@, pr_k, g2);
        }
        self.priority_index.insert(pr_k, g2);
        proof {
            Self::lemma_group_view_insert(old(self).priority_index@, pr_k, g2);
            assert(!r0.contains_key(x) && self.recs() == r0.insert(x, elem));
        }
        Ok(())
    }

    /// Inserts a record whose unique keys are known to be fresh: it is
    /// stored at a fresh slot and entered in all four indices in one step.
    pub fn insert(&mut self, elem: Order)
        requires
            old(self).wf(),
            !old(self).has_id(elem.id),
            !old(self).has_timestamp(elem.timestamp),
        ensures
            final (self).wf(),
            exists|x: usize|
                !old(self).recs().contains_key(x) && final (self).recs() == old(
                    self,
                ).recs().insert(x, elem),
    {
        match self.try_insert(elem) {
            Ok(()) => (),
            Err(_) => vstd::pervasive::unreached(),
        }
    }

    /// Removes the record bearing this `id`, if any, from the store and
    /// from every index in one step, and returns it.
    pub fn remove_by_id(&mut self, k: &u64) -> (r: Option<Order>)
        requires
            old(self).wf(),
        ensures
            final (self).wf(),
            match r {
                Some(o) => {
                    &&& o.id == *k
                    &&& !final (self).has_id(*k)
                    &&& exists|x: usize|
                        {
                            &&& #[trigger] old(self).recs().contains_key(x)
                            &&& old(self).recs()[x] == o
                            &&& final (self).recs() == old(self).recs().remove(x)
                        }
                },
                None => !old(self).has_id(*k) && final (self).recs() == old(self).recs(),
            },
    {
        proof {
            Self::lemma_unique_key_meaning(self.recs(), self.id_keys(), |o: Order| o.id, *k);
        }
        match crate::hashed::id_map_remove(&mut self.id_index, k) {
            None => {
                proof {
                    assert(self.id_index@ =~= old(self).id_index@);
                }
                None
            },
            Some(x) => {
                let ghost r0 = old(self).recs();
                proof {
                    assert(r0.contains_key(x) && r0[x].id == *k);
                    Self::lemma_unique_remove(r0, old(self).id_keys(), |o: Order| o.id, x);
                    Self::lemma_unique_remove(
                        r0,
                        old(self).timestamp_keys(),
                        |o: Order| o.timestamp,
                        x,
                    );
                    Self::lemma_group_remove(r0, old(self).trader_keys(), |o: Order| o.trader@, x);
                    Self::lemma_group_remove(
                        r0,
                        old(self).priority_keys(),
                        |o: Order| o.priority,
                        x,
                    );
                }
                let o = crate::store::slab_remove(&mut self.store, x);
                self.timestamp_index.remove(&o.timestamp);
                group_remove_trader(&mut self.trader_index, &o.trader, x);
                group_remove_priority(&mut self.priority_index, o.priority, x);
                proof {
                    assert forall|y: usize| #[trigger]
                        self.recs().contains_key(y) implies self.recs()[y].id != *k by {
                        assert(r0.contains_key(y));
                        if r0[y].id == *k {
                            assert(old(self).id_keys()[*k] == y);
                        }
                    }
                }
                Some(o)
            },
        }
    }

    /// Removes the record bearing this `timestamp`, if any, from the store
    /// and from every index in one step, and returns it.
    pub fn remove_by_timestamp(&mut self, k: &u64) -> (r: Option<Order>)
        requires
            old(self).wf(),
        ensures
            final (self).wf(),
            match r {
                Some(o) => {
                    &&& o.timestamp == *k
                    &&& !final (self).has_timestamp(*k)
                    &&& exists|x: usize|
                        {
                            &&& #[trigger] old(self).recs().contains_key(x)
                            &&& old(self).recs()[x] == o
                            &&& final (self).recs() == old(self).recs().remove(x)
                        }
                },
                None => !old(self).has_timestamp(*k) && final (self).recs() == old(self).recs(),
            },
    {
        proof {
            Self::lemma_unique_key_meaning(
                self.recs(),
                self.timestamp_keys(),
                |o: Order| o.timestamp,
                *k,
            );
        }
        match self.timestamp_index.remove(k) {
            None => {
                proof {
                    assert(self.timestamp_index@ =~= old(self).timestamp_index@);
                }
                None
            },
            Some(x) => {
                let ghost r0 = old(self).recs();
                proof {
                    assert(r0.contains_key(x) && r0[x].timestamp == *k);
                    Self::lemma_unique_remove(r0, old(self).id_keys(), |o: Order| o.id, x);
                    Self::lemma_unique_remove(
                        r0,
                        old(self).timestamp_keys(),
                        |o: Order| o.timestamp,
                        x,
                    );
                    Self::lemma_group_remove(r0, old(self).trader_keys(), |o: Order| o.trader@, x);
                    Self::lemma_group_remove(
                        r0,
                        old(self).priority_keys(),
                        |o: Order| o.priority,
                        x,
                    );
                }
                let o = crate::store::slab_remove(&mut self.store, x);
                crate::hashed::id_map_remove(&mut self.id_index, &o.id);
                group_remove_trader(&mut self.trader_index, &o.trader, x);
                group_remove_priority(&mut self.priority_index, o.priority, x);
                proof {
                    assert forall|y: usize| #[trigger]
                        self.recs().contains_key(y) implies self.recs()[y].timestamp != *k by {
                        assert(r0.contains_key(y));
                        if r0[y].timestamp == *k {
                            assert(old(self).timestamp_keys()[*k] == y);
                        }
                    }
                }
                Some(o)
            },
        }
    }

    /// Taking one more slot of `all` shifts membership of the taken prefix
    /// by exactly that slot.
    proof fn lemma_take_step(all: Seq<usize>, i: int, y: usize)
        requires
            0 <= i < all.len(),
        ensures
            all.take(i + 1).contains(y) <==> all.take(i).contains(y) || y == all[i],
    {
        if all.take(i + 1).contains(y) {
            let j = choose|j: int| 0 <= j < all.take(i + 1).len() && #[trigger] all.take(i + 1)[j] == y;
            if j < i {
                assert(all.take(i)[j] == y);
            }
        }
        if all.take(i).contains(y) {
            let j = choose|j: int| 0 <= j < all.take(i).len() && #[trigger] all.take(i)[j] == y;
            assert(all.take(i + 1)[j] == y);
        }
        if y == all[i] {
            assert(all.take(i + 1)[i] == y);
        }
    }

    /// Replaces the record bearing `id` `*key` with `new_elem`, reindexing
    /// every indexed field whose key changed, after checking the changed
    /// unique keys against every other record: on a uniqueness violation
    /// nothing at all is changed and the violated field's error is
    /// returned. `Ok(false)` reports an absent key, on which nothing
    /// changes either.
    pub fn try_modify_by_id(&mut self, key: &u64, new_elem: Order) -> (r: Result<
        bool,
        UniqueViolation,
    >)
        requires
            old(self).wf(),
        ensures
            final (self).wf(),
            match r {
                Ok(true) => exists|x: usize|
                    {
                        &&& #[trigger] old(self).recs().contains_key(x)
                        &&& old(self).recs()[x].id == *key
                        &&& final (self).recs() == old(self).recs().insert(x, new_elem)
                    },
                Ok(false) => !old(self).has_id(*key) && final (self).recs() == old(self).recs(),
                Err(e) => {
                    &&& final (self).recs() == old(self).recs()
                    &&& exists|x: usize|
                        {
                            &&& #[trigger] old(self).recs().contains_key(x)
                            &&& old(self).recs()[x].id == *key
                            &&& match e {
                                UniqueViolation::Id => new_elem.id != old(self).recs()[x].id && old(
                                    self,
                                ).has_id(new_elem.id),
                                UniqueViolation::Timestamp => {
                                    &&& !(new_elem.id != old(self).recs()[x].id && old(
                                        self,
                                    ).has_id(new_elem.id))
                                    &&& new_elem.timestamp != old(self).recs()[x].timestamp
                                    &&& old(self).has_timestamp(new_elem.timestamp)
                                },
                            }
                        }
                },
            },
    {
        proof {
            Self::lemma_unique_key_meaning(self.recs(), self.id_keys(), |o: Order| o.id, *key);
            Self::lemma_unique_key_meaning(
                self.recs(),
                self.id_keys(),
                |o: Order| o.id,
                new_elem.id,
            );
            Self::lemma_unique_key_meaning(
                self.recs(),
                self.timestamp_keys(),
                |o: Order| o.timestamp,
                new_elem.timestamp,
            );
        }
        let x = match crate::hashed::id_map_get(&self.id_index, key) {
            Some(x) => x,
            None => {
                return Ok(false);
            },
        };
        let (old_id, old_ts, old_pr, old_tr): (u64, u64, u64, String) = match crate::store::slab_get(
            &self.store,
            x,
        ) {
            Some(o) => (o.id, o.timestamp, o.priority, o.trader.clone()),
            None => vstd::pervasive::unreached(),
        };
        let id_change = new_elem.id != old_id;
        let ts_change = new_elem.timestamp != old_ts;
        if id_change && crate::hashed::id_map_get(&self.id_index, &new_elem.id).is_some() {
            return Err(UniqueViolation::Id);
        }
        if ts_change && self.timestamp_index.contains_key(&new_elem.timestamp) {
            return Err(UniqueViolation::Timestamp);
        }
        let ghost r0 = old(self).recs();
        let ghost ne = new_elem;
        let tr_change = !(new_elem.trader == old_tr);
        let pr_change = new_elem.priority != old_pr;
        let new_id = new_elem.id;
        let new_ts = new_elem.timestamp;
        let new_pr = new_elem.priority;
        let new_tr = new_elem.trader.clone();
        crate::store::slab_replace(&mut self.store, x, new_elem);
        proof {
            if id_change {
                Self::lemma_unique_remove(r0, old(self).id_keys(), |o: Order| o.id, x);
                Self::lemma_unique_insert(
                    r0.remove(x),
                    old(self).id_keys().remove(old_id),
                    |o: Order| o.id,
                    x,
                    ne,
                );
            } else {
                Self::lemma_unique_replace_same(r0, old(self).id_keys(), |o: Order| o.id, x, ne);
            }
            if ts_change {
                Self::lemma_unique_remove(r0, old(self).timestamp_keys(), |o: Order| o.timestamp, x);
                Self::lemma_unique_insert(
                    r0.remove(x),
                    old(self).timestamp_keys().remove(old_ts),
                    |o: Order| o.timestamp,
                    x,
                    ne,
                );
            } else {
                Self::lemma_unique_replace_same(
                    r0,
                    old(self).timestamp_keys(),
                    |o: Order| o.timestamp,
                    x,
                    ne,
                );
            }
            assert(r0.remove(x).insert(x, ne) =~= r0.insert(x, ne));
        }
        if id_change {
            crate::hashed::id_map_remove(&mut self.id_index, &old_id);
            crate::hashed::id_map_insert(&mut self.id_index, new_id, x);
        }
        if ts_change {
            self.timestamp_index.remove(&old_ts);
            self.timestamp_index.insert(new_ts, x);
        }
        if tr_change {
            proof {
                Self::lemma_group_remove(r0, self.trader_keys(), |o: Order| o.trader@, x);
            }
            group_remove_trader(&mut self.trader_index, &old_tr, x);
            proof {
                Self::lemma_group_insert(
                    r0.remove(x),
                    self.trader_keys(),
                    |o: Order| o.trader@,
                    x,
                    ne,
                    if self.trader_keys().contains_key(ne.trader@) {
                        self.trader_keys()[ne.trader@].insert(x)
                    } else {
                        Set::<usize>::empty().insert(x)
                    },
                );
            }
            group_add_trader(&mut self.trader_index, &new_tr, x);
        } else {
            proof {
                Self::lemma_group_replace_same(r0, self.trader_keys(), |o: Order| o.trader@, x, ne);
            }
        }
        if pr_change {
            proof {
                Self::lemma_group_remove(r0, self.priority_keys(), |o: Order| o.priority, x);
            }
            group_remove_priority(&mut self.priority_index, old_pr, x);
            proof {
                Self::lemma_group_insert(
                    r0.remove(x),
                    self.priority_keys(),
                    |o: Order| o.priority,
                    x,
                    ne,
                    if self.priority_keys().contains_key(ne.priority) {
                        self.priority_keys()[ne.priority].insert(x)
                    } else {
                        Set::<usize>::empty().insert(x)
                    },
                );
            }
            group_add_priority(&mut self.priority_index, new_pr, x);
        } else {
            proof {
                Self::lemma_group_replace_same(
                    r0,
                    self.priority_keys(),
                    |o: Order| o.priority,
                    x,
                    ne,
                );
            }
        }
        proof {
            assert(self.recs().dom() =~= r0.dom().insert(x));
        }
        Ok(true)
    }

    /// Replaces the record bearing `id` `*key` with `new_elem`, whose
    /// changed unique keys are known to collide with no other record.
    pub fn modify_by_id(&mut self, key: &u64, new_elem: Order) -> (r: bool)
        requires
            old(self).wf(),
            old(self).has_id(new_elem.id) ==> exists|x: usize| #[trigger]
                old(self).recs().contains_key(x) && old(self).recs()[x].id == *key && old(
                    self,
                ).recs()[x].id == new_elem.id,
            old(self).has_timestamp(new_elem.timestamp) ==> exists|x: usize| #[trigger]
                old(self).recs().contains_key(x) && old(self).recs()[x].id == *key && old(
                    self,
                ).recs()[x].timestamp == new_elem.timestamp,
        ensures
            final (self).wf(),
            r ==> exists|x: usize|
                {
                    &&& #[trigger] old(self).recs().contains_key(x)
                    &&& old(self).recs()[x].id == *key
                    &&& final (self).recs() == old(self).recs().insert(x, new_elem)
                },
            !r ==> !old(self).has_id(*key) && final (self).recs() == old(self).recs(),
    {
        proof {
            Self::lemma_unique_key_meaning(self.recs(), self.id_keys(), |o: Order| o.id, *key);
            Self::lemma_unique_key_meaning(
                self.recs(),
                self.id_keys(),
                |o: Order| o.id,
                new_elem.id,
            );
            Self::lemma_unique_key_meaning(
                self.recs(),
                self.timestamp_keys(),
                |o: Order| o.timestamp,
                new_elem.timestamp,
            );
        }
        match self.try_modify_by_id(key, new_elem) {
            Ok(found) => found,
            Err(_) => vstd::pervasive::unreached(),
        }
    }

    /// Replaces the record bearing `timestamp` `*key` with `new_elem`, as
    /// [`OrderMap::try_modify_by_id`] does through the other unique index.
    pub fn try_modify_by_timestamp(&mut self, key: &u64, new_elem: Order) -> (r: Result<
        bool,
        UniqueViolation,
    >)
        requires
            old(self).wf(),
        ensures
            final (self).wf(),
            match r {
                Ok(true) => exists|x: usize|
                    {
                        &&& #[trigger] old(self).recs().contains_key(x)
                        &&& old(self).recs()[x].timestamp == *key
                        &&& final (self).recs() == old(self).recs().insert(x, new_elem)
                    },
                Ok(false) => !old(self).has_timestamp(*key) && final (self).recs() == old(
                    self,
                ).recs(),
                Err(e) => {
                    &&& final (self).recs() == old(self).recs()
                    &&& exists|x: usize|
                        {
                            &&& #[trigger] old(self).recs().contains_key(x)
                            &&& old(self).recs()[x].timestamp == *key
                            &&& match e {
                                UniqueViolation::Id => new_elem.id != old(self).recs()[x].id && old(
                                    self,
                                ).has_id(new_elem.id),
                                UniqueViolation::Timestamp => {
                                    &&& !(new_elem.id != old(self).recs()[x].id && old(
                                        self,
                                    ).has_id(new_elem.id))
                                    &&& new_elem.timestamp != old(self).recs()[x].timestamp
                                    &&& old(self).has_timestamp(new_elem.timestamp)
                                },
                            }
                        }
                },
            },
    {
        let id = match self.get_by_timestamp(key) {
            Some(o) => o.id,
            None => {
                return Ok(false);
            },
        };
        proof {
            crate::laws::lemma_unique_keys(*self);
        }
        let r = self.try_modify_by_id(&id, new_elem);
        proof {
            if r is Ok && r->Ok_0 == false {
                assert(old(self).has_id(id));
                assert(false);
            }
        }
        r
    }

    /// Sets the `note` of the record bearing `id` `*key`, if any: the one
    /// operation a caller needs for a field no index feeds, and it touches
    /// no index at all.
    pub fn update_by_id(&mut self, key: &u64, note: String) -> (r: bool)
        requires
            old(self).wf(),
        ensures
            final (self).wf(),
            r ==> exists|x: usize|
                {
                    &&& #[trigger] old(self).recs().contains_key(x)
                    &&& old(self).recs()[x].id == *key
                    &&& final (self).recs() == old(self).recs().insert(x, final (self).recs()[x])
                    &&& final (self).recs()[x].id == old(self).recs()[x].id
                    &&& final (self).recs()[x].timestamp == old(self).recs()[x].timestamp
                    &&& final (self).recs()[x].trader@ == old(self).recs()[x].trader@
                    &&& final (self).recs()[x].priority == old(self).recs()[x].priority
                    &&& final (self).recs()[x].note@ == note@
                },
            !r ==> !old(self).has_id(*key) && final (self).recs() == old(self).recs(),
            final (self).id_keys() == old(self).id_keys(),
            final (self).timestamp_keys() == old(self).timestamp_keys(),
            final (self).trader_keys() == old(self).trader_keys(),
            final (self).priority_keys() == old(self).priority_keys(),
    {
        proof {
            Self::lemma_unique_key_meaning(self.recs(), self.id_keys(), |o: Order| o.id, *key);
        }
        let x = match crate::hashed::id_map_get(&self.id_index, key) {
            Some(x) => x,
            None => {
                return false;
            },
        };
        let (old_id, old_ts, old_pr, old_tr): (u64, u64, u64, String) = match crate::store::slab_get(
            &self.store,
            x,
        ) {
            Some(o) => (o.id, o.timestamp, o.priority, o.trader.clone()),
            None => vstd::pervasive::unreached(),
        };
        let ghost r0 = old(self).recs();
        let ne = Order { id: old_id, timestamp: old_ts, trader: old_tr, priority: old_pr, note };
        proof {
            Self::lemma_unique_replace_same(r0, old(self).id_keys(), |o: Order| o.id, x, ne);
            Self::lemma_unique_replace_same(
                r0,
                old(self).timestamp_keys(),
                |o: Order| o.timestamp,
                x,
                ne,
            );
            Self::lemma_group_replace_same(r0, old(self).trader_keys(), |o: Order| o.trader@, x, ne);
            Self::lemma_group_replace_same(
                r0,
                old(self).priority_keys(),
                |o: Order| o.priority,
                x,
                ne,
            );
        }
        crate::store::slab_replace(&mut self.store, x, ne);
        proof {
            assert(self.recs().dom() =~= r0.dom().insert(x));
            assert(self.recs() == r0.insert(x, self.recs()[x]));
        }
        true
    }

    /// Removes every record bearing this `trader` key, in ascending slot-id
    /// order, from the store and from every index in one step, and returns
    /// them; afterwards the key is absent. An absent key removes nothing.
    pub fn remove_by_trader(&mut self, k: &String) -> (r: Vec<Order>)
        requires
            old(self).wf(),
        ensures
            final (self).wf(),
            exists|slots: Seq<usize>|
                {
                    &&& Self::ascending(slots)
                    &&& slots.to_set() == old(self).trader_slots(k@)
                    &&& r@.len() == slots.len()
                    &&& forall|i: int|
                        0 <= i < slots.len() ==> old(self).recs().contains_key(#[trigger] slots[i])
                            && r@[i] == old(self).recs()[slots[i]]
                    &&& final (self).recs() == old(self).recs().remove_keys(slots.to_set())
                },
            forall|y: usize| #[trigger]
                final (self).recs().contains_key(y) ==> final (self).recs()[y].trader@ != k@,
    {
        proof {
            Self::lemma_group_key_meaning(
                self.recs(),
                self.trader_keys(),
                |o: Order| o.trader@,
                k@,
            );
        }
        let ghost r0 = old(self).recs();
        let mut out: Vec<Order> = Vec::new();
        match crate::hashed::trader_map_remove(&mut self.trader_index, k) {
            None => {
                proof {
                    assert(self.trader_keys() =~= old(self).trader_keys());
                    assert(Seq::<usize>::empty().to_set() =~= old(self).trader_slots(k@));
                    assert(r0.remove_keys(Seq::<usize>::empty().to_set()) =~= r0);
                }
                out
            },
            Some(group) => {
                let slots = crate::ordered::set_slots(&group);
                let ghost all = slots@;
                proof {
                    assert(all.to_set() =~= old(self).trader_slots(k@));
                    Self::lemma_group_detach(r0, old(self).trader_keys(), |o: Order| o.trader@, k@);
                    assert(self.recs() =~= Self::removed_upto(r0, all, 0));
                }
                let n = slots.len();
                let mut i: usize = 0;
                while i < n
                    invariant
                        i <= n,
                        n == all.len(),
                        slots@ == all,
                        Self::ascending(all),
                        forall|j: int|
                            0 <= j < all.len() ==> r0.contains_key(#[trigger] all[j])
                                && r0[all[j]].trader@ == k@,
                        self.recs() == Self::removed_upto(r0, all, i as int),
                        self.recs().dom().finite(),
                        Self::unique_index_ok(self.recs(), self.id_keys(), |o: Order| o.id),
                        Self::unique_index_ok(
                            self.recs(),
                            self.timestamp_keys(),
                            |o: Order| o.timestamp,
                        ),
                        Self::group_index_ok(
                            self.recs(),
                            self.priority_keys(),
                            |o: Order| o.priority,
                        ),
                        Self::group_index_detached(
                            self.recs(),
                            self.trader_keys(),
                            |o: Order| o.trader@,
                            k@,
                        ),
                        out@.len() == i,
                        forall|j: int| 0 <= j < i ==> #[trigger] out@[j] == r0[all[j]],
                    decreases n - i,
                {
                    let x = slots[i];
                    let ghost rc = self.recs();
                    proof {
                        if all.take(i as int).contains(x) {
                            let j = choose|j: int|
                                0 <= j < all.take(i as int).len() && #[trigger] all.take(
                                    i as int,
                                )[j] == x;
                            assert(all[j] == all[i as int]);
                        }
                        assert(rc.contains_key(x));
                        assert(rc[x] == r0[x]);
                        Self::lemma_unique_remove(rc, self.id_keys(), |o: Order| o.id, x);
                        Self::lemma_unique_remove(
                            rc,
                            self.timestamp_keys(),
                            |o: Order| o.timestamp,
                            x,
                        );
                        Self::lemma_group_remove(
                            rc,
                            self.priority_keys(),
                            |o: Order| o.priority,
                            x,
                        );
                        Self::lemma_group_detached_step(
                            rc,
                            self.trader_keys(),
                            |o: Order| o.trader@,
                            k@,
                            x,
                        );
                    }
                    let o = crate::store::slab_remove(&mut self.store, x);
                    crate::hashed::id_map_remove(&mut self.id_index, &o.id);
                    self.timestamp_index.remove(&o.timestamp);
                    group_remove_priority(&mut self.priority_index, o.priority, x);
                    out.push(o);
                    proof {
                        assert forall|y: usize|
                            Self::removed_upto(r0, all, i + 1 as int).contains_key(y)
                                == #[trigger] rc.remove(x).contains_key(y) by {
                            Self::lemma_take_step(all, i as int, y);
                        }
                        assert(self.recs() =~= Self::removed_upto(r0, all, i + 1 as int));
                        assert(self.recs().dom() =~= rc.dom().remove(x));
                    }
                    i += 1;
                }
                proof {
                    assert forall|y: usize| #[trigger]
                        self.recs().contains_key(y) implies self.recs()[y].trader@ != k@ by {
                        if r0[y].trader@ == k@ {
                            assert(all.to_set().contains(y));
                            assert(all.contains(y));
                            assert(all.take(n as int) =~= all);
                        }
                    }
                    Self::lemma_group_reattach(
                        self.recs(),
                        self.trader_keys(),
                        |o: Order| o.trader@,
                        k@,
                    );
                    assert(self.recs() =~= r0.remove_keys(all.to_set())) by {
                        assert(all.take(n as int) =~= all);
                    }
                }
                out
            },
        }
    }

    /// Removes every record bearing this `priority` key, in ascending
    /// slot-id order, from the store and from every index in one step, and
    /// returns them; afterwards the key is absent. An absent key removes
    /// nothing.
    pub fn remove_by_priority(&mut self, k: &u64) -> (r: Vec<Order>)
        requires
            old(self).wf(),
        ensures
            final (self).wf(),
            exists|slots: Seq<usize>|
                {
                    &&& Self::ascending(slots)
                    &&& slots.to_set() == old(self).priority_slots(*k)
                    &&& r@.len() == slots.len()
                    &&& forall|i: int|
                        0 <= i < slots.len() ==> old(self).recs().contains_key(#[trigger] slots[i])
                            && r@[i] == old(self).recs()[slots[i]]
                    &&& final (self).recs() == old(self).recs().remove_keys(slots.to_set())
                },
            forall|y: usize| #[trigger]
                final (self).recs().contains_key(y) ==> final (self).recs()[y].priority != *k,
    {
        proof {
            Self::lemma_group_key_meaning(
                self.recs(),
                self.priority_keys(),
                |o: Order| o.priority,
                *k,
            );
        }
        let ghost r0 = old(self).recs();
        let mut out: Vec<Order> = Vec::new();
        match self.priority_index.remove(k) {
            None => {
                proof {
                    assert(self.priority_index@ =~= old(self).priority_index@);
                    assert(Seq::<usize>::empty().to_set() =~= old(self).priority_slots(*k));
                    assert(r0.remove_keys(Seq::<usize>::empty().to_set()) =~= r0);
                }
                out
            },
            Some(group) => {
                proof {
                    assert(old(self).priority_keys().contains_key(*k));
                    assert(group@ == old(self).priority_keys()[*k]);
                }
                let slots = crate::ordered::set_slots(&group);
                let ghost all = slots@;
                proof {
                    assert(all.to_set() =~= old(self).priority_slots(*k));
                    Self::lemma_group_view_remove(old(self).priority_index@, *k);
                    assert(self.priority_keys() =~= old(self).priority_keys().remove(*k));
                    Self::lemma_group_detach(
                        r0,
                        old(self).priority_keys(),
                        |o: Order| o.priority,
                        *k,
                    );
                    assert(self.recs() =~= Self::removed_upto(r0, all, 0));
                }
                let n = slots.len();
                let mut i: usize = 0;
                while i < n
                    invariant
                        i <= n,
                        n == all.len(),
                        slots@ == all,
                        Self::ascending(all),
                        forall|j: int|
                            0 <= j < all.len() ==> r0.contains_key(#[trigger] all[j])
                                && r0[all[j]].priority == *k,
                        self.recs() == Self::removed_upto(r0, all, i as int),
                        self.recs().dom().finite(),
                        Self::unique_index_ok(self.recs(), self.id_keys(), |o: Order| o.id),
                        Self::unique_index_ok(
                            self.recs(),
                            self.timestamp_keys(),
                            |o: Order| o.timestamp,
                        ),
                        Self::group_index_ok(
                            self.recs(),
                            self.trader_keys(),
                            |o: Order| o.trader@,
                        ),
                        Self::group_index_detached(
                            self.recs(),
                            self.priority_keys(),
                            |o: Order| o.priority,
                            *k,
                        ),
                        out@.len() == i,
                        forall|j: int| 0 <= j < i ==> #[trigger] out@[j] == r0[all[j]],
                    decreases n - i,
                {
                    let x = slots[i];
                    let ghost rc = self.recs();
                    proof {
                        if all.take(i as int).contains(x) {
                            let j = choose|j: int|
                                0 <= j < all.take(i as int).len() && #[trigger] all.take(
                                    i as int,
                                )[j] == x;
                            assert(all[j] == all[i as int]);
                        }
                        assert(rc.contains_key(x));
                        assert(rc[x] == r0[x]);
                        Self::lemma_unique_remove(rc, self.id_keys(), |o: Order| o.id, x);
                        Self::lemma_unique_remove(
                            rc,
                            self.timestamp_keys(),
                            |o: Order| o.timestamp,
                            x,
                        );
                        Self::lemma_group_remove(rc, self.trader_keys(), |o: Order| o.trader@, x);
                        Self::lemma_group_detached_step(
                            rc,
                            self.priority_keys(),
                            |o: Order| o.priority,
                            *k,
                            x,
                        );
                    }
                    let o = crate::store::slab_remove(&mut self.store, x);
                    crate::hashed::id_map_remove(&mut self.id_index, &o.id);
                    self.timestamp_index.remove(&o.timestamp);
                    group_remove_trader(&mut self.trader_index, &o.trader, x);
                    out.push(o);
                    proof {
                        assert forall|y: usize|
                            Self::removed_upto(r0, all, i + 1 as int).contains_key(y)
                                == #[trigger] rc.remove(x).contains_key(y) by {
                            Self::lemma_take_step(all, i as int, y);
                        }
                        assert(self.recs() =~= Self::removed_upto(r0, all, i + 1 as int));
                        assert(self.recs().dom() =~= rc.dom().remove(x));
                    }
                    i += 1;
                }
                proof {
                    assert forall|y: usize| #[trigger]
                        self.recs().contains_key(y) implies self.recs()[y].priority != *k by {
                        if r0[y].priority == *k {
                            assert(all.to_set().contains(y));
                            assert(all.contains(y));
                            assert(all.take(n as int) =~= all);
                        }
                    }
                    Self::lemma_group_reattach(
                        self.recs(),
                        self.priority_keys(),
                        |o: Order| o.priority,
                        *k,
                    );
                    assert(self.recs() =~= r0.remove_keys(all.to_set())) by {
                        assert(all.take(n as int) =~= all);
                    }
                }
                out
            },
        }
    }

    /// The record bearing this `id`, if any.
    pub fn get_by_id<'a>(&'a self, k: &u64) -> (r: Option<&'a Order>)
        requires
            self.wf(),
        ensures
            match r {
                Some(o) => o.id == *k && exists|x: usize| #[trigger]
                    self.recs().contains_key(x) && self.recs()[x] == *o,
                None => !self.has_id(*k),
            },
    {
        match crate::hashed::id_map_get(&self.id_index, k) {
            Some(x) => {
                proof {
                    Self::lemma_unique_key_meaning(
                        self.recs(),
                        self.id_keys(),
                        |o: Order| o.id,
                        *k,
                    );
                }
                match crate::store::slab_get(&self.store, x) {
                    Some(o) => Some(o),
                    None => vstd::pervasive::unreached(),
                }
            },
            None => {
                proof {
                    Self::lemma_unique_key_meaning(
                        self.recs(),
                        self.id_keys(),
                        |o: Order| o.id,
                        *k,
                    );
                }
                None
            },
        }
    }

    /// The record bearing this `timestamp`, if any.
    pub fn get_by_timestamp<'a>(&'a self, k: &u64) -> (r: Option<&'a Order>)
        requires
            self.wf(),
        ensures
            match r {
                Some(o) => o.timestamp == *k && exists|x: usize| #[trigger]
                    self.recs().contains_key(x) && self.recs()[x] == *o,
                None => !self.has_timestamp(*k),
            },
    {
        proof {
            Self::lemma_unique_key_meaning(
                self.recs(),
                self.timestamp_keys(),
                |o: Order| o.timestamp,
                *k,
            );
        }
        match self.timestamp_index.get(k) {
            Some(xr) => match crate::store::slab_get(&self.store, *xr) {
                Some(o) => Some(o),
                None => vstd::pervasive::unreached(),
            },
            None => None,
        }
    }

    /// The records bearing this `trader` key, in ascending slot-id order;
    /// empty if the key is absent.
    pub fn get_by_trader<'a>(&'a self, k: &String) -> (r: Vec<&'a Order>)
        requires
            self.wf(),
        ensures
            exists|slots: Seq<usize>|
                {
                    &&& Self::ascending(slots)
                    &&& slots.to_set() == self.trader_slots(k@)
                    &&& self.lists_records(slots, r@)
                },
    {
        proof {
            Self::lemma_group_key_meaning(
                self.recs(),
                self.trader_keys(),
                |o: Order| o.trader@,
                k@,
            );
        }
        let mut out: Vec<&'a Order> = Vec::new();
        match crate::hashed::trader_map_get(&self.trader_index, k) {
            None => {
                proof {
                    assert(Seq::<usize>::empty().to_set() =~= self.trader_slots(k@));
                    assert(self.lists_records(Seq::<usize>::empty(), out@));
                }
                out
            },
            Some(group) => {
                let slots = crate::ordered::set_slots(group);
                let ghost all: Seq<usize> = slots@;
                proof {
                    assert(slots@.to_set() =~= self.trader_slots(k@));
                }
                let n = slots.len();
                let mut i: usize = 0;
                while i < n
                    invariant
                        n == all.len(),
                        i <= n,
                        slots@ == all,
                        self.wf(),
                        forall|j: int|
                            0 <= j < all.len() ==> self.recs().contains_key(#[trigger] all[j]),
                        out@.len() == i,
                        forall|j: int|
                            0 <= j < i ==> *(#[trigger] out@[j]) == self.recs()[all[j]],
                    decreases n - i,
                {
                    let x = slots[i];
                    match crate::store::slab_get(&self.store, x) {
                        Some(o) => out.push(o),
                        None => vstd::pervasive::unreached(),
                    }
                    i += 1;
                }
                proof {
                    assert(self.lists_records(all, out@));
                }
                out
            },
        }
    }

    /// The records bearing this `priority` key, in ascending slot-id order;
    /// empty if the key is absent.
    pub fn get_by_priority<'a>(&'a self, k: &u64) -> (r: Vec<&'a Order>)
        requires
            self.wf(),
        ensures
            exists|slots: Seq<usize>|
                {
                    &&& Self::ascending(slots)
                    &&& slots.to_set() == self.priority_slots(*k)
                    &&& self.lists_records(slots, r@)
                },
    {
        proof {
            Self::lemma_group_key_meaning(
                self.recs(),
                self.priority_keys(),
                |o: Order| o.priority,
                *k,
            );
        }
        let mut out: Vec<&'a Order> = Vec::new();
        match self.priority_index.get(k) {
            None => {
                proof {
                    assert(!self.priority_keys().contains_key(*k));
                    assert(Seq::<usize>::empty().to_set() =~= self.priority_slots(*k));
                    assert(self.lists_records(Seq::<usize>::empty(), out@));
                }
                out
            },
            Some(group) => {
                proof {
                    assert(self.priority_keys().contains_key(*k));
                    assert(self.priority_keys()[*k] == group@);
                }
                let slots = crate::ordered::set_slots(group);
                let ghost all: Seq<usize> = slots@;
                proof {
                    assert(slots@.to_set() =~= self.priority_slots(*k));
                }
                let n = slots.len();
                let mut i: usize = 0;
                while i < n
                    invariant
                        n == all.len(),
                        i <= n,
                        slots@ == all,
                        self.wf(),
                        forall|j: int|
                            0 <= j < all.len() ==> self.recs().contains_key(#[trigger] all[j]),
                        out@.len() == i,
                        forall|j: int|
                            0 <= j < i ==> *(#[trigger] out@[j]) == self.recs()[all[j]],
                    decreases n - i,
                {
                    let x = slots[i];
                    match crate::store::slab_get(&self.store, x) {
                        Some(o) => out.push(o),
                        None => vstd::pervasive::unreached(),
                    }
                    i += 1;
                }
                proof {
                    assert(self.lists_records(all, out@));
                }
                out
            },
        }
    }

    /// Empties the store and every index together.
    pub fn clear(&mut self)
        ensures
            final (self).wf(),
            final (self).recs() == crate::store::no_recs(),
    {
        crate::store::slab_clear(&mut self.store);
        self.id_index.clear();
        self.timestamp_index.clear();
        crate::hashed::trader_map_clear(&mut self.trader_index);
        self.priority_index.clear();
        proof {
            assert(self.priority_keys() =~= Map::<u64, Set<usize>>::empty());
            assert(self.recs().dom() =~= Set::<usize>::empty());
        }
    }

    /// Makes room for `additional` more records in the store and in the
    /// hashed indices; no record or index entry changes. The ordered
    /// indices have nothing to reserve.
    pub fn reserve(&mut self, additional: usize)
        ensures
            final (self).recs() == old(self).recs(),
            final (self).id_keys() == old(self).id_keys(),
            final (self).timestamp_keys() == old(self).timestamp_keys(),
            final (self).trader_keys() == old(self).trader_keys(),
            final (self).priority_keys() == old(self).priority_keys(),
            old(self).wf() ==> final (self).wf(),
    {
        crate::store::slab_reserve(&mut self.store, additional);
        self.id_index.reserve(additional);
        crate::hashed::trader_map_reserve(&mut self.trader_index, additional);
    }

    /// Gives allocation back to the system in the store and the hashed
    /// indices; no record or index entry changes. The ordered indices have
    /// nothing to shrink.
    pub fn shrink_to_fit(&mut self)
        ensures
            final (self).recs() == old(self).recs(),
            final (self).id_keys() == old(self).id_keys(),
            final (self).timestamp_keys() == old(self).timestamp_keys(),
            final (self).trader_keys() == old(self).trader_keys(),
            final (self).priority_keys() == old(self).priority_keys(),
            old(self).wf() ==> final (self).wf(),
    {
        crate::store::slab_shrink_to_fit(&mut self.store);
        crate::hashed::id_map_shrink_to_fit(&mut self.id_index);
        crate::hashed::trader_map_shrink_to_fit(&mut self.trader_index);
    }

    /// How many records the store can hold without another allocation.
    /// Nothing is promised of the number: allocation is not modelled.
    pub fn capacity(&self) -> usize {
        crate::store::slab_capacity(&self.store)
    }

    /// A sequence of slots that covers a finite domain it sits inside, and
    /// is as long as the domain is large, lists the whole domain.
    proof fn lemma_cover<A>(dom: Set<A>, slots: Seq<A>)
        requires
            dom.finite(),
            slots.no_duplicates(),
            forall|i: int| 0 <= i < slots.len() ==> dom.contains(#[trigger] slots[i]),
            slots.len() == dom.len(),
        ensures
            slots.to_set() == dom,
    {
        slots.unique_seq_to_set();
        assert forall|y: A| #[trigger] slots.to_set().contains(y) implies dom.contains(y) by {
            let i = choose|i: int| 0 <= i < slots.len() && slots[i] == y;
            assert(dom.contains(slots[i]));
        }
        vstd::set_lib::lemma_subset_equality(slots.to_set(), dom);
    }

    /// Every record once, as `(slot id, record)` pairs in ascending slot-id
    /// order: the raw traversal of the store, which no index orders.
    pub fn iter<'a>(&'a self) -> (r: Vec<(usize, &'a Order)>)
        requires
            self.wf(),
        ensures
            forall|i: int, j: int| 0 <= i < j < r@.len() ==> r@[i].0 < r@[j].0,
            forall|i: int|
                0 <= i < r@.len() ==> self.recs().contains_key(#[trigger] r@[i].0) && *r@[i].1
                    == self.recs()[r@[i].0],
            forall|x: usize| #[trigger]
                self.recs().contains_key(x) ==> exists|i: int|
                    0 <= i < r@.len() && #[trigger] r@[i].0 == x,
    {
        let slots = crate::store::slab_slots(&self.store);
        let mut out: Vec<(usize, &'a Order)> = Vec::new();
        let n = slots.len();
        let mut i: usize = 0;
        while i < n
            invariant
                i <= n,
                n == slots@.len(),
                self.wf(),
                forall|j: int, l: int| 0 <= j < l < slots@.len() ==> slots@[j] < slots@[l],
                forall|j: int|
                    0 <= j < slots@.len() ==> self.recs().contains_key(#[trigger] slots@[j]),
                forall|x: usize| #[trigger]
                    self.recs().contains_key(x) ==> slots@.contains(x),
                out@.len() == i,
                forall|j: int|
                    0 <= j < i ==> (#[trigger] out@[j]).0 == slots@[j] && *out@[j].1
                        == self.recs()[slots@[j]],
            decreases n - i,
        {
            let x = slots[i];
            match crate::store::slab_get(&self.store, x) {
                Some(o) => out.push((x, o)),
                None => vstd::pervasive::unreached(),
            }
            i += 1;
        }
        proof {
            assert forall|x: usize| #[trigger] self.recs().contains_key(x) implies exists|j: int|
                0 <= j < out@.len() && #[trigger] out@[j].0 == x by {
                let j = choose|j: int| 0 <= j < slots@.len() && slots@[j] == x;
                assert(out@[j].0 == x);
            }
        }
        out
    }

    /// Every record once, in the id index's traversal order, of which
    /// nothing is promised: a hashed index orders nothing.
    pub fn iter_by_id<'a>(&'a self) -> (r: Vec<&'a Order>)
        requires
            self.wf(),
        ensures
            exists|slots: Seq<usize>|
                {
                    &&& slots.no_duplicates()
                    &&& slots.to_set() == self.recs().dom()
                    &&& self.lists_records(slots, r@)
                },
    {
        let pairs = crate::hashed::id_map_pairs(&self.id_index);
        let ghost slots = pairs@.map_values(|p: (u64, usize)| p.1);
        proof {
            assert forall|i: int, j: int| 0 <= i < j < slots.len() implies slots[i] != slots[j] by {
                assert(self.id_keys().contains_key(pairs@[i].0) && self.id_keys()[pairs@[i].0]
                    == pairs@[i].1);
                assert(self.id_keys().contains_key(pairs@[j].0) && self.id_keys()[pairs@[j].0]
                    == pairs@[j].1);
                if pairs@[i].1 == pairs@[j].1 {
                    assert(self.recs()[self.id_keys()[pairs@[i].0]].id == pairs@[i].0);
                    assert(self.recs()[self.id_keys()[pairs@[j].0]].id == pairs@[j].0);
                }
            }
            assert forall|i: int| 0 <= i < slots.len() implies self.recs().dom().contains(
                #[trigger] slots[i],
            ) by {
                assert(self.id_keys().contains_key(pairs@[i].0));
            }
            assert(self.id_keys().dom().len() == self.recs().dom().len()) by {
                Self::lemma_index_len(self.recs(), self.id_keys(), |o: Order| o.id);
            }
            Self::lemma_cover(self.recs().dom(), slots);
        }
        let mut out: Vec<&'a Order> = Vec::new();
        let n = pairs.len();
        let mut i: usize = 0;
        while i < n
            invariant
                i <= n,
                n == pairs@.len(),
                self.wf(),
                slots == pairs@.map_values(|p: (u64, usize)| p.1),
                forall|j: int|
                    0 <= j < slots.len() ==> self.recs().contains_key(#[trigger] slots[j]),
                out@.len() == i,
                forall|j: int| 0 <= j < i ==> *(#[trigger] out@[j]) == self.recs()[slots[j]],
            decreases n - i,
        {
            let x = pairs[i].1;
            proof {
                assert(slots[i as int] == pairs@[i as int].1);
            }
            match crate::store::slab_get(&self.store, x) {
                Some(o) => out.push(o),
                None => vstd::pervasive::unreached(),
            }
            i += 1;
        }
        proof {
            assert(self.lists_records(slots, out@));
        }
        out
    }

    /// Every record once, in strictly ascending `timestamp` order: the
    /// ordered-unique index's forward traversal.
    pub fn iter_by_timestamp<'a>(&'a self) -> (r: Vec<&'a Order>)
        requires
            self.wf(),
        ensures
            exists|slots: Seq<usize>|
                {
                    &&& slots.no_duplicates()
                    &&& slots.to_set() == self.recs().dom()
                    &&& self.lists_records(slots, r@)
                    &&& forall|i: int, j: int|
                        0 <= i < j < slots.len() ==> self.recs()[slots[i]].timestamp < self.recs()[slots[j]].timestamp
                },
    {
        let pairs = crate::ordered::ts_map_pairs(&self.timestamp_index);
        let ghost slots = pairs@.map_values(|p: (u64, usize)| p.1);
        proof {
            self.lemma_ts_pairs_slots(pairs@, slots);
        }
        let mut out: Vec<&'a Order> = Vec::new();
        let n = pairs.len();
        let mut i: usize = 0;
        while i < n
            invariant
                i <= n,
                n == pairs@.len(),
                self.wf(),
                slots == pairs@.map_values(|p: (u64, usize)| p.1),
                forall|j: int|
                    0 <= j < slots.len() ==> self.recs().contains_key(#[trigger] slots[j]),
                out@.len() == i,
                forall|j: int| 0 <= j < i ==> *(#[trigger] out@[j]) == self.recs()[slots[j]],
            decreases n - i,
        {
            let x = pairs[i].1;
            proof {
                assert(slots[i as int] == pairs@[i as int].1);
            }
            match crate::store::slab_get(&self.store, x) {
                Some(o) => out.push(o),
                None => vstd::pervasive::unreached(),
            }
            i += 1;
        }
        proof {
            assert(self.lists_records(slots, out@));
        }
        out
    }

    /// Every record once, in strictly descending `timestamp` order: the
    /// ordered-unique index's reverse traversal.
    pub fn iter_by_timestamp_desc<'a>(&'a self) -> (r: Vec<&'a Order>)
        requires
            self.wf(),
        ensures
            exists|slots: Seq<usize>|
                {
                    &&& slots.no_duplicates()
                    &&& slots.to_set() == self.recs().dom()
                    &&& self.lists_records(slots, r@)
                    &&& forall|i: int, j: int|
                        0 <= i < j < slots.len() ==> self.recs()[slots[i]].timestamp > self.recs()[slots[j]].timestamp
                },
    {
        let pairs = crate::ordered::ts_map_pairs(&self.timestamp_index);
        let ghost fwd = pairs@.map_values(|p: (u64, usize)| p.1);
        proof {
            self.lemma_ts_pairs_slots(pairs@, fwd);
        }
        let ghost slots = fwd.reverse();
        proof {
            assert(slots.to_set() =~= fwd.to_set()) by {
                assert forall|y: usize| #[trigger] fwd.to_set().contains(y) implies slots.to_set().contains(y) by {
                    let j = choose|j: int| 0 <= j < fwd.len() && fwd[j] == y;
                    assert(slots[fwd.len() - 1 - j] == y);
                }
                assert forall|y: usize| #[trigger] slots.to_set().contains(y) implies fwd.to_set().contains(y) by {
                    let j = choose|j: int| 0 <= j < slots.len() && slots[j] == y;
                    assert(fwd[fwd.len() - 1 - j] == y);
                }
            }
        }
        let mut out: Vec<&'a Order> = Vec::new();
        let n = pairs.len();
        let mut i: usize = 0;
        while i < n
            invariant
                i <= n,
                n == pairs@.len(),
                self.wf(),
                fwd == pairs@.map_values(|p: (u64, usize)| p.1),
                slots == fwd.reverse(),
                forall|j: int| 0 <= j < fwd.len() ==> self.recs().contains_key(#[trigger] fwd[j]),
                out@.len() == i,
                forall|j: int| 0 <= j < i ==> *(#[trigger] out@[j]) == self.recs()[slots[j]],
            decreases n - i,
        {
            let x = pairs[n - 1 - i].1;
            proof {
                assert(fwd[n - 1 - i as int] == pairs@[n - 1 - i as int].1);
                assert(slots[i as int] == fwd[n - 1 - i as int]);
            }
            match crate::store::slab_get(&self.store, x) {
                Some(o) => out.push(o),
                None => vstd::pervasive::unreached(),
            }
            i += 1;
        }
        proof {
            assert(self.lists_records(slots, out@));
            assert(slots.no_duplicates());
            assert forall|i2: int, j2: int| 0 <= i2 < j2 < slots.len() implies self.recs()[slots[i2]].timestamp
                > self.recs()[slots[j2]].timestamp by {
                assert(slots[i2] == fwd[slots.len() - 1 - i2]);
                assert(slots[j2] == fwd[slots.len() - 1 - j2]);
            }
        }
        out
    }

    /// Every record once, grouped by `priority` in ascending key order and
    /// by ascending slot id inside each group: the ordered-non-unique
    /// index's forward two-level traversal.
    pub fn iter_by_priority<'a>(&'a self) -> (r: Vec<&'a Order>)
        requires
            self.wf(),
        ensures
            exists|slots: Seq<usize>|
                {
                    &&& slots.no_duplicates()
                    &&& slots.to_set() == self.recs().dom()
                    &&& self.lists_records(slots, r@)
                    &&& forall|i: int, j: int|
                        0 <= i < j < slots.len() ==> self.recs()[slots[i]].priority
                            <= self.recs()[slots[j]].priority
                    &&& forall|i: int, j: int|
                        0 <= i < j < slots.len() && self.recs()[slots[i]].priority
                            == self.recs()[slots[j]].priority ==> slots[i] < slots[j]
                },
    {
        let ppairs = crate::ordered::priority_map_pairs(&self.priority_index);
        proof {
            assert(self.priority_keys().dom() =~= self.priority_index@.dom());
        }
        let mut out: Vec<&'a Order> = Vec::new();
        let ghost mut acc: Seq<usize> = Seq::empty();
        let np = ppairs.len();
        let mut oi: usize = 0;
        while oi < np
            invariant
                oi <= np,
                np == ppairs@.len(),
                self.wf(),
                np == self.priority_keys().dom().len(),
                self.priority_keys().dom() =~= self.priority_index@.dom(),
                forall|p: int|
                    0 <= p < np ==> self.priority_keys().contains_key(#[trigger] ppairs@[p].0)
                        && ppairs@[p].1@ == self.priority_keys()[ppairs@[p].0],
                forall|p: int, q: int| 0 <= p < q < np ==> ppairs@[p].0 < ppairs@[q].0,
                out@.len() == acc.len(),
                forall|l: int|
                    0 <= l < acc.len() ==> self.recs().contains_key(#[trigger] acc[l]) && *out@[l]
                        == self.recs()[acc[l]],
                forall|l1: int, l2: int|
                    0 <= l1 < l2 < acc.len() ==> self.recs()[acc[l1]].priority
                        <= self.recs()[acc[l2]].priority,
                forall|l1: int, l2: int|
                    0 <= l1 < l2 < acc.len() && self.recs()[acc[l1]].priority
                        == self.recs()[acc[l2]].priority ==> acc[l1] < acc[l2],
                acc.no_duplicates(),
                forall|l: int, p: int|
                    0 <= l < acc.len() && oi <= p < np ==> self.recs()[#[trigger] acc[l]].priority
                        < (#[trigger] ppairs@[p].0),
                forall|x: usize, p: int|
                    #[trigger] self.recs().contains_key(x) && 0 <= p < oi && (#[trigger] ppairs@[p].0)
                        == self.recs()[x].priority ==> acc.contains(x),
            decreases np - oi,
        {
            let kk = ppairs[oi].0;
            let gslots = crate::ordered::set_slots(&ppairs[oi].1);
            let ghost base = acc;
            let ghost run = gslots@;
            proof {
                assert(ppairs@[oi as int].1@ == self.priority_keys()[kk]);
                assert forall|j: int| 0 <= j < run.len() implies self.recs().contains_key(
                    #[trigger] run[j],
                ) && self.recs()[run[j]].priority == kk by {
                    assert(self.priority_keys()[kk].contains(run[j]));
                }
            }
            let ng = gslots.len();
            let mut ii: usize = 0;
            while ii < ng
                invariant
                    ii <= ng,
                    ng == run.len(),
                    gslots@ == run,
                    self.wf(),
                    forall|j: int|
                        0 <= j < run.len() ==> self.recs().contains_key(#[trigger] run[j]),
                    out@.len() == base.len() + ii,
                    forall|l: int|
                        0 <= l < base.len() ==> self.recs().contains_key(#[trigger] base[l])
                            && *out@[l] == self.recs()[base[l]],
                    forall|j: int|
                        0 <= j < ii ==> *(#[trigger] out@[base.len() + j]) == self.recs()[run[j]],
                decreases ng - ii,
            {
                let x = gslots[ii];
                match crate::store::slab_get(&self.store, x) {
                    Some(o) => out.push(o),
                    None => vstd::pervasive::unreached(),
                }
                ii += 1;
            }
            proof {
                acc = base + run;
                assert forall|l: int| 0 <= l < acc.len() implies self.recs().contains_key(
                    #[trigger] acc[l],
                ) && *out@[l] == self.recs()[acc[l]] by {
                    if l < base.len() {
                        assert(acc[l] == base[l]);
                    } else {
                        assert(acc[l] == run[l - base.len()]);
                        assert(*out@[base.len() + (l - base.len())] == self.recs()[run[l
                            - base.len()]]);
                    }
                }
                assert forall|l1: int, l2: int| 0 <= l1 < l2 < acc.len() implies {
                    &&& self.recs()[acc[l1]].priority <= self.recs()[acc[l2]].priority
                    &&& (self.recs()[acc[l1]].priority == self.recs()[acc[l2]].priority ==> acc[l1]
                        < acc[l2])
                } by {
                    if l1 < base.len() && l2 >= base.len() {
                        assert(acc[l1] == base[l1]);
                        assert(acc[l2] == run[l2 - base.len()]);
                        assert(self.recs()[base[l1]].priority < ppairs@[oi as int].0);
                    } else if l1 >= base.len() {
                        assert(acc[l1] == run[l1 - base.len()]);
                        assert(acc[l2] == run[l2 - base.len()]);
                    } else {
                        assert(acc[l1] == base[l1]);
                        assert(acc[l2] == base[l2]);
                    }
                }
                assert(acc.no_duplicates()) by {
                    assert forall|l1: int, l2: int|
                        0 <= l1 < l2 < acc.len() implies acc[l1] != acc[l2] by {
                        if l1 < base.len() && l2 >= base.len() {
                            assert(self.recs()[acc[l1]].priority < ppairs@[oi as int].0);
                            assert(self.recs()[acc[l2]].priority == kk);
                        }
                    }
                }
                assert forall|l: int, p: int|
                    0 <= l < acc.len() && oi + 1 <= p < np implies self.recs()[#[trigger] acc[l]].priority
                    < (#[trigger] ppairs@[p].0) by {
                    if l >= base.len() {
                        assert(acc[l] == run[l - base.len()]);
                        assert(self.recs()[acc[l]].priority == kk);
                        assert(ppairs@[oi as int].0 < ppairs@[p].0);
                    } else {
                        assert(acc[l] == base[l]);
                    }
                }
                assert forall|x: usize, p: int|
                    #[trigger] self.recs().contains_key(x) && 0 <= p < oi + 1 && (
                    #[trigger] ppairs@[p].0) == self.recs()[x].priority implies acc.contains(x) by {
                    if p == oi {
                        assert(self.priority_keys().contains_key(self.recs()[x].priority)
                            && self.priority_keys()[self.recs()[x].priority].contains(x));
                        assert(run.contains(x));
                        let j = choose|j: int| 0 <= j < run.len() && run[j] == x;
                        assert(acc[base.len() + j] == x);
                    } else {
                        assert(base.contains(x));
                        let j = choose|j: int| 0 <= j < base.len() && base[j] == x;
                        assert(acc[j] == x);
                    }
                }
            }
            oi += 1;
        }
        proof {
            let kseq = ppairs@.map_values(|p: (u64, BTreeSet<usize>)| p.0);
            assert(kseq.no_duplicates());
            assert forall|p: int| 0 <= p < kseq.len() implies self.priority_keys().dom().contains(
                #[trigger] kseq[p],
            ) by {
                assert(self.priority_keys().contains_key(ppairs@[p].0));
            }
            Self::lemma_cover(self.priority_keys().dom(), kseq);
            assert forall|x: usize| #[trigger]
                self.recs().contains_key(x) implies acc.contains(x) by {
                assert(self.priority_keys().contains_key(self.recs()[x].priority));
                assert(kseq.to_set().contains(self.recs()[x].priority));
                let p = choose|p: int| 0 <= p < kseq.len() && kseq[p] == self.recs()[x].priority;
                assert(ppairs@[p].0 == self.recs()[x].priority);
            }
            assert(acc.to_set() =~= self.recs().dom()) by {
                assert forall|y: usize| #[trigger]
                    acc.to_set().contains(y) implies self.recs().dom().contains(y) by {
                    let l = choose|l: int| 0 <= l < acc.len() && acc[l] == y;
                    assert(self.recs().contains_key(acc[l]));
                }
            }
            assert(self.lists_records(acc, out@));
        }
        out
    }

    /// Every record once, grouped by `priority` in descending key order and
    /// by descending slot id inside each group: the ordered-non-unique
    /// index's reverse two-level traversal, mirroring the forward one.
    pub fn iter_by_priority_desc<'a>(&'a self) -> (r: Vec<&'a Order>)
        requires
            self.wf(),
        ensures
            exists|slots: Seq<usize>|
                {
                    &&& slots.no_duplicates()
                    &&& slots.to_set() == self.recs().dom()
                    &&& self.lists_records(slots, r@)
                    &&& forall|i: int, j: int|
                        0 <= i < j < slots.len() ==> self.recs()[slots[i]].priority
                            >= self.recs()[slots[j]].priority
                    &&& forall|i: int, j: int|
                        0 <= i < j < slots.len() && self.recs()[slots[i]].priority
                            == self.recs()[slots[j]].priority ==> slots[i] > slots[j]
                },
    {
        let ppairs = crate::ordered::priority_map_pairs(&self.priority_index);
        proof {
            assert(self.priority_keys().dom() =~= self.priority_index@.dom());
        }
        let mut out: Vec<&'a Order> = Vec::new();
        let ghost mut acc: Seq<usize> = Seq::empty();
        let np = ppairs.len();
        let mut oi: usize = 0;
        while oi < np
            invariant
                oi <= np,
                np == ppairs@.len(),
                self.wf(),
                np == self.priority_keys().dom().len(),
                self.priority_keys().dom() =~= self.priority_index@.dom(),
                forall|p: int|
                    0 <= p < np ==> self.priority_keys().contains_key(#[trigger] ppairs@[p].0)
                        && ppairs@[p].1@ == self.priority_keys()[ppairs@[p].0],
                forall|p: int, q: int| 0 <= p < q < np ==> ppairs@[p].0 < ppairs@[q].0,
                out@.len() == acc.len(),
                forall|l: int|
                    0 <= l < acc.len() ==> self.recs().contains_key(#[trigger] acc[l]) && *out@[l]
                        == self.recs()[acc[l]],
                forall|l1: int, l2: int|
                    0 <= l1 < l2 < acc.len() ==> self.recs()[acc[l1]].priority
                        >= self.recs()[acc[l2]].priority,
                forall|l1: int, l2: int|
                    0 <= l1 < l2 < acc.len() && self.recs()[acc[l1]].priority
                        == self.recs()[acc[l2]].priority ==> acc[l1] > acc[l2],
                acc.no_duplicates(),
                forall|l: int, p: int|
                    0 <= l < acc.len() && 0 <= p < np - oi ==> self.recs()[#[trigger] acc[l]].priority
                        > (#[trigger] ppairs@[p].0),
                forall|x: usize, p: int|
                    #[trigger] self.recs().contains_key(x) && np - oi <= p < np && (
                    #[trigger] ppairs@[p].0) == self.recs()[x].priority ==> acc.contains(x),
            decreases np - oi,
        {
            let pi = np - 1 - oi;
            let kk = ppairs[pi].0;
            let gslots = crate::ordered::set_slots(&ppairs[pi].1);
            let ghost base = acc;
            let ghost fwd_run = gslots@;
            let ghost run = fwd_run.reverse();
            proof {
                assert(ppairs@[pi as int].1@ == self.priority_keys()[kk]);
                assert forall|j: int| 0 <= j < run.len() implies self.recs().contains_key(
                    #[trigger] run[j],
                ) && self.recs()[run[j]].priority == kk by {
                    assert(run[j] == fwd_run[run.len() - 1 - j]);
                    assert(self.priority_keys()[kk].contains(fwd_run[run.len() - 1 - j]));
                }
            }
            let ng = gslots.len();
            let mut ii: usize = 0;
            while ii < ng
                invariant
                    ii <= ng,
                    ng == run.len(),
                    gslots@ == fwd_run,
                    run == fwd_run.reverse(),
                    self.wf(),
                    forall|j: int|
                        0 <= j < run.len() ==> self.recs().contains_key(#[trigger] run[j]),
                    out@.len() == base.len() + ii,
                    forall|l: int|
                        0 <= l < base.len() ==> self.recs().contains_key(#[trigger] base[l])
                            && *out@[l] == self.recs()[base[l]],
                    forall|j: int|
                        0 <= j < ii ==> *(#[trigger] out@[base.len() + j]) == self.recs()[run[j]],
                decreases ng - ii,
            {
                let x = gslots[ng - 1 - ii];
                proof {
                    assert(run[ii as int] == fwd_run[ng - 1 - ii as int]);
                }
                match crate::store::slab_get(&self.store, x) {
                    Some(o) => out.push(o),
                    None => vstd::pervasive::unreached(),
                }
                ii += 1;
            }
            proof {
                acc = base + run;
                assert forall|l: int| 0 <= l < acc.len() implies self.recs().contains_key(
                    #[trigger] acc[l],
                ) && *out@[l] == self.recs()[acc[l]] by {
                    if l < base.len() {
                        assert(acc[l] == base[l]);
                    } else {
                        assert(acc[l] == run[l - base.len()]);
                        assert(*out@[base.len() + (l - base.len())] == self.recs()[run[l
                            - base.len()]]);
                    }
                }
                assert forall|l1: int, l2: int| 0 <= l1 < l2 < acc.len() implies {
                    &&& self.recs()[acc[l1]].priority >= self.recs()[acc[l2]].priority
                    &&& (self.recs()[acc[l1]].priority == self.recs()[acc[l2]].priority ==> acc[l1]
                        > acc[l2])
                } by {
                    if l1 < base.len() && l2 >= base.len() {
                        assert(acc[l1] == base[l1]);
                        assert(acc[l2] == run[l2 - base.len()]);
                        assert(self.recs()[base[l1]].priority > ppairs@[pi as int].0);
                    } else if l1 >= base.len() {
                        assert(acc[l1] == run[l1 - base.len()]);
                        assert(acc[l2] == run[l2 - base.len()]);
                        assert(run[l1 - base.len()] == fwd_run[run.len() - 1 - (l1 - base.len())]);
                        assert(run[l2 - base.len()] == fwd_run[run.len() - 1 - (l2 - base.len())]);
                    } else {
                        assert(acc[l1] == base[l1]);
                        assert(acc[l2] == base[l2]);
                    }
                }
                assert(acc.no_duplicates()) by {
                    assert forall|l1: int, l2: int|
                        0 <= l1 < l2 < acc.len() implies acc[l1] != acc[l2] by {
                        if l1 < base.len() && l2 >= base.len() {
                            assert(self.recs()[acc[l1]].priority > ppairs@[pi as int].0);
                            assert(self.recs()[acc[l2]].priority == kk);
                        } else if l1 >= base.len() {
                            assert(acc[l1] == run[l1 - base.len()]);
                            assert(acc[l2] == run[l2 - base.len()]);
                            assert(run[l1 - base.len()] == fwd_run[run.len() - 1 - (l1
                                - base.len())]);
                            assert(run[l2 - base.len()] == fwd_run[run.len() - 1 - (l2
                                - base.len())]);
                        }
                    }
                }
                assert forall|l: int, p: int|
                    0 <= l < acc.len() && 0 <= p < np - (oi + 1) implies self.recs()[
                #[trigger] acc[l]].priority > (#[trigger] ppairs@[p].0) by {
                    if l >= base.len() {
                        assert(acc[l] == run[l - base.len()]);
                        assert(self.recs()[acc[l]].priority == kk);
                        assert(ppairs@[p].0 < ppairs@[pi as int].0);
                    } else {
                        assert(acc[l] == base[l]);
                    }
                }
                assert forall|x: usize, p: int|
                    #[trigger] self.recs().contains_key(x) && np - (oi + 1) <= p < np && (
                    #[trigger] ppairs@[p].0) == self.recs()[x].priority implies acc.contains(x) by {
                    if p == pi {
                        assert(self.priority_keys().contains_key(self.recs()[x].priority)
                            && self.priority_keys()[self.recs()[x].priority].contains(x));
                        assert(fwd_run.contains(x));
                        let j = choose|j: int| 0 <= j < fwd_run.len() && fwd_run[j] == x;
                        assert(run[fwd_run.len() - 1 - j] == x);
                        assert(acc[base.len() + (fwd_run.len() - 1 - j)] == x);
                    } else {
                        assert(base.contains(x));
                        let j = choose|j: int| 0 <= j < base.len() && base[j] == x;
                        assert(acc[j] == x);
                    }
                }
            }
            oi += 1;
        }
        proof {
            let kseq = ppairs@.map_values(|p: (u64, BTreeSet<usize>)| p.0);
            assert(kseq.no_duplicates());
            assert forall|p: int| 0 <= p < kseq.len() implies self.priority_keys().dom().contains(
                #[trigger] kseq[p],
            ) by {
                assert(self.priority_keys().contains_key(ppairs@[p].0));
            }
            Self::lemma_cover(self.priority_keys().dom(), kseq);
            assert forall|x: usize| #[trigger]
                self.recs().contains_key(x) implies acc.contains(x) by {
                assert(self.priority_keys().contains_key(self.recs()[x].priority));
                assert(kseq.to_set().contains(self.recs()[x].priority));
                let p = choose|p: int| 0 <= p < kseq.len() && kseq[p] == self.recs()[x].priority;
                assert(ppairs@[p].0 == self.recs()[x].priority);
            }
            assert(acc.to_set() =~= self.recs().dom()) by {
                assert forall|y: usize| #[trigger]
                    acc.to_set().contains(y) implies self.recs().dom().contains(y) by {
                    let l = choose|l: int| 0 <= l < acc.len() && acc[l] == y;
                    assert(self.recs().contains_key(acc[l]));
                }
            }
            assert(self.lists_records(acc, out@));
        }
        out
    }

    /// A well-formed non-unique index has finitely many keys: each is borne
    /// by at least one live record.
    proof fn lemma_group_dom_finite<K>(
        recs: Map<usize, Order>,
        index: Map<K, Set<usize>>,
        key_of: spec_fn(Order) -> K,
    )
        requires
            Self::group_index_ok(recs, index, key_of),
            recs.dom().finite(),
        ensures
            index.dom().finite(),
    {
        let g = |x: usize| key_of(recs[x]);
        assert(recs.dom().map(g) =~= index.dom()) by {
            assert forall|k: K| #[trigger] index.dom().contains(k) implies recs.dom().map(
                g,
            ).contains(k) by {
                assert(index[k].finite() && index[k].len() > 0);
                if index[k].is_empty() {
                    index[k].lemma_len0_is_empty();
                }
                let x = index[k].choose();
                assert(index[k].contains(x));
                assert(recs.dom().contains(x) && g(x) == k);
            }
            assert forall|k: K| #[trigger]
                recs.dom().map(g).contains(k) implies index.dom().contains(k) by {
                let x = choose|x: usize| recs.dom().contains(x) && g(x) == k;
                assert(index.contains_key(key_of(recs[x])));
            }
        }
        vstd::set_lib::lemma_map_size_bound(recs.dom(), index.dom(), g);
    }

    /// Every record once, grouped by `trader` — records sharing a name are
    /// contiguous and in ascending slot-id order inside their group — in
    /// the trader index's traversal order, of which nothing more is
    /// promised: a hashed index orders its keys in no promised way.
    pub fn iter_by_trader<'a>(&'a self) -> (r: Vec<&'a Order>)
        requires
            self.wf(),
        ensures
            exists|slots: Seq<usize>|
                {
                    &&& slots.no_duplicates()
                    &&& slots.to_set() == self.recs().dom()
                    &&& self.lists_records(slots, r@)
                    &&& forall|i: int, j: int|
                        0 <= i < j < slots.len() && self.recs()[slots[i]].trader@
                            == self.recs()[slots[j]].trader@ ==> slots[i] < slots[j]
                    &&& forall|i: int, j: int, l: int|
                        0 <= i < j < slots.len() && i <= l <= j && self.recs()[slots[i]].trader@
                            == self.recs()[slots[j]].trader@ ==> self.recs()[slots[l]].trader@
                            == self.recs()[slots[i]].trader@
                },
    {
        let tpairs = crate::hashed::trader_map_pairs(&self.trader_index);
        let mut out: Vec<&'a Order> = Vec::new();
        let ghost mut acc: Seq<usize> = Seq::empty();
        let np = tpairs.len();
        let mut oi: usize = 0;
        while oi < np
            invariant
                oi <= np,
                np == tpairs@.len(),
                self.wf(),
                np == self.trader_keys().dom().len(),
                forall|p: int|
                    0 <= p < np ==> self.trader_keys().contains_key(#[trigger] tpairs@[p].0@)
                        && tpairs@[p].1@ == self.trader_keys()[tpairs@[p].0@],
                forall|p: int, q: int| 0 <= p < q < np ==> tpairs@[p].0@ != tpairs@[q].0@,
                out@.len() == acc.len(),
                forall|l: int|
                    0 <= l < acc.len() ==> self.recs().contains_key(#[trigger] acc[l]) && *out@[l]
                        == self.recs()[acc[l]],
                forall|l1: int, l2: int|
                    0 <= l1 < l2 < acc.len() && self.recs()[acc[l1]].trader@
                        == self.recs()[acc[l2]].trader@ ==> acc[l1] < acc[l2],
                forall|l1: int, l2: int, l: int|
                    0 <= l1 < l2 < acc.len() && l1 <= l <= l2 && self.recs()[acc[l1]].trader@
                        == self.recs()[acc[l2]].trader@ ==> self.recs()[acc[l]].trader@
                        == self.recs()[acc[l1]].trader@,
                acc.no_duplicates(),
                forall|l: int, p: int|
                    0 <= l < acc.len() && oi <= p < np ==> self.recs()[#[trigger] acc[l]].trader@
                        != (#[trigger] tpairs@[p].0@),
                forall|x: usize, p: int|
                    #[trigger] self.recs().contains_key(x) && 0 <= p < oi && (#[trigger] tpairs@[p].0@)
                        == self.recs()[x].trader@ ==> acc.contains(x),
            decreases np - oi,
        {
            let ghost kk = tpairs@[oi as int].0@;
            let gslots = crate::ordered::set_slots(&tpairs[oi].1);
            let ghost base = acc;
            let ghost run = gslots@;
            proof {
                assert(tpairs@[oi as int].1@ == self.trader_keys()[kk]);
                assert forall|j: int| 0 <= j < run.len() implies self.recs().contains_key(
                    #[trigger] run[j],
                ) && self.recs()[run[j]].trader@ == kk by {
                    assert(self.trader_keys()[kk].contains(run[j]));
                }
            }
            let ng = gslots.len();
            let mut ii: usize = 0;
            while ii < ng
                invariant
                    ii <= ng,
                    ng == run.len(),
                    gslots@ == run,
                    self.wf(),
                    forall|j: int|
                        0 <= j < run.len() ==> self.recs().contains_key(#[trigger] run[j]),
                    out@.len() == base.len() + ii,
                    forall|l: int|
                        0 <= l < base.len() ==> self.recs().contains_key(#[trigger] base[l])
                            && *out@[l] == self.recs()[base[l]],
                    forall|j: int|
                        0 <= j < ii ==> *(#[trigger] out@[base.len() + j]) == self.recs()[run[j]],
                decreases ng - ii,
            {
                let x = gslots[ii];
                match crate::store::slab_get(&self.store, x) {
                    Some(o) => out.push(o),
                    None => vstd::pervasive::unreached(),
                }
                ii += 1;
            }
            proof {
                acc = base + run;
                assert forall|l: int| 0 <= l < acc.len() implies self.recs().contains_key(
                    #[trigger] acc[l],
                ) && *out@[l] == self.recs()[acc[l]] by {
                    if l < base.len() {
                        assert(acc[l] == base[l]);
                    } else {
                        assert(acc[l] == run[l - base.len()]);
                        assert(*out@[base.len() + (l - base.len())] == self.recs()[run[l
                            - base.len()]]);
                    }
                }
                assert forall|l1: int, l2: int|
                    0 <= l1 < l2 < acc.len() && self.recs()[acc[l1]].trader@
                        == self.recs()[acc[l2]].trader@ implies acc[l1] < acc[l2] by {
                    if l1 < base.len() && l2 >= base.len() {
                        assert(acc[l1] == base[l1]);
                        assert(acc[l2] == run[l2 - base.len()]);
                        assert(self.recs()[base[l1]].trader@ != kk);
                    } else if l1 >= base.len() {
                        assert(acc[l1] == run[l1 - base.len()]);
                        assert(acc[l2] == run[l2 - base.len()]);
                    } else {
                        assert(acc[l1] == base[l1]);
                        assert(acc[l2] == base[l2]);
                    }
                }
                assert forall|l1: int, l2: int, l: int|
                    0 <= l1 < l2 < acc.len() && l1 <= l <= l2 && self.recs()[acc[l1]].trader@
                        == self.recs()[acc[l2]].trader@ implies self.recs()[acc[l]].trader@
                    == self.recs()[acc[l1]].trader@ by {
                    if l1 < base.len() && l2 >= base.len() {
                        assert(acc[l1] == base[l1]);
                        assert(acc[l2] == run[l2 - base.len()]);
                        assert(self.recs()[base[l1]].trader@ != kk);
                    } else if l1 >= base.len() {
                        assert(acc[l] == run[l - base.len()]);
                        assert(acc[l1] == run[l1 - base.len()]);
                    } else {
                        assert(acc[l1] == base[l1]);
                        assert(acc[l2] == base[l2]);
                        assert(acc[l] == base[l]);
                    }
                }
                assert(acc.no_duplicates()) by {
                    assert forall|l1: int, l2: int|
                        0 <= l1 < l2 < acc.len() implies acc[l1] != acc[l2] by {
                        if l1 < base.len() && l2 >= base.len() {
                            assert(self.recs()[acc[l1]].trader@ != kk);
                            assert(self.recs()[acc[l2]].trader@ == kk);
                        }
                    }
                }
                assert forall|l: int, p: int|
                    0 <= l < acc.len() && oi + 1 <= p < np implies self.recs()[#[trigger] acc[l]].trader@
                    != (#[trigger] tpairs@[p].0@) by {
                    if l >= base.len() {
                        assert(acc[l] == run[l - base.len()]);
                        assert(self.recs()[acc[l]].trader@ == kk);
                        assert(tpairs@[oi as int].0@ != tpairs@[p].0@);
                    } else {
                        assert(acc[l] == base[l]);
                    }
                }
                assert forall|x: usize, p: int|
                    #[trigger] self.recs().contains_key(x) && 0 <= p < oi + 1 && (
                    #[trigger] tpairs@[p].0@) == self.recs()[x].trader@ implies acc.contains(x) by {
                    if p == oi {
                        assert(self.trader_keys().contains_key(self.recs()[x].trader@)
                            && self.trader_keys()[self.recs()[x].trader@].contains(x));
                        assert(run.contains(x));
                        let j = choose|j: int| 0 <= j < run.len() && run[j] == x;
                        assert(acc[base.len() + j] == x);
                    } else {
                        assert(base.contains(x));
                        let j = choose|j: int| 0 <= j < base.len() && base[j] == x;
                        assert(acc[j] == x);
                    }
                }
            }
            oi += 1;
        }
        proof {
            let kseq = tpairs@.map_values(|p: (String, BTreeSet<usize>)| p.0@);
            assert(kseq.no_duplicates());
            assert forall|p: int| 0 <= p < kseq.len() implies self.trader_keys().dom().contains(
                #[trigger] kseq[p],
            ) by {
                assert(self.trader_keys().contains_key(tpairs@[p].0@));
            }
            Self::lemma_group_dom_finite(self.recs(), self.trader_keys(), |o: Order| o.trader@);
            Self::lemma_cover(self.trader_keys().dom(), kseq);
            assert forall|x: usize| #[trigger]
                self.recs().contains_key(x) implies acc.contains(x) by {
                assert(self.trader_keys().contains_key(self.recs()[x].trader@));
                assert(kseq.to_set().contains(self.recs()[x].trader@));
                let p = choose|p: int| 0 <= p < kseq.len() && kseq[p] == self.recs()[x].trader@;
                assert(tpairs@[p].0@ == self.recs()[x].trader@);
            }
            assert(acc.to_set() =~= self.recs().dom()) by {
                assert forall|y: usize| #[trigger]
                    acc.to_set().contains(y) implies self.recs().dom().contains(y) by {
                    let l = choose|l: int| 0 <= l < acc.len() && acc[l] == y;
                    assert(self.recs().contains_key(acc[l]));
                }
            }
            assert(self.lists_records(acc, out@));
        }
        out
    }

    /// The slot sequence drawn from the timestamp index's ascending pairs
    /// lists the whole store, without repeats, in strictly ascending
    /// `timestamp` order.
    proof fn lemma_ts_pairs_slots(self, pairs: Seq<(u64, usize)>, slots: Seq<usize>)
        requires
            self.wf(),
            slots == pairs.map_values(|p: (u64, usize)| p.1),
            pairs.len() == self.timestamp_keys().dom().len(),
            forall|i: int|
                0 <= i < pairs.len() ==> self.timestamp_keys().contains_key(#[trigger] pairs[i].0)
                    && pairs[i].1 == self.timestamp_keys()[pairs[i].0],
            forall|i: int, j: int| 0 <= i < j < pairs.len() ==> pairs[i].0 < pairs[j].0,
        ensures
            slots.no_duplicates(),
            slots.to_set() == self.recs().dom(),
            forall|i: int|
                0 <= i < slots.len() ==> self.recs().contains_key(#[trigger] slots[i]),
            forall|i: int, j: int|
                0 <= i < j < slots.len() ==> self.recs()[slots[i]].timestamp < self.recs()[slots[j]].timestamp,
    {
        assert forall|i: int| 0 <= i < slots.len() implies self.recs().contains_key(
            #[trigger] slots[i],
        ) by {
            assert(self.timestamp_keys().contains_key(pairs[i].0));
        }
        assert forall|i: int, j: int|
            0 <= i < j < slots.len() implies self.recs()[slots[i]].timestamp < self.recs()[slots[j]].timestamp by {
            assert(self.timestamp_keys().contains_key(pairs[i].0));
            assert(self.timestamp_keys().contains_key(pairs[j].0));
            assert(self.recs()[slots[i]].timestamp == pairs[i].0);
            assert(self.recs()[slots[j]].timestamp == pairs[j].0);
        }
        assert(slots.no_duplicates()) by {
            assert forall|i: int, j: int| 0 <= i < j < slots.len() implies slots[i] != slots[j] by {
                assert(self.recs()[slots[i]].timestamp < self.recs()[slots[j]].timestamp);
            }
        }
        assert(self.timestamp_keys().dom().len() == self.recs().dom().len()) by {
            Self::lemma_index_len(self.recs(), self.timestamp_keys(), |o: Order| o.timestamp);
        }
        Self::lemma_cover(self.recs().dom(), slots);
    }

    /// A well-formed unique index is as large as the store: each live
    /// record contributes exactly one key.
    proof fn lemma_index_len(
        recs: Map<usize, Order>,
        index: Map<u64, usize>,
        key_of: spec_fn(Order) -> u64,
    )
        requires
            Self::unique_index_ok(recs, index, key_of),
            recs.dom().finite(),
        ensures
            index.dom().finite(),
            index.dom().len() == recs.dom().len(),
    {
        let g = |y: usize| key_of(recs[y]);
        assert(vstd::relations::injective_on(g, recs.dom())) by {
            assert forall|y1: usize, y2: usize|
                #![trigger recs.dom().contains(y1), recs.dom().contains(y2)]
                recs.dom().contains(y1) && recs.dom().contains(y2) && g(y1) == g(y2) implies y1
                == y2 by {
                assert(index[key_of(recs[y1])] == y1);
                assert(index[key_of(recs[y2])] == y2);
            }
        }
        assert(recs.dom().map(g) =~= index.dom()) by {
            assert forall|k: u64| #[trigger] index.dom().contains(k) implies recs.dom().map(
                g,
            ).contains(k) by {
                assert(recs.contains_key(index[k]) && key_of(recs[index[k]]) == k);
                assert(recs.dom().contains(index[k]) && g(index[k]) == k);
            }
            assert forall|k: u64| #[trigger]
                recs.dom().map(g).contains(k) implies index.dom().contains(k) by {
                let y = choose|y: usize| recs.dom().contains(y) && g(y) == k;
                assert(index.contains_key(key_of(recs[y])));
            }
        }
        vstd::set_lib::lemma_map_size(recs.dom(), index.dom(), g);
    }

    /// An empty container.
    pub fn new() -> (r: OrderMap)
        ensures
            r.wf(),
            r.recs() == crate::store::no_recs(),
    {
        let r = OrderMap {
            store: crate::store::slab_new(),
            id_index: HashMap::default(),
            timestamp_index: BTreeMap::new(),
            trader_index: crate::hashed::trader_map_new(),
            priority_index: BTreeMap::new(),
        };
        r
    }

    /// An empty container whose store can hold `n` records without another
    /// allocation.
    pub fn with_capacity(n: usize) -> (r: OrderMap)
        ensures
            r.wf(),
            r.recs() == crate::store::no_recs(),
    {
        let r = OrderMap {
            store: crate::store::slab_with_capacity(n),
            id_index: HashMap::default(),
            timestamp_index: BTreeMap::new(),
            trader_index: crate::hashed::trader_map_new(),
            priority_index: BTreeMap::new(),
        };
        r
    }

    /// The number of live records.
    pub fn len(&self) -> (n: usize)
        ensures
            n == self.recs().dom().len(),
    {
        crate::store::slab_len(&self.store)
    }

    /// Whether the container holds no record.
    pub fn is_empty(&self) -> (r: bool)
        requires
            self.wf(),
        ensures
            r == self.recs().dom().is_empty(),
    {
        let n = crate::store::slab_len(&self.store);
        n == 0
    }
}

/// Puts slot `x` into the group under `key` in the trader index, creating
/// the group if the key is new.
fn group_add_trader(m: &mut HashMap<String, BTreeSet<usize>, FxBuildHasher>, key: &String, x: usize)
    ensures
        trader_map_model(*final (m)) == trader_map_model(*old(m)).insert(
            key@,
            if trader_map_model(*old(m)).contains_key(key@) {
                trader_map_model(*old(m))[key@].insert(x)
            } else {
                Set::<usize>::empty().insert(x)
            },
        ),
{
    let mut g: BTreeSet<usize> = match crate::hashed::trader_map_get(m, key) {
        Some(s) => s.clone(),
        None => BTreeSet::new(),
    };
    g.insert(x);
    crate::hashed::trader_map_insert(m, key.clone(), g);
}

/// Puts slot `x` into the group under `key` in the priority index, creating
/// the group if the key is new.
fn group_add_priority(m: &mut BTreeMap<u64, BTreeSet<usize>>, key: u64, x: usize)
    ensures
        final (m)@.map_values(|g: BTreeSet<usize>| g@) == old(m)@.map_values(
            |g: BTreeSet<usize>| g@,
        ).insert(
            key,
            if old(m)@.map_values(|g: BTreeSet<usize>| g@).contains_key(key) {
                old(m)@.map_values(|g: BTreeSet<usize>| g@)[key].insert(x)
            } else {
                Set::<usize>::empty().insert(x)
            },
        ),
{
    broadcast use {vstd::std_specs::btree::group_btree_axioms, vstd::laws_cmp::group_laws_cmp};

    let mut g: BTreeSet<usize> = match m.get(&key) {
        Some(s) => s.clone(),
        None => BTreeSet::new(),
    };
    g.insert(x);
    let ghost gv = g@;
    m.insert(key, g);
    proof {
        OrderMap::lemma_group_view_insert(old(m)@, key, m@[key]);
        assert(m@ =~= old(m)@.insert(key, m@[key]));
        assert(m@.map_values(|g: BTreeSet<usize>| g@) =~= old(m)@.map_values(
            |g: BTreeSet<usize>| g@,
        ).insert(key, gv));
    }
}

/// Takes slot `x` out of the group under `key` in the trader index: the
/// group shrinks by `x`, and the key goes with it once no other slot is
/// left under it.
fn group_remove_trader(m: &mut HashMap<String, BTreeSet<usize>, FxBuildHasher>, key: &String, x: usize)
    requires
        trader_map_model(*old(m)).contains_key(key@),
        trader_map_model(*old(m))[key@].finite(),
        trader_map_model(*old(m))[key@].contains(x),
    ensures
        trader_map_model(*final (m)) == if trader_map_model(*old(m))[key@].len() > 1 {
            trader_map_model(*old(m)).insert(key@, trader_map_model(*old(m))[key@].remove(x))
        } else {
            trader_map_model(*old(m)).remove(key@)
        },
{
    let big = match crate::hashed::trader_map_get(m, key) {
        Some(g) => g.len() > 1,
        None => vstd::pervasive::unreached(),
    };
    if big {
        let mut s2 = match crate::hashed::trader_map_get(m, key) {
            Some(g) => g.clone(),
            None => vstd::pervasive::unreached(),
        };
        s2.remove(&x);
        crate::hashed::trader_map_insert(m, key.clone(), s2);
    } else {
        crate::hashed::trader_map_remove(m, key);
    }
}

/// Takes slot `x` out of the group under `key` in the priority index: the
/// group shrinks by `x`, and the key goes with it once no other slot is
/// left under it.
fn group_remove_priority(m: &mut BTreeMap<u64, BTreeSet<usize>>, key: u64, x: usize)
    requires
        m@.map_values(|g: BTreeSet<usize>| g@).contains_key(key),
        m@.map_values(|g: BTreeSet<usize>| g@)[key].finite(),
        m@.map_values(|g: BTreeSet<usize>| g@)[key].contains(x),
    ensures
        final (m)@.map_values(|g: BTreeSet<usize>| g@) == if old(m)@.map_values(
            |g: BTreeSet<usize>| g@,
        )[key].len() > 1 {
            old(m)@.map_values(|g: BTreeSet<usize>| g@).insert(
                key,
                old(m)@.map_values(|g: BTreeSet<usize>| g@)[key].remove(x),
            )
        } else {
            old(m)@.map_values(|g: BTreeSet<usize>| g@).remove(key)
        },
{
    broadcast use {vstd::std_specs::btree::group_btree_axioms, vstd::laws_cmp::group_laws_cmp};

    let big = match m.get(&key) {
        Some(g) => g.len() > 1,
        None => vstd::pervasive::unreached(),
    };
    if big {
        let mut s2 = match m.get(&key) {
            Some(g) => g.clone(),
            None => vstd::pervasive::unreached(),
        };
        s2.remove(&x);
        proof {
            OrderMap::lemma_group_view_insert(old(m)@, key, s2);
        }
        let ghost s2v = s2@;
        m.insert(key, s2);
        proof {
            OrderMap::lemma_group_view_insert(old(m)@, key, m@[key]);
            assert(m@ =~= old(m)@.insert(key, m@[key]));
            assert(m@.map_values(|g: BTreeSet<usize>| g@) =~= old(m)@.map_values(
                |g: BTreeSet<usize>| g@,
            ).insert(key, s2v));
        }
    } else {
        m.remove(&key);
        proof {
            OrderMap::lemma_group_view_remove(old(m)@, key);
            assert(m@ =~= old(m)@.remove(key));
            assert(m@.map_values(|g: BTreeSet<usize>| g@) =~= old(m)@.map_values(
                |g: BTreeSet<usize>| g@,
            ).remove(key));
        }
    }
}

impl Default for OrderMap {
    /// An empty container, as [`OrderMap::new`] builds it.
    fn default() -> (r: Self)
        ensures
            r.wf(),
            r.recs() == crate::store::no_recs(),
    {
        OrderMap::new()
    }
}

} // verus!
