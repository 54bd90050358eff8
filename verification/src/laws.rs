//! The container-wide laws: statements that relate several operations, each
//! proved from the contracts and the invariant alone.

use vstd::prelude::*;

use crate::engine::OrderMap;
use crate::order::Order;

verus! {

/// No two live records share a unique key: in a well-formed container the
/// `id` and `timestamp` of every record are its alone.
pub proof fn lemma_unique_keys(c: OrderMap)
    requires
        c.wf(),
    ensures
        forall|x: usize, y: usize|
            #[trigger] c.recs().contains_key(x) && #[trigger] c.recs().contains_key(y) && x != y
                ==> c.recs()[x].id != c.recs()[y].id && c.recs()[x].timestamp
                != c.recs()[y].timestamp,
{
    assert forall|x: usize, y: usize|
        #[trigger] c.recs().contains_key(x) && #[trigger] c.recs().contains_key(y) && x
        != y implies c.recs()[x].id != c.recs()[y].id && c.recs()[x].timestamp
        != c.recs()[y].timestamp by {
        assert(c.id_keys()[c.recs()[x].id] == x);
        assert(c.id_keys()[c.recs()[y].id] == y);
        assert(c.timestamp_keys()[c.recs()[x].timestamp] == x);
        assert(c.timestamp_keys()[c.recs()[y].timestamp] == y);
    }
}

/// A live slot sits in exactly one group of each non-unique index: the one
/// under its record's own key.
pub proof fn lemma_slot_in_one_group(c: OrderMap)
    requires
        c.wf(),
    ensures
        forall|k1: Seq<char>, k2: Seq<char>, x: usize|
            c.trader_keys().contains_key(k1) && c.trader_keys().contains_key(k2)
                && #[trigger] c.trader_keys()[k1].contains(x) && #[trigger] c.trader_keys()[k2].contains(
                x,
            ) ==> k1 == k2,
        forall|k1: u64, k2: u64, x: usize|
            c.priority_keys().contains_key(k1) && c.priority_keys().contains_key(k2)
                && #[trigger] c.priority_keys()[k1].contains(x)
                && #[trigger] c.priority_keys()[k2].contains(x) ==> k1 == k2,
{
}

/// Round trip: once a record is inserted, looking it up by any of its
/// indexed fields' values finds it — it is the one record under its unique
/// keys, and its slot is in its group under each non-unique key.
pub proof fn lemma_insert_round_trip(pre: OrderMap, post: OrderMap, x: usize, elem: Order)
    requires
        post.wf(),
        !pre.recs().contains_key(x),
        post.recs() == pre.recs().insert(x, elem),
    ensures
        post.has_id(elem.id),
        post.has_timestamp(elem.timestamp),
        forall|y: usize| #[trigger]
            post.recs().contains_key(y) && post.recs()[y].id == elem.id ==> post.recs()[y] == elem,
        forall|y: usize| #[trigger]
            post.recs().contains_key(y) && post.recs()[y].timestamp == elem.timestamp
                ==> post.recs()[y] == elem,
        post.trader_slots(elem.trader@).contains(x) && post.recs()[x] == elem,
        post.priority_slots(elem.priority).contains(x),
{
    assert(post.recs().contains_key(x) && post.recs()[x] == elem);
    lemma_unique_keys(post);
    assert(post.recs().dom().contains(x));
}

/// Reindex correctness: after a record's keys are modified in one step,
/// it is the one record found under each of its new unique keys, and its
/// old unique keys, where changed, find nothing at all.
pub proof fn lemma_modify_reindex(pre: OrderMap, post: OrderMap, x: usize, ne: Order)
    requires
        pre.wf(),
        post.wf(),
        pre.recs().contains_key(x),
        post.recs() == pre.recs().insert(x, ne),
    ensures
        post.has_id(ne.id),
        post.has_timestamp(ne.timestamp),
        forall|y: usize| #[trigger]
            post.recs().contains_key(y) && post.recs()[y].id == ne.id ==> post.recs()[y] == ne,
        forall|y: usize| #[trigger]
            post.recs().contains_key(y) && post.recs()[y].timestamp == ne.timestamp
                ==> post.recs()[y] == ne,
        ne.id != pre.recs()[x].id ==> !post.has_id(pre.recs()[x].id),
        ne.timestamp != pre.recs()[x].timestamp ==> !post.has_timestamp(pre.recs()[x].timestamp),
{
    assert(post.recs().contains_key(x) && post.recs()[x] == ne);
    lemma_unique_keys(post);
    lemma_unique_keys(pre);
    if ne.id != pre.recs()[x].id {
        assert forall|y: usize| #[trigger] post.recs().contains_key(y) implies post.recs()[y].id
            != pre.recs()[x].id by {
            if y != x {
                assert(pre.recs().contains_key(y));
                assert(pre.recs()[y].id != pre.recs()[x].id);
            }
        }
    }
    if ne.timestamp != pre.recs()[x].timestamp {
        assert forall|y: usize| #[trigger]
            post.recs().contains_key(y) implies post.recs()[y].timestamp != pre.recs()[x].timestamp by {
            if y != x {
                assert(pre.recs().contains_key(y));
                assert(pre.recs()[y].timestamp != pre.recs()[x].timestamp);
            }
        }
    }
}

/// Clear: an emptied container holds nothing, so no lookup by any key can
/// find anything.
pub proof fn lemma_clear_finds_nothing(c: OrderMap)
    requires
        c.recs() == crate::store::no_recs(),
    ensures
        forall|k: u64| !c.has_id(k),
        forall|k: u64| !c.has_timestamp(k),
        forall|k: Seq<char>| c.trader_slots(k) =~= Set::<usize>::empty(),
        forall|k: u64| c.priority_slots(k) =~= Set::<usize>::empty(),
{
    assert forall|k: Seq<char>| c.trader_slots(k) =~= Set::<usize>::empty() by {
        assert(forall|x: usize| !c.recs().dom().contains(x));
    }
    assert forall|k: u64| c.priority_slots(k) =~= Set::<usize>::empty() by {
        assert(forall|x: usize| !c.recs().dom().contains(x));
    }
}

} // verus!
