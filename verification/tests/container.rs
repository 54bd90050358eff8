use multi_index_map::engine::OrderMap;
use multi_index_map::order::Order;
use multi_index_map::order::UniqueViolation;

fn rec(id: u64, timestamp: u64, trader: &str, priority: u64, note: &str) -> Order {
    Order {
        id,
        timestamp,
        trader: trader.to_string(),
        priority,
        note: note.to_string(),
    }
}

#[test]
fn round_trip_every_index() {
    let mut map = OrderMap::new();
    map.insert(rec(7, 70, "ann", 2, "hello"));

    let by_id = map.get_by_id(&7).unwrap();
    assert_eq!(by_id.timestamp, 70);
    assert_eq!(by_id.trader, "ann");
    assert_eq!(by_id.priority, 2);
    assert_eq!(by_id.note, "hello");

    let by_ts = map.get_by_timestamp(&70).unwrap();
    assert_eq!(by_ts.id, 7);

    let by_trader = map.get_by_trader(&"ann".to_string());
    assert_eq!(by_trader.len(), 1);
    assert_eq!(by_trader[0].id, 7);

    let by_priority = map.get_by_priority(&2);
    assert_eq!(by_priority.len(), 1);
    assert_eq!(by_priority[0].id, 7);
}

#[test]
fn uniqueness_violation_on_id() {
    let mut map = OrderMap::new();
    map.insert(rec(1, 10, "ann", 1, "first"));

    let r = map.try_insert(rec(1, 20, "bob", 2, "second"));
    assert_eq!(r, Err(UniqueViolation::Id));

    // the failed attempt left only the first record behind
    assert_eq!(map.len(), 1);
    assert_eq!(map.get_by_id(&1).unwrap().note, "first");
    assert!(map.get_by_timestamp(&20).is_none());
    assert!(map.get_by_trader(&"bob".to_string()).is_empty());
}

#[test]
fn uniqueness_violation_on_timestamp() {
    let mut map = OrderMap::new();
    map.insert(rec(1, 10, "ann", 1, "first"));

    let r = map.try_insert(rec(2, 10, "bob", 2, "second"));
    assert_eq!(r, Err(UniqueViolation::Timestamp));

    assert_eq!(map.len(), 1);
    assert!(map.get_by_id(&2).is_none());
    assert_eq!(map.get_by_timestamp(&10).unwrap().id, 1);
}

#[test]
fn non_unique_grouping() {
    let mut map = OrderMap::new();
    map.insert(rec(1, 10, "bob", 1, ""));
    map.insert(rec(2, 20, "bob", 1, ""));
    map.insert(rec(3, 30, "bob", 2, ""));
    map.insert(rec(4, 40, "ann", 2, ""));

    let removed = map.remove_by_trader(&"bob".to_string());
    assert_eq!(removed.len(), 3);
    for o in &removed {
        assert_eq!(o.trader, "bob");
    }

    assert!(map.get_by_trader(&"bob".to_string()).is_empty());
    assert_eq!(map.len(), 1);
    assert_eq!(map.get_by_id(&4).unwrap().trader, "ann");
}

#[test]
fn remove_by_priority_group() {
    let mut map = OrderMap::new();
    map.insert(rec(1, 10, "ann", 5, ""));
    map.insert(rec(2, 20, "bob", 5, ""));
    map.insert(rec(3, 30, "cay", 7, ""));

    let removed = map.remove_by_priority(&5);
    assert_eq!(removed.len(), 2);
    assert!(map.get_by_priority(&5).is_empty());
    assert_eq!(map.len(), 1);
    assert_eq!(map.get_by_timestamp(&30).unwrap().id, 3);
}

#[test]
fn reindex_after_modify() {
    let mut map = OrderMap::new();
    map.insert(rec(1, 100, "ann", 1, "n"));

    let found = map.modify_by_id(&1, rec(1, 200, "ann", 1, "n"));
    assert!(found);

    // retrievable under the new key, and under the old by nothing at all
    assert_eq!(map.get_by_timestamp(&200).unwrap().id, 1);
    assert!(map.get_by_timestamp(&100).is_none());

    // a changed unique id moves the record the same way
    let found = map.modify_by_id(&1, rec(5, 200, "ann", 1, "n"));
    assert!(found);
    assert_eq!(map.get_by_id(&5).unwrap().timestamp, 200);
    assert!(map.get_by_id(&1).is_none());

    // a changed non-unique key regroups the record
    let found = map.modify_by_id(&5, rec(5, 200, "bob", 3, "n"));
    assert!(found);
    assert!(map.get_by_trader(&"ann".to_string()).is_empty());
    assert_eq!(map.get_by_trader(&"bob".to_string()).len(), 1);
    assert!(map.get_by_priority(&1).is_empty());
    assert_eq!(map.get_by_priority(&3).len(), 1);
}

#[test]
fn modify_collision_changes_nothing() {
    let mut map = OrderMap::new();
    map.insert(rec(1, 10, "ann", 1, "a"));
    map.insert(rec(2, 20, "bob", 2, "b"));

    let r = map.try_modify_by_id(&1, rec(2, 10, "ann", 1, "a"));
    assert_eq!(r, Err(UniqueViolation::Id));
    let r = map.try_modify_by_id(&1, rec(1, 20, "ann", 1, "a"));
    assert_eq!(r, Err(UniqueViolation::Timestamp));

    assert_eq!(map.len(), 2);
    assert_eq!(map.get_by_id(&1).unwrap().timestamp, 10);
    assert_eq!(map.get_by_id(&2).unwrap().timestamp, 20);

    let r = map.try_modify_by_id(&3, rec(3, 30, "cay", 3, "c"));
    assert_eq!(r, Ok(false));
    assert_eq!(map.len(), 2);
}

#[test]
fn update_leaves_every_index_alone() {
    let mut map = OrderMap::new();
    map.insert(rec(1, 10, "ann", 1, "old"));
    map.insert(rec(2, 20, "ann", 1, "old"));

    let found = map.update_by_id(&2, "new".to_string());
    assert!(found);

    // the note changed, and the record's position under no index did
    assert_eq!(map.get_by_id(&2).unwrap().note, "new");
    assert_eq!(map.get_by_timestamp(&20).unwrap().note, "new");
    let group = map.get_by_trader(&"ann".to_string());
    assert_eq!(group.len(), 2);
    assert_eq!(group[0].id, 1);
    assert_eq!(group[1].id, 2);
    let group = map.get_by_priority(&1);
    assert_eq!(group.len(), 2);
    let ordered: Vec<u64> = map.iter_by_timestamp().iter().map(|o| o.id).collect();
    assert_eq!(ordered, vec![1, 2]);

    assert!(!map.update_by_id(&9, "missing".to_string()));
}

#[test]
fn order_fidelity_ascending_and_descending() {
    let mut map = OrderMap::new();
    map.insert(rec(2, 2, "t", 0, ""));
    map.insert(rec(3, 3, "t", 0, ""));
    map.insert(rec(1, 1, "t", 0, ""));

    let asc: Vec<u64> = map.iter_by_timestamp().iter().map(|o| o.timestamp).collect();
    assert_eq!(asc, vec![1, 2, 3]);

    let desc: Vec<u64> = map.iter_by_timestamp_desc().iter().map(|o| o.timestamp).collect();
    assert_eq!(desc, vec![3, 2, 1]);
}

#[test]
fn concrete_scenario_john_and_tom() {
    let mut map = OrderMap::new();
    map.insert(rec(1, 10, "John", 1, ""));
    map.insert(rec(2, 20, "Tom", 1, ""));

    let toms = map.remove_by_trader(&"Tom".to_string());
    assert_eq!(toms.len(), 1);
    assert_eq!(toms[0].id, 2);

    assert!(map.get_by_id(&2).is_none());
    let john = map.get_by_id(&1).unwrap();
    assert_eq!(john.trader, "John");
}

#[test]
fn capacity_reservation_changes_no_behaviour() {
    let mut map = OrderMap::with_capacity(10);
    map.reserve(100);
    for i in 0..100u64 {
        map.insert(rec(i, 1000 + i, "t", i % 3, ""));
    }
    assert_eq!(map.len(), 100);
    assert!(map.capacity() >= 100);
    for i in 0..100u64 {
        assert_eq!(map.get_by_id(&i).unwrap().timestamp, 1000 + i);
    }
    map.shrink_to_fit();
    assert_eq!(map.len(), 100);
    assert_eq!(map.get_by_id(&42).unwrap().timestamp, 1042);
}

#[test]
fn clear_leaves_every_key_absent() {
    let mut map = OrderMap::new();
    map.insert(rec(1, 10, "ann", 1, ""));
    map.insert(rec(2, 20, "bob", 2, ""));

    map.clear();

    assert_eq!(map.len(), 0);
    assert!(map.is_empty());
    assert!(map.get_by_id(&1).is_none());
    assert!(map.get_by_id(&2).is_none());
    assert!(map.get_by_timestamp(&10).is_none());
    assert!(map.get_by_trader(&"ann".to_string()).is_empty());
    assert!(map.get_by_priority(&2).is_empty());

    // the cleared container is usable again
    map.insert(rec(1, 10, "ann", 1, "back"));
    assert_eq!(map.get_by_id(&1).unwrap().note, "back");
}

#[test]
fn storage_iteration_lists_every_record() {
    let mut map = OrderMap::new();
    map.insert(rec(5, 50, "a", 1, ""));
    map.insert(rec(6, 60, "b", 2, ""));
    map.insert(rec(7, 70, "c", 3, ""));

    let pairs = map.iter();
    assert_eq!(pairs.len(), 3);
    for w in pairs.windows(2) {
        assert!(w[0].0 < w[1].0);
    }

    let all = map.iter_by_id();
    assert_eq!(all.len(), 3);
    let mut ids: Vec<u64> = all.iter().map(|o| o.id).collect();
    ids.sort();
    assert_eq!(ids, vec![5, 6, 7]);
}

#[test]
fn priority_iteration_groups_in_order() {
    let mut map = OrderMap::new();
    map.insert(rec(1, 10, "a", 2, ""));
    map.insert(rec(2, 20, "b", 1, ""));
    map.insert(rec(3, 30, "c", 2, ""));
    map.insert(rec(4, 40, "d", 1, ""));

    let asc: Vec<(u64, u64)> = map.iter_by_priority().iter().map(|o| (o.priority, o.id)).collect();
    assert_eq!(asc, vec![(1, 2), (1, 4), (2, 1), (2, 3)]);

    let desc: Vec<(u64, u64)> =
        map.iter_by_priority_desc().iter().map(|o| (o.priority, o.id)).collect();
    assert_eq!(desc, vec![(2, 3), (2, 1), (1, 4), (1, 2)]);
}

#[test]
fn trader_iteration_groups_contiguously() {
    let mut map = OrderMap::new();
    map.insert(rec(1, 10, "ann", 1, ""));
    map.insert(rec(2, 20, "bob", 1, ""));
    map.insert(rec(3, 30, "ann", 1, ""));

    let all = map.iter_by_trader();
    assert_eq!(all.len(), 3);
    let names: Vec<&str> = all.iter().map(|o| o.trader.as_str()).collect();
    // records of one trader stay together, whatever the outer order
    match names[0] {
        "ann" => assert_eq!(names, vec!["ann", "ann", "bob"]),
        _ => assert_eq!(names, vec!["bob", "ann", "ann"]),
    }
}

#[test]
fn slots_are_reused_after_removal() {
    let mut map = OrderMap::new();
    map.insert(rec(1, 10, "a", 1, ""));
    let removed = map.remove_by_timestamp(&10).unwrap();
    assert_eq!(removed.id, 1);
    assert!(map.remove_by_timestamp(&10).is_none());

    map.insert(rec(2, 20, "b", 2, ""));
    assert_eq!(map.len(), 1);
    assert_eq!(map.get_by_id(&2).unwrap().timestamp, 20);
    assert!(map.get_by_id(&1).is_none());
}

#[test]
fn empty_container_answers_absent() {
    let map = OrderMap::new();
    assert_eq!(map.len(), 0);
    assert!(map.is_empty());
    assert!(map.get_by_id(&0).is_none());
    assert!(map.get_by_timestamp(&0).is_none());
    assert!(map.get_by_trader(&String::new()).is_empty());
    assert!(map.get_by_priority(&0).is_empty());
    assert!(map.iter().is_empty());
    assert!(map.iter_by_id().is_empty());
    assert!(map.iter_by_timestamp().is_empty());
    assert!(map.iter_by_timestamp_desc().is_empty());
    assert!(map.iter_by_trader().is_empty());
    assert!(map.iter_by_priority().is_empty());
    assert!(map.iter_by_priority_desc().is_empty());
}

#[test]
fn removing_an_absent_key_removes_nothing() {
    let mut map = OrderMap::new();
    map.insert(rec(1, 10, "ann", 1, ""));

    assert!(map.remove_by_id(&9).is_none());
    assert!(map.remove_by_timestamp(&9).is_none());
    assert!(map.remove_by_trader(&"bob".to_string()).is_empty());
    assert!(map.remove_by_priority(&9).is_empty());
    assert_eq!(map.len(), 1);
    assert_eq!(map.get_by_id(&1).unwrap().timestamp, 10);
}

#[test]
fn modify_by_timestamp_reindexes() {
    let mut map = OrderMap::new();
    map.insert(rec(1, 100, "ann", 1, "n"));

    let r = map.try_modify_by_timestamp(&100, rec(9, 900, "bob", 2, "m"));
    assert_eq!(r, Ok(true));
    assert_eq!(map.get_by_id(&9).unwrap().timestamp, 900);
    assert!(map.get_by_id(&1).is_none());
    assert!(map.get_by_timestamp(&100).is_none());

    let r = map.try_modify_by_timestamp(&123, rec(9, 900, "bob", 2, "m"));
    assert_eq!(r, Ok(false));
    assert_eq!(map.len(), 1);
}
