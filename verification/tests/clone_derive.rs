use multi_index_map::engine::OrderMap;
use multi_index_map::order::Order;

#[test]
fn clone_derive_should_compile() {
    let mut map = OrderMap::default();

    // check that formatting produces non empty strings
    assert!(!format!("{:?}", map).is_empty());
    assert!(!format!("{:?}", map.len()).is_empty());
    assert!(!format!("{:?}", map.is_empty()).is_empty());

    let elem1 = Order {
        id: 42,
        timestamp: 42,
        trader: "ElementOne".to_string(),
        priority: 1,
        note: "ElementOne".to_string(),
    };
    map.insert(elem1);

    let mut new_map = map.clone();

    assert_eq!(new_map.len(), 1);

    let elem1 = new_map.remove_by_id(&42).unwrap();
    assert_eq!(elem1.id, 42);
    assert_eq!(elem1.note, "ElementOne");
    assert_eq!(new_map.len(), 0);
}
