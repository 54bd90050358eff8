use multi_index_map::engine::OrderMap;
use multi_index_map::order::Order;

#[test]
fn debug_should_compile() {
    let mut map = OrderMap::default();

    // check that formatting produces non empty strings
    assert!(!format!("{:?}", map).is_empty());
    assert!(!format!("{:?}", map.len()).is_empty());

    let elem1 = Order {
        id: 42,
        timestamp: 42,
        trader: "ElementOne".to_string(),
        priority: 1,
        note: "ElementOne".to_string(),
    };
    map.insert(elem1);

    let msg = format!("{:?}", map);
    // check if stored field 1 is present in debug output
    assert!(msg.contains("42"));
}
