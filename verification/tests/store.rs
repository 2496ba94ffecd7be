use order_service::shared_data::SharedData;

#[test]
fn test_add_items() {
    let mut shared_data1 = SharedData::new();

    shared_data1.add_items(1, vec!["pizza".to_string(), "tea".to_string()]);

    // counter advanced once per item; table 1 holds both orders in input
    // order with ids 0 and 1
    assert_eq!(shared_data1.get_order_counter(), 2);
    let orders = shared_data1.get_table(1);
    assert_eq!(orders.len(), 2);
    assert_eq!(orders[0].get_order_id(), 0);
    assert_eq!(orders[0].get_item(), String::from("pizza"));
    assert_eq!(orders[1].get_order_id(), 1);
    assert_eq!(orders[1].get_item(), String::from("tea"));
}

#[test]
fn test_remove_items() {
    let mut shared_data1 = SharedData::new();
    shared_data1.add_items(1, vec!["pizza".to_string(), "tea".to_string()]);

    shared_data1.remove_item(1, 0);

    assert_eq!(shared_data1.get_order_counter(), 2);
    let orders = shared_data1.get_table(1);
    assert_eq!(orders.len(), 1);
    assert_eq!(orders[0].get_order_id(), 1);
    assert_eq!(orders[0].get_item(), String::from("tea"));

    shared_data1.remove_item(1, 1);
    assert!(
        shared_data1.get_tables().is_empty(),
        "tables should be empty! Current length: {}",
        shared_data1.get_tables().len()
    );
}

#[test]
fn cook_times_stay_in_range() {
    let mut data = SharedData::new();
    data.add_items(3, vec!["soup".to_string(), "bread".to_string(), "stew".to_string()]);
    for order in data.get_table(3) {
        let mins = order.get_mins_to_cook();
        assert!((5..16).contains(&mins), "cook time {} out of range", mins);
    }
}

#[test]
fn ids_are_contiguous_from_counter() {
    let mut data = SharedData::new();
    data.add_items(9, vec!["a".to_string()]);
    assert_eq!(data.get_order_counter(), 1);
    let before = data.get_order_counter();
    data.add_items(2, vec!["x".to_string(), "y".to_string(), "z".to_string()]);
    let orders = data.get_table(2);
    assert_eq!(orders.len(), 3);
    for (k, order) in orders.iter().enumerate() {
        assert_eq!(order.get_order_id(), before + k as u64);
    }
    assert_eq!(data.get_order_counter(), before + 3);
}

#[test]
fn ids_are_never_reused() {
    let mut data = SharedData::new();
    data.add_items(1, vec!["cola".to_string()]);
    data.add_items(1, vec!["tea".to_string()]);
    assert!(data.remove_item(1, 0).is_none());
    data.add_items(1, vec!["cake".to_string()]);
    // ids 0 and 1 were issued before; the new order must carry a fresh id
    let ids: Vec<u64> = data.get_table(1).iter().map(|o| o.get_order_id()).collect();
    assert_eq!(ids, vec![1, 2]);
}

#[test]
fn remove_missing_order_reports_and_leaves_state() {
    let mut data = SharedData::new();
    data.add_items(4, vec!["pie".to_string()]);
    let counter_before = data.get_order_counter();
    let items_before: Vec<(u64, String)> = data
        .get_table(4)
        .iter()
        .map(|o| (o.get_order_id(), o.get_item()))
        .collect();

    let err = data.remove_item(4, 77);
    assert_eq!(err, Some("order 77 doesn't exist at table 4".to_string()));
    let err = data.remove_item(9, 0);
    assert_eq!(err, Some("order 0 doesn't exist at table 9".to_string()));

    assert_eq!(data.get_order_counter(), counter_before);
    let items_after: Vec<(u64, String)> = data
        .get_table(4)
        .iter()
        .map(|o| (o.get_order_id(), o.get_item()))
        .collect();
    assert_eq!(items_before, items_after);
    assert_eq!(data.get_tables().len(), 1);
}

#[test]
fn get_table_of_missing_table_is_empty() {
    let data = SharedData::new();
    assert!(data.get_table(42).is_empty());
}

#[test]
fn get_order_finds_by_id() {
    let mut data = SharedData::new();
    data.add_items(5, vec!["rice".to_string(), "miso".to_string()]);
    let found = data.get_order(5, 1).expect("order 1 should exist");
    assert_eq!(found.get_order_id(), 1);
    assert_eq!(found.get_item(), String::from("miso"));
    assert!(data.get_order(5, 7).is_none());
    assert!(data.get_order(6, 0).is_none());
}

#[test]
fn serialized_single_adds_have_no_gaps() {
    let mut data = SharedData::new();
    let tables = [1u64, 5, 1, 3, 2, 5, 1, 9];
    for (i, t) in tables.iter().enumerate() {
        data.add_items(*t, vec![format!("dish{}", i)]);
    }
    assert_eq!(data.get_order_counter(), tables.len() as u64);
    let mut ids: Vec<u64> = Vec::new();
    for (t, orders) in data.get_tables() {
        assert!(tables.contains(t));
        for o in orders {
            ids.push(o.get_order_id());
        }
    }
    ids.sort();
    let expect: Vec<u64> = (0..tables.len() as u64).collect();
    assert_eq!(ids, expect);
}
