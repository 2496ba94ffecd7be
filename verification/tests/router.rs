use order_service::router::{handle_request, HttpResponse};
use order_service::shared_data::SharedData;

fn get(data: &mut SharedData, query: Option<&str>) -> HttpResponse {
    handle_request(data, "GET", "/items", query, None)
}

fn post(data: &mut SharedData, path: &str, body: &str) -> HttpResponse {
    let bytes = body.as_bytes().to_vec();
    handle_request(data, "POST", path, None, Some(&bytes))
}

#[test]
fn post_then_get_lists_orders_in_arrival_order() {
    let mut data = SharedData::new();
    let r = post(&mut data, "/items", "{\"table\":1,\"items\":[\"cola\",\"tea\"]}");
    assert_eq!(r.status, 200);
    assert_eq!(r.body, "");

    let orders = data.get_table(1);
    let m1 = orders[0].get_mins_to_cook();
    let m2 = orders[1].get_mins_to_cook();
    assert!((5..16).contains(&m1) && (5..16).contains(&m2));

    let r = get(&mut data, Some("table=1"));
    assert_eq!(r.status, 200);
    let expected = format!(
        "[{{\"order_id\":0,\"item\":\"cola\",\"mins_to_cook\":{}}},{{\"order_id\":1,\"item\":\"tea\",\"mins_to_cook\":{}}}]",
        m1, m2
    );
    assert_eq!(r.body, expected);
}

#[test]
fn get_single_order_by_id() {
    let mut data = SharedData::new();
    post(&mut data, "/items", "{\"table\":8,\"items\":[\"pho\",\"ramen\"]}");
    let mins = data.get_table(8)[1].get_mins_to_cook();
    let r = get(&mut data, Some("table=8&order_id=1"));
    assert_eq!(r.status, 200);
    assert_eq!(
        r.body,
        format!("{{\"order_id\":1,\"item\":\"ramen\",\"mins_to_cook\":{}}}", mins)
    );
}

#[test]
fn get_missing_table_param_is_rejected() {
    let mut data = SharedData::new();
    let r = get(&mut data, None);
    assert_eq!(r.status, 400);
    assert_eq!(r.body, "missing required field: 'table'");
    let r = get(&mut data, Some("order_id=1"));
    assert_eq!(r.status, 400);
    assert_eq!(r.body, "missing required field: 'table'");
}

#[test]
fn get_non_numeric_table_is_rejected() {
    let mut data = SharedData::new();
    let r = get(&mut data, Some("table=abc"));
    assert_eq!(r.status, 400);
    assert_eq!(r.body, "'table' must be an unassigned integer!");
}

#[test]
fn get_non_numeric_order_id_is_rejected() {
    let mut data = SharedData::new();
    let r = get(&mut data, Some("table=1&order_id=zz"));
    assert_eq!(r.status, 400);
    assert_eq!(r.body, "'order_id' must be an unassigned integer!");
}

#[test]
fn get_unknown_order_names_both_ids() {
    let mut data = SharedData::new();
    let r = get(&mut data, Some("table=2&order_id=5"));
    assert_eq!(r.status, 400);
    assert_eq!(r.body, "order 5 doesn't exist at table 2");
}

#[test]
fn get_empty_table_returns_empty_array() {
    let mut data = SharedData::new();
    let r = get(&mut data, Some("table=31"));
    assert_eq!(r.status, 200);
    assert_eq!(r.body, "[]");
}

#[test]
fn get_decodes_percent_encoded_parameters() {
    let mut data = SharedData::new();
    post(&mut data, "/items", "{\"table\":1,\"items\":[\"cola\"]}");
    let mins = data.get_table(1)[0].get_mins_to_cook();
    // "%74able" decodes to "table" and "%31" to "1"
    let r = get(&mut data, Some("%74able=%31"));
    assert_eq!(r.status, 200);
    assert_eq!(
        r.body,
        format!("[{{\"order_id\":0,\"item\":\"cola\",\"mins_to_cook\":{}}}]", mins)
    );
}

#[test]
fn get_repeated_parameter_takes_last_value() {
    let mut data = SharedData::new();
    let r = get(&mut data, Some("table=abc&table=12"));
    assert_eq!(r.status, 200);
    assert_eq!(r.body, "[]");
}

#[test]
fn post_missing_fields_is_rejected() {
    let mut data = SharedData::new();
    for body in [
        "{}",
        "{\"table\":1}",
        "{\"items\":[\"a\"]}",
        "{\"table\":null,\"items\":[\"a\"]}",
        "{\"table\":1,\"items\":null}",
        "[1,2]",
        "\"text\"",
    ] {
        let r = post(&mut data, "/items", body);
        assert_eq!(r.status, 400, "body {:?}", body);
        assert_eq!(r.body, "missing required fields: 'table' and\\or 'items'");
    }
    assert_eq!(data.get_order_counter(), 0);
}

#[test]
fn post_non_integer_table_is_rejected() {
    let mut data = SharedData::new();
    for body in [
        "{\"table\":\"1\",\"items\":[\"a\"]}",
        "{\"table\":-3,\"items\":[\"a\"]}",
        "{\"table\":1.5,\"items\":[\"a\"]}",
        "{\"table\":true,\"items\":[\"a\"]}",
    ] {
        let r = post(&mut data, "/items", body);
        assert_eq!(r.status, 400, "body {:?}", body);
        assert_eq!(r.body, "'table' must be an unassigned integer!");
    }
}

#[test]
fn post_bad_items_is_rejected() {
    let mut data = SharedData::new();
    for body in [
        "{\"table\":1,\"items\":\"cola\"}",
        "{\"table\":1,\"items\":7}",
        "{\"table\":1,\"items\":[\"a\",5]}",
        "{\"table\":1,\"items\":[[\"a\"]]}",
    ] {
        let r = post(&mut data, "/items", body);
        assert_eq!(r.status, 400, "body {:?}", body);
        assert_eq!(r.body, "'items' must be an array of strings!");
    }
    assert_eq!(data.get_order_counter(), 0);
}

#[test]
fn post_empty_items_succeeds_without_creating_a_table() {
    let mut data = SharedData::new();
    let r = post(&mut data, "/items", "{\"table\":1,\"items\":[]}");
    assert_eq!(r.status, 200);
    assert_eq!(data.get_order_counter(), 0);
    assert!(data.get_tables().is_empty());
}

#[test]
fn unparsable_body_is_a_bare_400() {
    let mut data = SharedData::new();
    let r = post(&mut data, "/items", "{not json");
    assert_eq!(r.status, 400);
    assert_eq!(r.body, "");
    let r = post(&mut data, "/items/delete", "");
    assert_eq!(r.status, 400);
    assert_eq!(r.body, "");
    let r = handle_request(&mut data, "POST", "/items", None, None);
    assert_eq!(r.status, 400);
    assert_eq!(r.body, "");
}

#[test]
fn delete_unknown_order_names_both_ids() {
    let mut data = SharedData::new();
    post(&mut data, "/items", "{\"table\":1,\"items\":[\"cola\"]}");
    let r = post(&mut data, "/items/delete", "{\"table\":1,\"order_id\":99}");
    assert_eq!(r.status, 400);
    assert!(r.body.contains("99") && r.body.contains("1"));
    assert_eq!(r.body, "order 99 doesn't exist at table 1");
}

#[test]
fn delete_validates_fields() {
    let mut data = SharedData::new();
    let r = post(&mut data, "/items/delete", "{\"table\":1}");
    assert_eq!(r.status, 400);
    assert_eq!(r.body, "missing required fields: 'table' and\\or 'order_id'");
    let r = post(&mut data, "/items/delete", "{\"table\":\"x\",\"order_id\":1}");
    assert_eq!(r.status, 400);
    assert_eq!(r.body, "'table' must be an unassigned integer!");
    let r = post(&mut data, "/items/delete", "{\"table\":1,\"order_id\":\"x\"}");
    assert_eq!(r.status, 400);
    assert_eq!(r.body, "'order_id' must be an unassigned integer!");
}

#[test]
fn delete_last_order_empties_table_and_listing() {
    let mut data = SharedData::new();
    post(&mut data, "/items", "{\"table\":6,\"items\":[\"udon\"]}");
    let r = post(&mut data, "/items/delete", "{\"table\":6,\"order_id\":0}");
    assert_eq!(r.status, 200);
    assert_eq!(r.body, "");
    let r = get(&mut data, Some("table=6"));
    assert_eq!(r.status, 200);
    assert_eq!(r.body, "[]");
    assert!(!data.get_tables().contains_key(&6));
}

#[test]
fn unmatched_routes_are_404() {
    let mut data = SharedData::new();
    for (method, path) in [
        ("GET", "/"),
        ("GET", "/items/delete"),
        ("PUT", "/items"),
        ("POST", "/orders"),
        ("DELETE", "/items"),
    ] {
        let r = handle_request(&mut data, method, path, None, None);
        assert_eq!(r.status, 404, "{} {}", method, path);
        assert_eq!(r.body, "");
    }
}

#[test]
fn item_names_are_json_escaped_in_listings() {
    let mut data = SharedData::new();
    let body = "{\"table\":1,\"items\":[\"a\\\"b\\\\c\\nd\"]}";
    let r = post(&mut data, "/items", body);
    assert_eq!(r.status, 200);
    let mins = data.get_table(1)[0].get_mins_to_cook();
    let r = get(&mut data, Some("table=1"));
    assert_eq!(r.status, 200);
    let expected = format!(
        "[{{\"order_id\":0,\"item\":\"a\\\"b\\\\c\\nd\",\"mins_to_cook\":{}}}]",
        mins
    );
    assert_eq!(r.body, expected);
}
