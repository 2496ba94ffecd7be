//! The request router: maps method, path, query and body to one store
//! operation, validating every input first, and renders the outcome as a
//! status code with a JSON or plain-text body. Each route's response is
//! pinned character for character by its contract.

use vstd::prelude::*;

use crate::json::{
    extract_strings, field_of, find_field, json_fields, json_order, json_orders,
    order_to_json, orders_to_json, parse_body_to_json, spec_extract_items, DocModel, FieldValue,
    JsonDoc,
};
use crate::shared_data::{
    found_order, has_order, make_not_found_msg, not_found_msg, spec_adds, spec_remove,
    table_orders, SharedData, StoreModel,
};
use crate::text::{parse_u64, spec_parse_u64, str_eq};

verus! {

/// An HTTP response as the router produces it: a status code and a body.
pub struct HttpResponse {
    pub status: u16,
    pub body: String,
}

/// The value of an [`HttpResponse`].
pub struct RespModel {
    pub status: u16,
    pub body: Seq<char>,
}

impl View for HttpResponse {
    type V = RespModel;

    open spec fn view(&self) -> RespModel {
        RespModel { status: self.status, body: self.body@ }
    }
}

/// A response with the given status and body.
pub open spec fn resp(status: u16, body: Seq<char>) -> RespModel {
    RespModel { status, body }
}

/// A rejection: status 400 with the given message.
pub open spec fn bad_request(msg: Seq<char>) -> RespModel {
    resp(400, msg)
}

/// A success without content: status 200, empty body.
pub open spec fn ok_empty() -> RespModel {
    resp(200, Seq::empty())
}

/// Builds a status-400 response carrying `message`.
pub fn create_400_response(message: String) -> (r: HttpResponse)
    ensures
        r@ == bad_request(message@),
{
    HttpResponse { status: 400, body: message }
}

/// The key/value pairs held by a vector of string pairs.
pub open spec fn pairs_model(v: Seq<(String, String)>) -> Seq<(Seq<char>, Seq<char>)> {
    v.map(|i: int, p: (String, String)| (p.0@, p.1@))
}

/// What decoding a query string yields: its key/value pairs in order,
/// percent-decoded. A function of the query string alone.
pub uninterp spec fn query_pairs(q: Seq<char>) -> Seq<(Seq<char>, Seq<char>)>;

/// Relies on `url::form_urlencoded::parse`: splits the query string into
/// `key=value` pairs on `&` and `=`, percent-decoding both sides and
/// reading `+` as a space, in their order of appearance. The result is a
/// function of the query string alone, named [`query_pairs`].
#[verifier::external_body]
fn parse_query(q: &str) -> (r: Vec<(String, String)>)
    ensures
        pairs_model(r@) == query_pairs(q@),
{
    url::form_urlencoded::parse(q.as_bytes()).into_owned().collect()
}

/// The value of parameter `name`, taking the last pair with that key, as
/// collecting pairs into a map would.
pub open spec fn lookup_param(ps: Seq<(Seq<char>, Seq<char>)>, name: Seq<char>) -> Option<
    Seq<char>,
>
    decreases ps.len(),
{
    if ps.len() == 0 {
        None
    } else if ps.last().0 == name {
        Some(ps.last().1)
    } else {
        lookup_param(ps.drop_last(), name)
    }
}

/// A borrow of the value of parameter `name`, as [`lookup_param`] says.
#[verifier::loop_isolation(false)]
pub fn find_param<'a>(ps: &'a Vec<(String, String)>, name: &str) -> (r: Option<&'a String>)
    ensures
        match r {
            Some(v) => lookup_param(pairs_model(ps@), name@) == Some(v@),
            None => lookup_param(pairs_model(ps@), name@) is None,
        },
{
    let ghost pm = pairs_model(ps@);
    proof {
        assert(pm.take(ps@.len() as int) =~= pm);
    }
    let mut i: usize = ps.len();
    while i > 0
        invariant
            0 <= i <= ps@.len(),
            lookup_param(pm, name@) == lookup_param(pm.take(i as int), name@),
        decreases i,
    {
        let idx = i - 1;
        let pair: &(String, String) = &ps[idx];
        proof {
            assert(pm[idx as int] == (pair.0@, pair.1@));
            assert(pm.take(i as int).last() == pm[idx as int]);
            assert(pm.take(i as int).drop_last() =~= pm.take(idx as int));
        }
        if str_eq(pair.0.as_str(), name) {
            return Some(&pair.1);
        }
        i = idx;
    }
    None
}

/// The exact response of `GET /items` for a store and decoded query
/// parameters: the table's orders as a JSON array, one order as a JSON
/// object when `order_id` is given, or the appropriate rejection.
pub open spec fn spec_get_items(s: StoreModel, ps: Seq<(Seq<char>, Seq<char>)>) -> RespModel {
    match lookup_param(ps, "table"@) {
        Option::None => bad_request("missing required field: 'table'"@),
        Option::Some(tstr) => match spec_parse_u64(tstr) {
            Option::None => bad_request("'table' must be an unassigned integer!"@),
            Option::Some(t) => match lookup_param(ps, "order_id"@) {
                Option::None => resp(200, json_orders(table_orders(s, t))),
                Option::Some(ostr) => match spec_parse_u64(ostr) {
                    Option::None => bad_request("'order_id' must be an unassigned integer!"@),
                    Option::Some(oid) => if has_order(s, t, oid) {
                        resp(200, json_order(found_order(s, t, oid)))
                    } else {
                        bad_request(not_found_msg(oid, t))
                    },
                },
            },
        },
    }
}

/// Serves `GET /items`: renders the table's pending orders, or one order
/// by id, after validating the parameters.
pub fn get_items(data: &SharedData, params: &Vec<(String, String)>) -> (r: HttpResponse)
    ensures
        r@ == spec_get_items(data@, pairs_model(params@)),
{
    let table_param = match find_param(params, "table") {
        Some(v) => v,
        None => {
            return create_400_response("missing required field: 'table'".to_owned());
        },
    };
    let table = match parse_u64(table_param.as_str()) {
        Some(t) => t,
        None => {
            return create_400_response("'table' must be an unassigned integer!".to_owned());
        },
    };
    match find_param(params, "order_id") {
        None => {
            let orders = data.get_table(table);
            let body = orders_to_json(&orders);
            HttpResponse { status: 200, body }
        },
        Some(op) => {
            let oid = match parse_u64(op.as_str()) {
                Some(o) => o,
                None => {
                    return create_400_response(
                        "'order_id' must be an unassigned integer!".to_owned(),
                    );
                },
            };
            match data.get_order(table, oid) {
                Some(o) => {
                    let body = order_to_json(&o);
                    HttpResponse { status: 200, body }
                },
                None => create_400_response(make_not_found_msg(oid, table)),
            }
        },
    }
}

/// The message given when the id counter cannot cover another request.
pub open spec fn ids_exhausted_msg() -> Seq<char> {
    "no unassigned order ids remain!"@
}

/// What validating a `POST /items` body yields: the table id and the
/// item names, or the rejection message.
pub open spec fn spec_post_validate(doc: DocModel) -> Result<(u64, Seq<Seq<char>>), Seq<char>> {
    let tf = field_of(doc, "table"@);
    let itf = field_of(doc, "items"@);
    if tf is Null || itf is Null {
        Result::Err("missing required fields: 'table' and\\or 'items'"@)
    } else if !(tf is UInt) {
        Result::Err("'table' must be an unassigned integer!"@)
    } else {
        match spec_extract_items(itf) {
            Option::Some(texts) => Result::Ok((tf->UInt_0, texts)),
            Option::None => Result::Err("'items' must be an array of strings!"@),
        }
    }
}

/// Serves `POST /items`: validates the body, then adds the requested
/// items to the table's order queue.
pub fn post_items(data: &mut SharedData, doc: &JsonDoc) -> (r: HttpResponse)
    requires
        old(data).inv(),
    ensures
        final(data).inv(),
        match spec_post_validate(doc@) {
            Result::Err(msg) => r@ == bad_request(msg) && final(data)@ == old(data)@,
            Result::Ok(req) => if old(data)@.order_counter + req.1.len() <= u64::MAX {
                r@ == ok_empty() && spec_adds(old(data)@, final(data)@, req.0, req.1)
            } else {
                r@ == bad_request(ids_exhausted_msg()) && final(data)@ == old(data)@
            },
        },
{
    let table_field = find_field(doc, "table");
    let items_field = find_field(doc, "items");
    let t_null = match table_field {
        None => true,
        Some(FieldValue::Null) => true,
        _ => false,
    };
    let i_null = match items_field {
        None => true,
        Some(FieldValue::Null) => true,
        _ => false,
    };
    if t_null || i_null {
        return create_400_response(
            "missing required fields: 'table' and\\or 'items'".to_owned(),
        );
    }
    let table: u64 = match table_field {
        Some(FieldValue::UInt(u)) => *u,
        _ => {
            return create_400_response("'table' must be an unassigned integer!".to_owned());
        },
    };
    let items: Vec<String> = match items_field {
        Some(f) => match extract_strings(f) {
            Some(v) => v,
            None => {
                return create_400_response("'items' must be an array of strings!".to_owned());
            },
        },
        None => unreached(),
    };
    let n = items.len();
    let counter = data.get_order_counter();
    if n as u64 <= u64::MAX - counter {
        data.add_items(table, items);
        HttpResponse { status: 200, body: String::new() }
    } else {
        create_400_response("no unassigned order ids remain!".to_owned())
    }
}

/// What validating a `POST /items/delete` body yields: the table id and
/// the order id, or the rejection message.
pub open spec fn spec_delete_validate(doc: DocModel) -> Result<(u64, u64), Seq<char>> {
    let tf = field_of(doc, "table"@);
    let of = field_of(doc, "order_id"@);
    if tf is Null || of is Null {
        Result::Err("missing required fields: 'table' and\\or 'order_id'"@)
    } else if !(tf is UInt) {
        Result::Err("'table' must be an unassigned integer!"@)
    } else if !(of is UInt) {
        Result::Err("'order_id' must be an unassigned integer!"@)
    } else {
        Result::Ok((tf->UInt_0, of->UInt_0))
    }
}

/// Serves `POST /items/delete`: validates the body, then removes the
/// order, passing the store's message through on failure.
pub fn delete_item(data: &mut SharedData, doc: &JsonDoc) -> (r: HttpResponse)
    requires
        old(data).inv(),
    ensures
        final(data).inv(),
        match spec_delete_validate(doc@) {
            Result::Err(msg) => r@ == bad_request(msg) && final(data)@ == old(data)@,
            Result::Ok(ids) => if has_order(old(data)@, ids.0, ids.1) {
                r@ == ok_empty() && final(data)@ == spec_remove(old(data)@, ids.0, ids.1)
            } else {
                r@ == bad_request(not_found_msg(ids.1, ids.0)) && final(data)@ == old(data)@
            },
        },
{
    let table_field = find_field(doc, "table");
    let order_field = find_field(doc, "order_id");
    let t_null = match table_field {
        None => true,
        Some(FieldValue::Null) => true,
        _ => false,
    };
    let o_null = match order_field {
        None => true,
        Some(FieldValue::Null) => true,
        _ => false,
    };
    if t_null || o_null {
        return create_400_response(
            "missing required fields: 'table' and\\or 'order_id'".to_owned(),
        );
    }
    let table: u64 = match table_field {
        Some(FieldValue::UInt(u)) => *u,
        _ => {
            return create_400_response("'table' must be an unassigned integer!".to_owned());
        },
    };
    let order_id: u64 = match order_field {
        Some(FieldValue::UInt(u)) => *u,
        _ => {
            return create_400_response("'order_id' must be an unassigned integer!".to_owned());
        },
    };
    match data.remove_item(table, order_id) {
        Some(msg) => create_400_response(msg),
        None => HttpResponse { status: 200, body: String::new() },
    }
}

/// The route a method and path select.
pub enum RouteKind {
    GetItems,
    PostItems,
    DeleteItem,
    NoRoute,
}

/// Which route a method and path select.
pub open spec fn spec_route(method: Seq<char>, path: Seq<char>) -> RouteKind {
    if method == "GET"@ && path == "/items"@ {
        RouteKind::GetItems
    } else if method == "POST"@ && path == "/items"@ {
        RouteKind::PostItems
    } else if method == "POST"@ && path == "/items/delete"@ {
        RouteKind::DeleteItem
    } else {
        RouteKind::NoRoute
    }
}

/// Dispatches one request: validates it, applies at most one store
/// operation, and returns the response. An unmatched route is 404; a
/// body that is missing or fails to parse as JSON is a bare 400.
pub fn handle_request(
    data: &mut SharedData,
    method: &str,
    path: &str,
    query: Option<&str>,
    body: Option<&Vec<u8>>,
) -> (r: HttpResponse)
    requires
        old(data).inv(),
    ensures
        final(data).inv(),
        spec_route(method@, path@) is GetItems ==> final(data)@ == old(data)@ && r@
            == spec_get_items(
            old(data)@,
            match query {
                Some(q) => query_pairs(q@),
                None => Seq::empty(),
            },
        ),
        spec_route(method@, path@) is PostItems ==> (match body {
            Some(b) => match json_fields(b@) {
                Some(doc) => match spec_post_validate(doc) {
                    Result::Err(msg) => r@ == bad_request(msg) && final(data)@ == old(data)@,
                    Result::Ok(req) => if old(data)@.order_counter + req.1.len() <= u64::MAX {
                        r@ == ok_empty() && spec_adds(old(data)@, final(data)@, req.0, req.1)
                    } else {
                        r@ == bad_request(ids_exhausted_msg()) && final(data)@ == old(data)@
                    },
                },
                None => r@ == resp(400, Seq::empty()) && final(data)@ == old(data)@,
            },
            None => r@ == resp(400, Seq::empty()) && final(data)@ == old(data)@,
        }),
        spec_route(method@, path@) is DeleteItem ==> (match body {
            Some(b) => match json_fields(b@) {
                Some(doc) => match spec_delete_validate(doc) {
                    Result::Err(msg) => r@ == bad_request(msg) && final(data)@ == old(data)@,
                    Result::Ok(ids) => if has_order(old(data)@, ids.0, ids.1) {
                        r@ == ok_empty() && final(data)@ == spec_remove(old(data)@, ids.0, ids.1)
                    } else {
                        r@ == bad_request(not_found_msg(ids.1, ids.0)) && final(data)@ == old(
                            data,
                        )@
                    },
                },
                None => r@ == resp(400, Seq::empty()) && final(data)@ == old(data)@,
            },
            None => r@ == resp(400, Seq::empty()) && final(data)@ == old(data)@,
        }),
        spec_route(method@, path@) is NoRoute ==> r@ == resp(404, Seq::empty()) && final(data)@
            == old(data)@,
{
    proof {
        reveal_strlit("GET");
        reveal_strlit("POST");
        reveal_strlit("/items");
        reveal_strlit("/items/delete");
    }
    let is_get = str_eq(method, "GET");
    let is_post = str_eq(method, "POST");
    let is_items = str_eq(path, "/items");
    let is_delete = str_eq(path, "/items/delete");
    if is_get && is_items {
        let params: Vec<(String, String)> = match query {
            Some(q) => parse_query(q),
            None => Vec::new(),
        };
        proof {
            if query is None {
                assert(pairs_model(params@) =~= Seq::empty());
            }
        }
        get_items(data, &params)
    } else if is_post && is_items {
        match body {
            Some(b) => match parse_body_to_json(b) {
                Some(doc) => post_items(data, &doc),
                None => HttpResponse { status: 400, body: String::new() },
            },
            None => HttpResponse { status: 400, body: String::new() },
        }
    } else if is_post && is_delete {
        match body {
            Some(b) => match parse_body_to_json(b) {
                Some(doc) => delete_item(data, &doc),
                None => HttpResponse { status: 400, body: String::new() },
            },
            None => HttpResponse { status: 400, body: String::new() },
        }
    } else {
        HttpResponse { status: 404, body: String::new() }
    }
}

} // verus!
