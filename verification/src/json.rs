//! The JSON boundary. Incoming request bodies are parsed by serde_json and
//! flattened into [`JsonDoc`], a value of this library that holds exactly
//! what the routes inspect; all validation then runs as verified code over
//! that value. Outgoing order listings are rendered to JSON text by
//! verified encoders with exact character-level contracts.

use vstd::prelude::*;

use crate::shared_data::{strs_model, Order, OrderModel};
use crate::text::{dec_seq, str_eq, u64_to_string};

verus! {

/// One element of a JSON array, as the routes read it: a string, or
/// anything else.
pub enum ArrayElem {
    Text(String),
    Other,
}

/// The value of one element of a JSON array.
pub enum ElemModel {
    Text(Seq<char>),
    Other,
}

impl View for ArrayElem {
    type V = ElemModel;

    open spec fn view(&self) -> ElemModel {
        match self {
            ArrayElem::Text(s) => ElemModel::Text(s@),
            ArrayElem::Other => ElemModel::Other,
        }
    }
}

/// One field of a JSON object, as the routes read it: JSON `null`, a
/// number representable as `u64`, an array, or anything else (strings,
/// booleans, other numbers, nested objects).
pub enum FieldValue {
    Null,
    UInt(u64),
    Array(Vec<ArrayElem>),
    Other,
}

/// The value of one field of a JSON object.
pub enum FieldModel {
    Null,
    UInt(u64),
    Array(Seq<ElemModel>),
    Other,
}

impl View for FieldValue {
    type V = FieldModel;

    open spec fn view(&self) -> FieldModel {
        match self {
            FieldValue::Null => FieldModel::Null,
            FieldValue::UInt(u) => FieldModel::UInt(*u),
            FieldValue::Array(v) => FieldModel::Array(v@.map(|i: int, e: ArrayElem| e@)),
            FieldValue::Other => FieldModel::Other,
        }
    }
}

/// A parsed JSON request body: a top-level object with its fields, or any
/// other JSON document.
pub enum JsonDoc {
    Object(Vec<(String, FieldValue)>),
    NonObject,
}

/// The value of a parsed JSON request body.
pub enum DocModel {
    Object(Seq<(Seq<char>, FieldModel)>),
    NonObject,
}

impl View for JsonDoc {
    type V = DocModel;

    open spec fn view(&self) -> DocModel {
        match self {
            JsonDoc::Object(fields) => DocModel::Object(
                fields@.map(|i: int, p: (String, FieldValue)| (p.0@, p.1@)),
            ),
            JsonDoc::NonObject => DocModel::NonObject,
        }
    }
}

/// What parsing a request body yields: `None` when the bytes are not a
/// JSON document, otherwise the document flattened to what the routes
/// read. A function of the bytes alone.
pub uninterp spec fn json_fields(bytes: Seq<u8>) -> Option<DocModel>;

/// Relies on `serde_json::from_slice`: parses the bytes as one JSON
/// document, failing exactly when they are not valid JSON. The parsed
/// document is flattened variant by variant into this library's
/// [`JsonDoc`]: top-level object fields are kept by name; a field that is
/// a number is kept when `serde_json::Number::as_u64` accepts it; array
/// elements keep their text when they are strings; everything else
/// becomes an opaque non-value. The whole result is a function of the
/// bytes alone, named [`json_fields`].
#[verifier::external_body]
pub(crate) fn parse_body_to_json(bytes: &Vec<u8>) -> (r: Option<JsonDoc>)
    ensures
        match r {
            Some(d) => json_fields(bytes@) == Some(d@),
            None => json_fields(bytes@) is None,
        },
{
    let v: serde_json::Value = match serde_json::from_slice(bytes) {
        Ok(v) => v,
        Err(_) => return None,
    };
    let serde_json::Value::Object(m) = v else { return Some(JsonDoc::NonObject) };
    Some(JsonDoc::Object(m.into_iter().map(|(k, f)| (k, match f {
        serde_json::Value::Null => FieldValue::Null,
        serde_json::Value::Number(n) => n.as_u64().map_or(FieldValue::Other, FieldValue::UInt),
        serde_json::Value::Array(a) => FieldValue::Array(a.into_iter().map(|e| match e {
            serde_json::Value::String(s) => ArrayElem::Text(s),
            _ => ArrayElem::Other,
        }).collect()),
        _ => FieldValue::Other,
    })).collect()))
}

/// The value of field `name` among `fields` (first match), JSON `null`
/// when no such field exists.
pub open spec fn field_in(fields: Seq<(Seq<char>, FieldModel)>, name: Seq<char>) -> FieldModel
    decreases fields.len(),
{
    if fields.len() == 0 {
        FieldModel::Null
    } else if fields[0].0 == name {
        fields[0].1
    } else {
        field_in(fields.drop_first(), name)
    }
}

/// The value of field `name` of a parsed document: JSON `null` when the
/// document is not an object or lacks the field, as the routes treat
/// both alike.
pub open spec fn field_of(doc: DocModel, name: Seq<char>) -> FieldModel {
    match doc {
        DocModel::Object(fields) => field_in(fields, name),
        DocModel::NonObject => FieldModel::Null,
    }
}

proof fn lemma_field_in_found(fields: Seq<(Seq<char>, FieldModel)>, name: Seq<char>, i: int)
    requires
        0 <= i < fields.len(),
        fields[i].0 == name,
        forall|j: int| 0 <= j < i ==> (#[trigger] fields[j]).0 != name,
    ensures
        field_in(fields, name) == fields[i].1,
    decreases fields.len(),
{
    if i > 0 {
        assert(fields.drop_first()[i - 1] == fields[i]);
        assert(forall|j: int|
            0 <= j < i - 1 ==> (#[trigger] fields.drop_first()[j]).0 != name);
        lemma_field_in_found(fields.drop_first(), name, i - 1);
    }
}

proof fn lemma_field_in_absent(fields: Seq<(Seq<char>, FieldModel)>, name: Seq<char>)
    requires
        forall|j: int| 0 <= j < fields.len() ==> (#[trigger] fields[j]).0 != name,
    ensures
        field_in(fields, name) is Null,
    decreases fields.len(),
{
    if fields.len() > 0 {
        assert(forall|j: int|
            0 <= j < fields.len() - 1 ==> (#[trigger] fields.drop_first()[j]).0 != name);
        lemma_field_in_absent(fields.drop_first(), name);
    }
}

/// A borrow of field `name` of the document, `None` when the document is
/// not an object or lacks the field.
#[verifier::loop_isolation(false)]
pub fn find_field<'a>(doc: &'a JsonDoc, name: &str) -> (r: Option<&'a FieldValue>)
    ensures
        match r {
            Some(f) => f@ == field_of(doc@, name@),
            None => field_of(doc@, name@) is Null,
        },
{
    match doc {
        JsonDoc::NonObject => None,
        JsonDoc::Object(fields) => {
            let ghost fmodel = fields@.map(|i: int, p: (String, FieldValue)| (p.0@, p.1@));
            let mut i: usize = 0;
            while i < fields.len()
                invariant
                    0 <= i <= fields@.len(),
                    fmodel == fields@.map(|i: int, p: (String, FieldValue)| (p.0@, p.1@)),
                    forall|j: int| 0 <= j < i ==> (#[trigger] fmodel[j]).0 != name@,
                decreases fields@.len() - i,
            {
                let pair: &(String, FieldValue) = &fields[i];
                if str_eq(pair.0.as_str(), name) {
                    proof {
                        assert(fmodel[i as int].0 == name@);
                        lemma_field_in_found(fmodel, name@, i as int);
                    }
                    return Some(&pair.1);
                }
                proof {
                    assert(fmodel[i as int].0 == pair.0@);
                }
                i += 1;
            }
            proof {
                lemma_field_in_absent(fmodel, name@);
            }
            None
        },
    }
}

/// Whether every element of a JSON array is a string.
pub open spec fn all_texts(elems: Seq<ElemModel>) -> bool {
    forall|i: int| 0 <= i < elems.len() ==> (#[trigger] elems[i]) is Text
}

/// The texts held by a JSON array of strings.
pub open spec fn texts_of(elems: Seq<ElemModel>) -> Seq<Seq<char>> {
    elems.map(
        |i: int, e: ElemModel|
            match e {
                ElemModel::Text(s) => s,
                ElemModel::Other => Seq::empty(),
            },
    )
}

/// What reading a field as an array of strings yields: the texts when the
/// field is an array whose elements are all strings, nothing otherwise.
pub open spec fn spec_extract_items(f: FieldModel) -> Option<Seq<Seq<char>>> {
    match f {
        FieldModel::Array(elems) => if all_texts(elems) {
            Some(texts_of(elems))
        } else {
            None
        },
        _ => None,
    }
}

/// Reads a field as an array of strings, as [`spec_extract_items`] says.
#[verifier::loop_isolation(false)]
pub fn extract_strings(f: &FieldValue) -> (r: Option<Vec<String>>)
    ensures
        r is Some <==> spec_extract_items(f@) is Some,
        r is Some ==> strs_model(r.unwrap()@) == spec_extract_items(f@).unwrap(),
{
    match f {
        FieldValue::Array(v) => {
            let ghost elems = v@.map(|i: int, e: ArrayElem| e@);
            let mut out: Vec<String> = Vec::new();
            let mut i: usize = 0;
            while i < v.len()
                invariant
                    0 <= i <= v@.len(),
                    elems == v@.map(|i: int, e: ArrayElem| e@),
                    out@.len() == i,
                    forall|j: int| 0 <= j < i ==> (#[trigger] elems[j]) is Text,
                    forall|j: int| 0 <= j < i ==> (#[trigger] out@[j])@ == texts_of(elems)[j],
                decreases v@.len() - i,
            {
                let e: &ArrayElem = &v[i];
                match e {
                    ArrayElem::Text(s) => {
                        out.push(s.clone());
                    },
                    ArrayElem::Other => {
                        proof {
                            assert(elems[i as int] is Other);
                        }
                        return None;
                    },
                }
                i += 1;
            }
            proof {
                assert(all_texts(elems));
                assert(strs_model(out@) =~= texts_of(elems));
            }
            Some(out)
        },
        _ => None,
    }
}

/// The hexadecimal digit character for `d` in `0 ..= 15`, lower case.
pub open spec fn hex_digit_char(d: nat) -> char {
    if d < 10 {
        crate::text::dec_digit_char(d)
    } else if d == 10 { 'a' }
    else if d == 11 { 'b' }
    else if d == 12 { 'c' }
    else if d == 13 { 'd' }
    else if d == 14 { 'e' }
    else { 'f' }
}

/// How one character appears inside a JSON string literal: quote and
/// backslash escaped, the common control characters by letter, the other
/// control characters as `\u00..`, everything else verbatim.
pub open spec fn esc_char(c: char) -> Seq<char> {
    if c == '"' {
        seq!['\\', '"']
    } else if c == '\\' {
        seq!['\\', '\\']
    } else if c == '\u{08}' {
        seq!['\\', 'b']
    } else if c == '\u{09}' {
        seq!['\\', 't']
    } else if c == '\u{0a}' {
        seq!['\\', 'n']
    } else if c == '\u{0c}' {
        seq!['\\', 'f']
    } else if c == '\u{0d}' {
        seq!['\\', 'r']
    } else if (c as u32) < 32 {
        seq!['\\', 'u', '0', '0'] + seq![
            hex_digit_char((c as u32 / 16) as nat),
            hex_digit_char((c as u32 % 16) as nat),
        ]
    } else {
        seq![c]
    }
}

/// A string's characters inside a JSON string literal.
pub open spec fn esc_string(s: Seq<char>) -> Seq<char>
    decreases s.len(),
{
    if s.len() == 0 {
        Seq::empty()
    } else {
        esc_char(s[0]) + esc_string(s.drop_first())
    }
}

proof fn lemma_esc_push(s: Seq<char>, c: char)
    ensures
        esc_string(s.push(c)) == esc_string(s) + esc_char(c),
    decreases s.len(),
{
    if s.len() == 0 {
        assert(s.push(c).drop_first() =~= s);
        assert(esc_string(s.push(c)) =~= esc_string(s) + esc_char(c));
    } else {
        assert(s.push(c).drop_first() =~= s.drop_first().push(c));
        lemma_esc_push(s.drop_first(), c);
        assert(s.push(c)[0] == s[0]);
        assert(esc_string(s.push(c)) =~= esc_string(s) + esc_char(c));
    }
}

/// Relies on `String::push`: appends exactly the one character.
#[verifier::external_body]
fn push_char(s: &mut String, c: char)
    ensures
        final(s)@ == old(s)@ + seq![c],
{
    s.push(c);
}

/// A one-character string slice holding the hexadecimal digit for `d`,
/// lower case.
fn hex_str(d: u32) -> (r: &'static str)
    requires
        d < 16,
    ensures
        r@ =~= seq![hex_digit_char(d as nat)],
{
    proof {
        reveal_strlit("a");
        reveal_strlit("b");
        reveal_strlit("c");
        reveal_strlit("d");
        reveal_strlit("e");
        reveal_strlit("f");
    }
    if d < 10 {
        crate::text::digit_str(d as u64)
    } else if d == 10 { "a" }
    else if d == 11 { "b" }
    else if d == 12 { "c" }
    else if d == 13 { "d" }
    else if d == 14 { "e" }
    else { "f" }
}

/// Renders `s` as it appears inside a JSON string literal.
#[verifier::loop_isolation(false)]
pub fn escape_json(s: &str) -> (r: String)
    ensures
        r@ == esc_string(s@),
{
    let n = s.unicode_len();
    let mut out = String::new();
    let mut i: usize = 0;
    while i < n
        invariant
            0 <= i <= n,
            out@ == esc_string(s@.take(i as int)),
        decreases n - i,
    {
        let c = s.get_char(i);
        proof {
            reveal_strlit("\\\"");
            reveal_strlit("\\\\");
            reveal_strlit("\\b");
            reveal_strlit("\\t");
            reveal_strlit("\\n");
            reveal_strlit("\\f");
            reveal_strlit("\\r");
            reveal_strlit("\\u00");
        }
        if c == '"' {
            out.append("\\\"");
        } else if c == '\\' {
            out.append("\\\\");
        } else if c == '\u{08}' {
            out.append("\\b");
        } else if c == '\u{09}' {
            out.append("\\t");
        } else if c == '\u{0a}' {
            out.append("\\n");
        } else if c == '\u{0c}' {
            out.append("\\f");
        } else if c == '\u{0d}' {
            out.append("\\r");
        } else if (c as u32) < 32 {
            let cu = c as u32;
            out.append("\\u00");
            out.append(hex_str(cu / 16));
            out.append(hex_str(cu % 16));
        } else {
            push_char(&mut out, c);
        }
        proof {
            lemma_esc_push(s@.take(i as int), c);
            assert(s@.take(i + 1) =~= s@.take(i as int).push(c));
            assert(out@ =~= esc_string(s@.take(i + 1)));
        }
        i += 1;
    }
    proof {
        assert(s@.take(n as int) =~= s@);
    }
    out
}

/// The JSON rendering of one order, exactly as the wire format has it.
pub open spec fn json_order(o: OrderModel) -> Seq<char> {
    "{\"order_id\":"@ + dec_seq(o.order_id as nat) + ",\"item\":\""@ + esc_string(o.item)
        + "\",\"mins_to_cook\":"@ + dec_seq(o.mins_to_cook as nat) + "}"@
}

/// The comma-separated JSON renderings of a sequence of orders.
pub open spec fn json_orders_inner(s: Seq<OrderModel>) -> Seq<char>
    decreases s.len(),
{
    if s.len() == 0 {
        Seq::empty()
    } else if s.len() == 1 {
        json_order(s[0])
    } else {
        json_orders_inner(s.drop_last()) + ","@ + json_order(s.last())
    }
}

/// The JSON array rendering of a sequence of orders.
pub open spec fn json_orders(s: Seq<OrderModel>) -> Seq<char> {
    "["@ + json_orders_inner(s) + "]"@
}

/// Renders one order as JSON.
pub fn order_to_json(o: &Order) -> (r: String)
    ensures
        r@ == json_order(o@),
{
    let mut out = "{\"order_id\":".to_owned();
    let id_str = u64_to_string(o.get_order_id());
    out.append(id_str.as_str());
    out.append(",\"item\":\"");
    let item = o.get_item();
    let esc = escape_json(item.as_str());
    out.append(esc.as_str());
    out.append("\",\"mins_to_cook\":");
    let mins_str = u64_to_string(o.get_mins_to_cook() as u64);
    out.append(mins_str.as_str());
    out.append("}");
    proof {
        assert(out@ =~= json_order(o@));
    }
    out
}

/// Renders a table's orders as a JSON array.
#[verifier::loop_isolation(false)]
pub fn orders_to_json(v: &Vec<Order>) -> (r: String)
    ensures
        r@ == json_orders(crate::shared_data::orders_model(v@)),
{
    let ghost s = crate::shared_data::orders_model(v@);
    let mut out = "[".to_owned();
    proof {
        assert(out@ =~= "["@ + json_orders_inner(s.take(0)));
    }
    let mut i: usize = 0;
    while i < v.len()
        invariant
            0 <= i <= v@.len(),
            s == crate::shared_data::orders_model(v@),
            out@ == "["@ + json_orders_inner(s.take(i as int)),
        decreases v@.len() - i,
    {
        if i > 0 {
            out.append(",");
        }
        let oj = order_to_json(&v[i]);
        out.append(oj.as_str());
        proof {
            assert(s.take(i + 1).drop_last() =~= s.take(i as int));
            assert(s.take(i + 1).last() == v@[i as int]@);
            if i == 0 {
                assert(s.take(1)[0] == v@[0]@);
                assert(out@ =~= "["@ + json_orders_inner(s.take(i + 1)));
            } else {
                assert(out@ =~= "["@ + json_orders_inner(s.take(i + 1)));
            }
        }
        i += 1;
    }
    out.append("]");
    proof {
        assert(s.take(v@.len() as int) =~= s);
        assert(out@ =~= json_orders(s));
    }
    out
}

} // verus!
