use vstd::prelude::*;

use crate::records::{SpaceRecord, SpaceError, lemma_take_step};

verus! {

#[verifier::external_type_specification]
#[verifier::external_body]
pub struct ExJsonValue(serde_json::Value);

#[verifier::external_type_specification]
#[verifier::external_body]
pub struct ExJsonError(serde_json::Error);

/// Whether serde_json parses the text as one JSON document; parsing is a
/// function of the text alone.
pub uninterp spec fn json_parses(text: Seq<char>) -> bool;

/// The document that serde_json parses the text into, when it parses.
pub uninterp spec fn json_doc(text: Seq<char>) -> serde_json::Value;

/// Whether the value is a JSON array.
pub uninterp spec fn json_is_array(v: serde_json::Value) -> bool;

/// The elements of a JSON array value.
pub uninterp spec fn json_elements(v: serde_json::Value) -> Seq<serde_json::Value>;

/// The field of that name, when the value is a JSON object holding one.
pub uninterp spec fn json_field(v: serde_json::Value, key: Seq<char>) -> Option<
    serde_json::Value,
>;

/// The number, when the value is a JSON number representable as an unsigned
/// 64-bit integer.
pub uninterp spec fn json_u64(v: serde_json::Value) -> Option<u64>;

/// The boolean, when the value is a JSON boolean.
pub uninterp spec fn json_bool(v: serde_json::Value) -> Option<bool>;

/// Relies on serde_json::from_str: parses the text as one JSON document, or
/// reports why it is not one. The result depends on the text alone.
#[verifier::external_body]
fn parse_json(text: &str) -> (r: Result<serde_json::Value, serde_json::Error>)
    ensures
        (r is Ok) == json_parses(text@),
        r matches Ok(v) ==> v == json_doc(text@),
{
    serde_json::from_str(text)
}

/// Relies on serde_json::Value::as_array: the element vector when the value
/// is a JSON array, nothing otherwise.
#[verifier::external_body]
fn json_as_array(v: &serde_json::Value) -> (r: Option<&Vec<serde_json::Value>>)
    ensures
        (r is Some) == json_is_array(*v),
        r matches Some(a) ==> a@ == json_elements(*v),
{
    v.as_array()
}

/// Relies on serde_json::Value::get with a string index: the field of that
/// name when the value is a JSON object holding one, nothing otherwise.
#[verifier::external_body]
fn json_get<'a>(v: &'a serde_json::Value, key: &str) -> (r: Option<&'a serde_json::Value>)
    ensures
        (r is Some) == (json_field(*v, key@) is Some),
        r matches Some(f) ==> Some(*f) == json_field(*v, key@),
{
    v.get(key)
}

/// Relies on serde_json::Value::as_u64: the number when the value is a JSON
/// number representable as an unsigned 64-bit integer, nothing otherwise.
#[verifier::external_body]
fn json_as_u64(v: &serde_json::Value) -> (r: Option<u64>)
    ensures
        r == json_u64(*v),
{
    v.as_u64()
}

/// Relies on serde_json::Value::as_bool: the boolean when the value is a
/// JSON boolean, nothing otherwise.
#[verifier::external_body]
fn json_as_bool(v: &serde_json::Value) -> (r: Option<bool>)
    ensures
        r == json_bool(*v),
{
    v.as_bool()
}

/// An unsigned field of a JSON object, required to fit a u32.
pub open spec fn u32_field_of(v: serde_json::Value, key: Seq<char>) -> Option<u32> {
    match json_field(v, key) {
        None => None,
        Some(f) => match json_u64(f) {
            None => None,
            Some(x) => if x <= u32::MAX as u64 {
                Some(x as u32)
            } else {
                None
            },
        },
    }
}

/// A boolean field of a JSON object.
pub open spec fn bool_field_of(v: serde_json::Value, key: Seq<char>) -> Option<bool> {
    match json_field(v, key) {
        None => None,
        Some(f) => json_bool(f),
    }
}

/// The space record that a JSON object denotes, when it supplies all four
/// documented fields; fields beyond those are ignored.
pub open spec fn record_of(v: serde_json::Value) -> Option<SpaceRecord> {
    match u32_field_of(v, "id"@) {
        None => None,
        Some(id) => match u32_field_of(v, "display"@) {
            None => None,
            Some(display) => match bool_field_of(v, "has-focus"@) {
                None => None,
                Some(has_focus) => match bool_field_of(v, "is-visible"@) {
                    None => None,
                    Some(is_visible) => Some(SpaceRecord { id, display, has_focus, is_visible }),
                },
            },
        },
    }
}

/// The records that a sequence of JSON elements denotes, when every element
/// denotes one.
pub open spec fn records_of_elems(es: Seq<serde_json::Value>) -> Option<Seq<SpaceRecord>>
    decreases es.len(),
{
    if es.len() == 0 {
        Some(Seq::empty())
    } else {
        match records_of_elems(es.drop_last()) {
            None => None,
            Some(rs) => match record_of(es.last()) {
                None => None,
                Some(r) => Some(rs.push(r)),
            },
        }
    }
}

/// Whether the text decodes: it parses as a JSON array whose every element
/// denotes a space record.
pub open spec fn spaces_decode_ok(text: Seq<char>) -> bool {
    &&& json_parses(text)
    &&& json_is_array(json_doc(text))
    &&& records_of_elems(json_elements(json_doc(text))) is Some
}

/// The records that the text decodes to, when it decodes.
pub open spec fn spaces_of(text: Seq<char>) -> Seq<SpaceRecord> {
    records_of_elems(json_elements(json_doc(text))).unwrap()
}

/// Once some element fails to denote a record, the whole sequence does.
proof fn lemma_records_none_persists(es: Seq<serde_json::Value>, j: int)
    requires
        0 <= j <= es.len(),
        records_of_elems(es.take(j)) is None,
    ensures
        records_of_elems(es) is None,
    decreases es.len() - j,
{
    if j == es.len() {
        assert(es.take(j) =~= es);
    } else {
        lemma_take_step(es, j);
        lemma_records_none_persists(es, j + 1);
    }
}

/// An unsigned field of a JSON object, required to fit a u32.
fn u32_field(v: &serde_json::Value, key: &str) -> (r: Option<u32>)
    ensures
        r == u32_field_of(*v, key@),
{
    match json_get(v, key) {
        Some(f) => match json_as_u64(f) {
            Some(x) => if x <= u32::MAX as u64 {
                Some(x as u32)
            } else {
                None
            },
            None => None,
        },
        None => None,
    }
}

/// A boolean field of a JSON object.
fn bool_field(v: &serde_json::Value, key: &str) -> (r: Option<bool>)
    ensures
        r == bool_field_of(*v, key@),
{
    match json_get(v, key) {
        Some(f) => json_as_bool(f),
        None => None,
    }
}

/// One space record from one JSON object; fields beyond the four read here
/// are ignored.
fn record_of_value(v: &serde_json::Value) -> (r: Option<SpaceRecord>)
    ensures
        r == record_of(*v),
{
    let id = match u32_field(v, "id") {
        Some(x) => x,
        None => return None,
    };
    let display = match u32_field(v, "display") {
        Some(x) => x,
        None => return None,
    };
    let has_focus = match bool_field(v, "has-focus") {
        Some(x) => x,
        None => return None,
    };
    let is_visible = match bool_field(v, "is-visible") {
        Some(x) => x,
        None => return None,
    };
    Some(SpaceRecord { id, display, has_focus, is_visible })
}

/// Decodes the window manager's query output into space records.
///
/// The text must be a JSON array of objects, each holding the fields `id`
/// and `display` (unsigned numbers within u32 range) and `has-focus` and
/// `is-visible` (booleans); other fields are ignored. Success, the decoded
/// records, and the error kind are each pinned over the named results of
/// the JSON calls: a syntax error exactly when the text does not parse, a
/// structure error exactly when it parses but is no such array.
#[verifier::loop_isolation(false)]
pub fn decode_spaces(text: &str) -> (r: Result<Vec<SpaceRecord>, SpaceError>)
    ensures
        (r is Ok) == spaces_decode_ok(text@),
        r matches Ok(v) ==> v@ == spaces_of(text@),
        (r is Err && r->Err_0 == SpaceError::ParseSyntax) <==> !json_parses(text@),
        (r is Err && r->Err_0 == SpaceError::ParseStructure) <==> (json_parses(text@)
            && !spaces_decode_ok(text@)),
{
    let parsed = match parse_json(text) {
        Ok(v) => v,
        Err(_) => return Err(SpaceError::ParseSyntax),
    };
    let arr = match json_as_array(&parsed) {
        Some(a) => a,
        None => return Err(SpaceError::ParseStructure),
    };
    let mut out: Vec<SpaceRecord> = Vec::new();
    let mut i: usize = 0;
    while i < arr.len()
        invariant
            i <= arr@.len(),
            records_of_elems(arr@.take(i as int)) == Some(out@),
        decreases arr@.len() - i,
    {
        proof {
            lemma_take_step(arr@, i as int);
        }
        let rec = match record_of_value(&arr[i]) {
            Some(rec) => rec,
            None => {
                proof {
                    assert(records_of_elems(arr@.take(i as int + 1)) is None);
                    lemma_records_none_persists(arr@, i as int + 1);
                }
                return Err(SpaceError::ParseStructure);
            },
        };
        out.push(rec);
        i = i + 1;
    }
    proof {
        assert(arr@.take(arr@.len() as int) =~= arr@);
    }
    Ok(out)
}

} // verus!
