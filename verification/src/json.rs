//! JSON values and the label-to-entry maps that message sections are made of.
//!
//! A value is modelled by its compact JSON text, a map by the sequence of its
//! labels and the compact JSON texts of their entries, in the map's order.
use crate::text;
use indexmap::IndexMap;
use serde_json::Value;
use vstd::prelude::*;
use vstd::string::*;

verus! {

/// The entries of one message section: label to message entry, in order.
pub type Entries = IndexMap<String, Value>;

/// The JSON value of `serde_json`.
#[verifier::external_type_specification]
#[verifier::external_body]
pub struct ExValue(Value);

/// The error of `serde_json`.
#[verifier::external_type_specification]
#[verifier::external_body]
pub struct ExJsonError(serde_json::Error);

/// The order-keeping map of `indexmap`.
#[verifier::external_type_specification]
#[verifier::external_body]
#[verifier::reject_recursive_types(K)]
#[verifier::reject_recursive_types(V)]
#[verifier::reject_recursive_types(S)]
pub struct ExIndexMap<K, V, S>(IndexMap<K, V, S>);

/// What a JSON value holds, as its compact JSON text.
pub uninterp spec fn json_text(value: Value) -> Seq<char>;

/// What a map of entries holds: each label with the compact JSON text of its
/// entry, in the order in which the map keeps them.
pub uninterp spec fn entry_list(entries: IndexMap<String, Value>) -> Seq<(Seq<char>, Seq<char>)>;

/// What `serde_json::from_str` reads a text as; `None` where it rejects it.
pub uninterp spec fn parsed_json(text: Seq<char>) -> Option<Seq<char>>;

/// What `serde_json::Value::get` finds under a key; `None` where the value is
/// no object or lacks the key.
pub uninterp spec fn json_member(text: Seq<char>, key: Seq<char>) -> Option<Seq<char>>;

/// What `serde_json::from_value` makes of a value as a map of entries; `None`
/// where it rejects it.
pub uninterp spec fn object_entries(text: Seq<char>) -> Option<Seq<(Seq<char>, Seq<char>)>>;

/// What `serde_json::to_string` writes for a map of entries.
pub uninterp spec fn entries_json(entries: Seq<(Seq<char>, Seq<char>)>) -> Seq<char>;

/// The JSON text that wraps the entries of a section together with their
/// number.
pub open spec fn envelope(group_count: nat, entries: Seq<char>) -> Seq<char> {
    "{\"group_count\":"@ + text::decimal(group_count) + ",\"entries\":"@ + entries + "}"@
}

/// Whether the text of a JSON value is that of an object.
pub open spec fn is_object_text(text: Seq<char>) -> bool {
    text.len() > 0 && text[0] == '{'
}

/// The entries that a wrapped section holds; `None` where the text is no
/// JSON, has no `entries`, or they are not an object of entries.
pub open spec fn blob_entries(blob: Seq<char>) -> Option<Seq<(Seq<char>, Seq<char>)>> {
    match parsed_json(blob) {
        None => None,
        Some(value) => match json_member(value, "entries"@) {
            None => None,
            Some(entries) => if is_object_text(entries) {
                object_entries(entries)
            } else {
                None
            },
        },
    }
}

/// Parses a JSON text.
///
/// Calls `serde_json::from_str`. Believed of it: whether it succeeds, and the
/// value it returns, depend on the text alone.
#[verifier::external_body]
fn parse_json(text: &str) -> (r: Result<Value, serde_json::Error>)
    ensures
        match r {
            Ok(value) => parsed_json(text@) == Some(json_text(value)),
            Err(_) => parsed_json(text@) is None,
        },
{
    serde_json::from_str(text)
}

/// Looks up a member of a JSON object.
///
/// Calls `serde_json::Value::get`. Believed of it: whether there is a member,
/// and what it is, depend on the value and the key alone.
#[verifier::external_body]
fn get_member<'a>(value: &'a Value, key: &str) -> (r: Option<&'a Value>)
    ensures
        match r {
            Some(member) => json_member(json_text(*value), key@) == Some(json_text(*member)),
            None => json_member(json_text(*value), key@) is None,
        },
{
    value.get(key)
}

/// Tells whether a JSON value is an object.
///
/// Calls `serde_json::Value::is_object`. Believed of it: objects are the
/// values whose JSON text starts with a brace.
#[verifier::external_body]
fn is_object(value: &Value) -> (r: bool)
    ensures
        r == is_object_text(json_text(*value)),
{
    value.is_object()
}

/// Takes a JSON value as a map of entries.
///
/// Calls `serde_json::from_value`. Believed of it: whether it succeeds, and
/// the contents of the map it returns, depend on the value alone.
#[verifier::external_body]
fn value_entries(value: &Value) -> (r: Result<Entries, serde_json::Error>)
    ensures
        match r {
            Ok(entries) => object_entries(json_text(*value)) == Some(entry_list(entries)),
            Err(_) => object_entries(json_text(*value)) is None,
        },
{
    serde_json::from_value(value.clone())
}

/// Writes a map of entries as compact JSON.
///
/// Calls `serde_json::to_string`. Believed of it: it succeeds, the labels being
/// strings and every JSON value having a text, and what it returns depends on
/// the map's contents alone. The text is that of a JSON object from which the
/// same contents are read again, also out of an envelope around it, provided
/// that the envelope parses (a text that is nested too deeply does not).
#[verifier::external_body]
pub(crate) fn entries_to_json(entries: &Entries) -> (r: Result<String, serde_json::Error>)
    ensures
        r is Ok,
        r matches Ok(s) ==> {
            &&& s@ == entries_json(entry_list(*entries))
            &&& is_object_text(s@)
            &&& object_entries(s@) == Some(entry_list(*entries))
            &&& forall|n: nat|
                (#[trigger] parsed_json(envelope(n, s@))) is Some ==> json_member(
                    parsed_json(envelope(n, s@))->0,
                    "entries"@,
                ) == Some(s@)
        },
{
    serde_json::to_string(entries)
}

/// Counts the entries of a map.
///
/// Calls `indexmap::IndexMap::len`. Believed of it: it is the number of the
/// map's labels.
#[verifier::external_body]
pub(crate) fn entries_len(entries: &Entries) -> (r: usize)
    ensures
        r == entry_list(*entries).len(),
{
    entries.len()
}

/// Wraps the JSON text of a section's entries together with their number.
pub fn wrap_entries(group_count: u32, entries: &str) -> (r: String)
    ensures
        r@ == envelope(group_count as nat, entries@),
{
    let mut out: String = String::from_str("{\"group_count\":");
    text::append_decimal(&mut out, group_count as u64);
    out.append(",\"entries\":");
    out.append(entries);
    out.append("}");
    out
}

/// Takes the entries out of a wrapped section; see [`blob_entries`].
pub fn unwrap_entries(blob: &str) -> (r: Option<Entries>)
    ensures
        match r {
            Some(entries) => blob_entries(blob@) == Some(entry_list(entries)),
            None => blob_entries(blob@) is None,
        },
{
    match parse_json(blob) {
        Err(_) => None,
        Ok(value) => match get_member(&value, "entries") {
            None => None,
            Some(member) => if is_object(member) {
                match value_entries(member) {
                    Ok(entries) => Some(entries),
                    Err(_) => None,
                }
            } else {
                None
            },
        },
    }
}

/// The entries of a wrapped section are those of the object that the member
/// `entries` of its JSON text is, and there are some only if it is one.
pub proof fn entries_are_those_of_the_member(
    blob: Seq<char>,
    entries: Seq<(Seq<char>, Seq<char>)>,
)
    ensures
        blob_entries(blob) == Some(entries) <==> exists|value: Seq<char>, member: Seq<char>|
            {
                &&& parsed_json(blob) == Some(value)
                &&& #[trigger] json_member(value, "entries"@) == Some(member)
                &&& member.len() > 0
                &&& member[0] == '{'
                &&& #[trigger] object_entries(member) == Some(entries)
            },
{
    if blob_entries(blob) == Some(entries) {
        let value = parsed_json(blob)->0;
        let member = json_member(value, "entries"@)->0;
        assert(object_entries(member) == Some(entries));
    }
}

/// The wrapped entries of a section are an object with two members: the number,
/// in decimal notation, and the entries as they are.
pub proof fn envelope_has_two_members(group_count: nat, entries: Seq<char>)
    ensures
        exists|count: Seq<char>|
            {
                &&& envelope(group_count, entries) == #[trigger] ("{\"group_count\":"@ + count
                    + ",\"entries\":"@ + entries + "}"@)
                &&& count.len() > 0
                &&& forall|i: int|
                    0 <= i < count.len() ==> 48 <= (#[trigger] count[i]) as int <= 57
                &&& count.len() > 1 ==> count[0] != '0'
                &&& text::digits_value(count) == group_count
            },
{
    let count = text::decimal(group_count);
    text::decimal_reads_back(group_count);
    text::no_needless_zeros(group_count);
    assert forall|i: int| 0 <= i < count.len() implies 48 <= (#[trigger] count[i]) as int <= 57 by {
        assert('0' <= count[i] <= '9');
    }
    assert(envelope(group_count, entries) == "{\"group_count\":"@ + count + ",\"entries\":"@
        + entries + "}"@);
}

} // verus!
