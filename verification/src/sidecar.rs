//! The saved form of an index: a JSON document with the members `version`,
//! `records` and `fields`, as text.
//!
//! The functions marked `external_body` and the names without a body are what is
//! believed of `serde_json`; everything else here is proved.

use std::collections::BTreeMap;
use vstd::prelude::*;

use serde_json::Value as JsonValue;

use crate::index::{
    fields_map, records_map, Index, IndexError, IndexView, SavedField, SavedIndex, INDEX_VERSION,
};

verus! {

/// `serde_json::Value`, a JSON document or a part of one.
#[verifier::external_type_specification]
#[verifier::external_body]
pub struct ExJsonValue(JsonValue);

/// What `serde_json::from_str` makes of a text: the document, where the text is one.
pub uninterp spec fn json_document(text: Seq<char>) -> Option<JsonValue>;

/// What `Value::get` gives for a key: the member of an object under it.
pub uninterp spec fn json_member(doc: JsonValue, key: Seq<char>) -> Option<JsonValue>;

/// What `Value::as_u64` gives: the integer from zero up that a part is.
pub uninterp spec fn json_unsigned(part: JsonValue) -> Option<u64>;

/// What `serde_json::from_value` makes of a part as a map from texts to pairs of
/// integers.
pub uninterp spec fn json_records(part: JsonValue) -> Option<Map<Seq<char>, (u64, u64)>>;

/// What `serde_json::from_value` makes of a part as a map from texts to maps from
/// texts to lists of texts.
pub uninterp spec fn json_fields(part: JsonValue) -> Option<
    Map<Seq<char>, Map<Seq<char>, Seq<Seq<char>>>>,
>;

/// What `Value::from` makes of an integer.
pub uninterp spec fn unsigned_part(n: u64) -> JsonValue;

/// What `serde_json::to_value` makes of a map from texts to pairs of integers.
pub uninterp spec fn records_part(records: Map<Seq<char>, (u64, u64)>) -> JsonValue;

/// What `serde_json::to_value` makes of a map from texts to maps from texts to lists
/// of texts.
pub uninterp spec fn fields_part(
    fields: Map<Seq<char>, Map<Seq<char>, Seq<Seq<char>>>>,
) -> JsonValue;

/// What `Value::from_iter` makes of a list of members: an object.
pub uninterp spec fn object_of(members: Seq<(Seq<char>, JsonValue)>) -> JsonValue;

/// What `serde_json::to_string` makes of a document.
pub uninterp spec fn json_written(doc: JsonValue) -> Seq<char>;

/// The value of the last member with that key.
pub open spec fn last_member(members: Seq<(Seq<char>, JsonValue)>, key: Seq<char>) -> Option<
    JsonValue,
>
    decreases members.len(),
{
    if members.len() == 0 {
        None
    } else if members.last().0 == key {
        Some(members.last().1)
    } else {
        last_member(members.drop_last(), key)
    }
}

/// The keys of a list of members by their texts.
pub open spec fn member_views(members: Seq<(String, JsonValue)>) -> Seq<(Seq<char>, JsonValue)> {
    members.map_values(|m: (String, JsonValue)| (m.0@, m.1))
}

/// A part that was made from an integer, a record map or a field map.
pub open spec fn is_made_part(part: JsonValue) -> bool {
    ||| exists|n: u64| part == #[trigger] unsigned_part(n)
    ||| exists|m: Map<Seq<char>, (u64, u64)>| part == #[trigger] records_part(m)
    ||| exists|m: Map<Seq<char>, Map<Seq<char>, Seq<Seq<char>>>>| part == #[trigger] fields_part(m)
}

/// An object whose members are all such parts: it holds no doubles and is not deep.
pub open spec fn is_made_object(doc: JsonValue) -> bool {
    exists|members: Seq<(Seq<char>, JsonValue)>|
        doc == #[trigger] object_of(members) && all_made_parts(members)
}

pub open spec fn all_made_parts(members: Seq<(Seq<char>, JsonValue)>) -> bool {
    forall|i: int| 0 <= i < members.len() ==> is_made_part((#[trigger] members[i]).1)
}

// ---------------------------------------------------------------------------
// Trusted
// ---------------------------------------------------------------------------

/// `serde_json::from_str` into a document: whether the text is one, and which,
/// depends on the text alone. What a given text gives is not stated but for texts
/// that [`write_document`] wrote.
#[verifier::external_body]
fn parse_document(text: &str) -> (r: Option<JsonValue>)
    ensures
        r == json_document(text@),
{
    serde_json::from_str(text).ok()
}

/// `Value::get`: a copy of the member of an object under a key. Nothing for a
/// document that is no object or lacks the key.
#[verifier::external_body]
fn member(doc: &JsonValue, key: &str) -> (r: Option<JsonValue>)
    ensures
        r == json_member(*doc, key@),
{
    doc.get(key).cloned()
}

/// `Value::as_u64`: the integer from zero up that a part is.
#[verifier::external_body]
fn unsigned_of(part: &JsonValue) -> (r: Option<u64>)
    ensures
        r == json_unsigned(*part),
{
    part.as_u64()
}

/// `serde_json::from_value` into a map from texts to pairs of integers, with its
/// entries handed out as a list; nothing for a part of another form.
#[verifier::external_body]
fn records_of(part: JsonValue) -> (r: Option<Vec<(String, (u64, u64))>>)
    ensures
        match r {
            Some(list) => json_records(part) == Some(records_map(list@)),
            None => json_records(part) is None,
        },
{
    let map: Option<BTreeMap<String, (u64, u64)>> = serde_json::from_value(part).ok();
    map.map(|m| m.into_iter().collect())
}

/// `serde_json::from_value` into a map from texts to maps from texts to lists of
/// texts, with its entries handed out as lists; nothing for a part of another form.
#[verifier::external_body]
fn fields_of(part: JsonValue) -> (r: Option<Vec<SavedField>>)
    ensures
        match r {
            Some(list) => json_fields(part) == Some(fields_map(list@)),
            None => json_fields(part) is None,
        },
{
    let map: Option<BTreeMap<String, BTreeMap<String, Vec<String>>>> = serde_json::from_value(
        part,
    ).ok();
    map.map(|m| {
        m.into_iter().map(|(name, keys)| SavedField { name, keys: keys.into_iter().collect() })
            .collect()
    })
}

/// `Value::from` an integer, which `Value::as_u64` gives back.
#[verifier::external_body]
fn make_unsigned(n: u64) -> (r: JsonValue)
    ensures
        r == unsigned_part(n),
        json_unsigned(r) == Some(n),
{
    JsonValue::from(n)
}

/// `serde_json::to_value` of a map from texts to pairs of integers. It fails only for
/// keys that are no texts, which there are none of; `serde_json::from_value` gives
/// the map back.
#[verifier::external_body]
fn make_records(list: Vec<(String, (u64, u64))>) -> (r: Result<JsonValue, String>)
    ensures
        r is Ok,
        r->Ok_0 == records_part(records_map(list@)),
        json_records(r->Ok_0) == Some(records_map(list@)),
{
    let map: BTreeMap<String, (u64, u64)> = list.into_iter().collect();
    serde_json::to_value(map).map_err(|e| e.to_string())
}

/// `serde_json::to_value` of a map from texts to maps from texts to lists of texts.
/// It fails only for keys that are no texts, which there are none of;
/// `serde_json::from_value` gives the map back.
#[verifier::external_body]
fn make_fields(list: Vec<SavedField>) -> (r: Result<JsonValue, String>)
    ensures
        r is Ok,
        r->Ok_0 == fields_part(fields_map(list@)),
        json_fields(r->Ok_0) == Some(fields_map(list@)),
{
    let map: BTreeMap<String, BTreeMap<String, Vec<String>>> = list.into_iter().map(
        |f| (f.name, f.keys.into_iter().collect()),
    ).collect();
    serde_json::to_value(map).map_err(|e| e.to_string())
}

/// `Value::from_iter` of a list of members: an object that has under each key the
/// last member with it.
#[verifier::external_body]
fn make_object(members: Vec<(String, JsonValue)>) -> (r: JsonValue)
    ensures
        r == object_of(member_views(members@)),
        forall|key: Seq<char>| #[trigger]
            json_member(r, key) == last_member(member_views(members@), key),
{
    JsonValue::from_iter(members)
}

/// `serde_json::to_string` of a document, which never fails: the text depends on the
/// document alone. Of an object that was made here, `serde_json::from_str` gives it
/// back. What the text looks like is not stated.
#[verifier::external_body]
fn write_document(doc: &JsonValue) -> (r: Result<String, String>)
    ensures
        r is Ok,
        r->Ok_0@ == json_written(*doc),
        is_made_object(*doc) ==> json_document(r->Ok_0@) == Some(*doc),
{
    serde_json::to_string(doc).map_err(|e| e.to_string())
}

// ---------------------------------------------------------------------------
// Reading and writing an index
// ---------------------------------------------------------------------------

/// The index that a text holds: nothing unless it is a JSON document whose member
/// `version` is the present version and whose members `records` and `fields` are
/// maps of the right form.
pub open spec fn read_index(text: Seq<char>) -> Option<IndexView> {
    match json_document(text) {
        None => None,
        Some(doc) => match json_member(doc, "version"@) {
            None => None,
            Some(version) => if json_unsigned(version) != Some(INDEX_VERSION) {
                None
            } else {
                match (json_member(doc, "records"@), json_member(doc, "fields"@)) {
                    (Some(r), Some(f)) => match (json_records(r), json_fields(f)) {
                        (Some(records), Some(fields)) => Some(IndexView { records, fields }),
                        _ => None,
                    },
                    _ => None,
                }
            },
        },
    }
}

/// The members of the document that an index is saved as.
pub open spec fn index_members(ix: IndexView) -> Seq<(Seq<char>, JsonValue)> {
    seq![
        ("version"@, unsigned_part(INDEX_VERSION)),
        ("records"@, records_part(ix.records)),
        ("fields"@, fields_part(ix.fields)),
    ]
}

/// The text that an index is saved as.
pub open spec fn index_text(ix: IndexView) -> Seq<char> {
    json_written(object_of(index_members(ix)))
}

impl Index {
    /// The text that the index is saved as. Reading it gives the index back: the same
    /// signatures, and the same paths under every field and key.
    pub fn to_json(&self) -> (r: Result<String, IndexError>)
        ensures
            r matches Ok(text) && text@ == index_text(self@) && read_index(text@) == Some(self@),
    {
        let saved = self.save();
        let SavedIndex { version, records, fields } = saved;
        let version_part = make_unsigned(version);
        let records_value = match make_records(records) {
            Ok(v) => v,
            Err(e) => {
                return Err(IndexError::Serialize(e));
            },
        };
        let fields_value = match make_fields(fields) {
            Ok(v) => v,
            Err(e) => {
                return Err(IndexError::Serialize(e));
            },
        };
        let mut members: Vec<(String, JsonValue)> = Vec::new();
        members.push(("version".to_string(), version_part));
        members.push(("records".to_string(), records_value));
        members.push(("fields".to_string(), fields_value));
        let ghost all = index_members(self@);
        proof {
            assert(member_views(members@) =~= all);
            lemma_index_members(self@);
        }
        let doc = make_object(members);
        proof {
            assert(all_made_parts(all)) by {
                assert forall|i: int| 0 <= i < all.len() implies is_made_part(
                    (#[trigger] all[i]).1,
                ) by {
                    if i == 0 {
                        assert(all[i].1 == unsigned_part(INDEX_VERSION));
                    } else if i == 1 {
                        assert(all[i].1 == records_part(self@.records));
                    } else {
                        assert(all[i].1 == fields_part(self@.fields));
                    }
                }
            }
            assert(doc == object_of(all));
            assert(json_member(doc, "version"@) == Some(unsigned_part(INDEX_VERSION)));
            assert(json_member(doc, "records"@) == Some(records_part(self@.records)));
            assert(json_member(doc, "fields"@) == Some(fields_part(self@.fields)));
        }
        match write_document(&doc) {
            Ok(text) => Ok(text),
            Err(e) => Err(IndexError::Serialize(e)),
        }
    }

    /// The index that a text holds, where it is the saved form of one of the present
    /// version.
    pub fn from_json(text: &str) -> (r: Option<Index>)
        ensures
            match (r, read_index(text@)) {
                (Some(ix), Some(expected)) => ix@ == expected,
                (None, None) => true,
                _ => false,
            },
    {
        let doc = match parse_document(text) {
            Some(doc) => doc,
            None => {
                return None;
            },
        };
        let version = match member(&doc, "version") {
            Some(v) => match unsigned_of(&v) {
                Some(n) => n,
                None => {
                    return None;
                },
            },
            None => {
                return None;
            },
        };
        let records = match member(&doc, "records") {
            Some(v) => match records_of(v) {
                Some(list) => list,
                None => {
                    return None;
                },
            },
            None => {
                return None;
            },
        };
        let fields = match member(&doc, "fields") {
            Some(v) => match fields_of(v) {
                Some(list) => list,
                None => {
                    return None;
                },
            },
            None => {
                return None;
            },
        };
        Index::load(SavedIndex { version, records, fields })
    }
}

/// A text that is no JSON document, or a document of another version, or one that
/// lacks a member, holds no index.
pub proof fn law_only_present_version_is_read(text: Seq<char>)
    ensures
        json_document(text) is None ==> read_index(text) is None,
        json_document(text) matches Some(doc) ==> {
            let version = json_member(doc, "version"@);
            &&& version is None ==> read_index(text) is None
            &&& version is Some && json_unsigned(version->Some_0) != Some(INDEX_VERSION)
                ==> read_index(text) is None
            &&& json_member(doc, "records"@) is None ==> read_index(text) is None
            &&& json_member(doc, "fields"@) is None ==> read_index(text) is None
        },
{
}

/// The saved document has each of its members under its own key.
proof fn lemma_index_members(ix: IndexView)
    ensures
        ({
            let all = index_members(ix);
            &&& last_member(all, "version"@) == Some(unsigned_part(INDEX_VERSION))
            &&& last_member(all, "records"@) == Some(records_part(ix.records))
            &&& last_member(all, "fields"@) == Some(fields_part(ix.fields))
        }),
{
    reveal_strlit("version");
    reveal_strlit("records");
    reveal_strlit("fields");
    let all = index_members(ix);
    let two = all.drop_last();
    let one = two.drop_last();
    assert(two.last() == all[1]);
    assert(one.last() == all[0]);
    assert("version"@[0] == 'v' && "records"@[0] == 'r' && "fields"@[0] == 'f');
    reveal_with_fuel(last_member, 4);
}

} // verus!
