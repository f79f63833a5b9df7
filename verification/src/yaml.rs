//! The boundary to `serde_yaml_ng` and `serde_json`: parsing YAML text into the
//! library's own [`Value`], and writing a value as JSON.
//!
//! The functions marked `external_body` and the names without a body are what
//! is believed of the two crates; everything else here is proved.

use vstd::prelude::*;

use serde_yaml_ng::Value as YamlValue;

use crate::double::{canonical, canonical_bits};
use crate::value::{
    contents, entry_contents, integer_view, lemma_entry_smaller, lemma_item_smaller, lemma_mapping_content,
    lemma_sequence_content, same_value, Number, NumberView, Value, ValueView,
};

verus! {

/// `serde_yaml_ng::Value`, a parsed YAML node.
#[verifier::external_type_specification]
#[verifier::external_body]
pub struct ExYamlValue(YamlValue);

/// What a parsed YAML node holds: the tree of its scalars, sequences and
/// mappings, entries in the order of the document. A double that is no number
/// is held as [`crate::double::NOT_A_NUMBER`], and every double with the text
/// that it prints as.
pub uninterp spec fn yaml_content(value: YamlValue) -> ValueView;

/// What `serde_yaml_ng::from_str` makes of a text: the content of the parsed
/// node, or the message of its error.
pub uninterp spec fn yaml_parse(text: Seq<char>) -> Result<ValueView, Seq<char>>;

/// What a double with the given bit pattern prints as, in the shortest decimal
/// notation without an exponent.
pub uninterp spec fn double_text(bits: u64) -> Seq<char>;

/// What `serde_json::to_string` makes of a node with the given content: its JSON
/// text, or nothing where JSON cannot hold it.
pub uninterp spec fn json_text(content: ValueView) -> Option<Seq<char>>;

/// One level of a parsed YAML node.
pub enum YamlNode<'a> {
    Null,
    Bool(bool),
    Number,
    Text(&'a str),
    Sequence(&'a Vec<YamlValue>),
    Mapping(Vec<(&'a YamlValue, &'a YamlValue)>),
    Tagged(String, &'a YamlValue),
}

/// The parts that one level of a YAML node is built from.
pub enum YamlParts {
    Null,
    Bool(bool),
    Unsigned(u64),
    Signed(i64),
    Text(String),
    Sequence(Vec<YamlValue>),
    Mapping(Vec<(YamlValue, YamlValue)>),
}

/// The contents of the entries of a mapping node.
pub open spec fn node_entries(entries: Seq<(YamlValue, YamlValue)>) -> Seq<(ValueView, ValueView)> {
    entries.map_values(|e: (YamlValue, YamlValue)| (yaml_content(e.0), yaml_content(e.1)))
}

/// No two entries have the same key.
pub open spec fn distinct_keys(entries: Seq<(ValueView, ValueView)>) -> bool {
    forall|i: int, j: int|
        0 <= i < j < entries.len() ==> !same_value((#[trigger] entries[i]).0, (#[trigger] entries[j]).0)
}

// ---------------------------------------------------------------------------
// Trusted
// ---------------------------------------------------------------------------

/// `serde_yaml_ng::from_str`: whether the text parses, and into what, or with which
/// message it fails, depends on the text alone. What a given text parses into is
/// not stated: that takes all of the YAML grammar.
#[verifier::external_body]
fn parse_text(text: &str) -> (r: Result<YamlValue, String>)
    ensures
        match r {
            Ok(v) => yaml_parse(text@) == Ok::<ValueView, Seq<char>>(yaml_content(v)),
            Err(e) => yaml_parse(text@) == Err::<ValueView, Seq<char>>(e@),
        },
{
    serde_yaml_ng::from_str(text).map_err(|e| e.to_string())
}

/// One level of a `serde_yaml_ng::Value`: its variant with the fields of that
/// variant. A mapping hands out its entries in their order; a tag is taken as
/// it prints.
#[verifier::external_body]
fn unfold<'a>(value: &'a YamlValue) -> (node: YamlNode<'a>)
    ensures
        match node {
            YamlNode::Null => yaml_content(*value) == ValueView::Null,
            YamlNode::Bool(b) => yaml_content(*value) == ValueView::Bool(b),
            YamlNode::Number => yaml_content(*value) is Number,
            YamlNode::Text(s) => yaml_content(*value) == ValueView::String(s@),
            YamlNode::Sequence(items) => yaml_content(*value) == ValueView::Sequence(
                items@.map_values(|v: YamlValue| yaml_content(v)),
            ),
            YamlNode::Mapping(entries) => yaml_content(*value) == ValueView::Mapping(
                entries@.map_values(
                    |e: (&YamlValue, &YamlValue)| (yaml_content(*e.0), yaml_content(*e.1)),
                ),
            ),
            YamlNode::Tagged(tag, inner) => yaml_content(*value) == ValueView::Tagged(
                tag@,
                Box::new(yaml_content(*inner)),
            ),
        },
{
    match value {
        YamlValue::Null => YamlNode::Null,
        YamlValue::Bool(b) => YamlNode::Bool(*b),
        YamlValue::Number(_) => YamlNode::Number,
        YamlValue::String(s) => YamlNode::Text(s),
        YamlValue::Sequence(items) => YamlNode::Sequence(items),
        YamlValue::Mapping(map) => YamlNode::Mapping(map.iter().collect()),
        YamlValue::Tagged(t) => YamlNode::Tagged(t.tag.to_string(), &t.value),
    }
}

/// `Value::as_u64` on a number: the integer, where it is one from zero up.
#[verifier::external_body]
fn number_u64(value: &YamlValue) -> (r: Option<u64>)
    ensures
        yaml_content(*value) matches ValueView::Number(n) ==> r == (match n {
            NumberView::PosInt(u) => Some(u),
            _ => None,
        }),
{
    value.as_u64()
}

/// `Value::as_i64` on a number: the integer, where it fits.
#[verifier::external_body]
fn number_i64(value: &YamlValue) -> (r: Option<i64>)
    ensures
        yaml_content(*value) matches ValueView::Number(n) ==> r == n.as_i64(),
{
    value.as_i64()
}

/// `Value::as_f64` on a double, and its bit pattern by `to_bits` of std.
#[verifier::external_body]
fn number_bits(value: &YamlValue) -> (r: u64)
    ensures
        yaml_content(*value) matches ValueView::Number(NumberView::Float { bits, text })
            ==> canonical(r) == bits,
{
    value.as_f64().unwrap_or_default().to_bits()
}

/// `Value::as_f64` on a number gives the nearest double, ties to even; `to_string`
/// of std gives the text that it prints as, which depends on the double alone.
#[verifier::external_body]
fn number_text(value: &YamlValue) -> (r: String)
    ensures
        yaml_content(*value) matches ValueView::Number(n) ==> r@ == double_text(n.double()) && (
        n matches NumberView::Float { bits, text } ==> r@ == text),
{
    value.as_f64().unwrap_or_default().to_string()
}

/// Builds one level of a `serde_yaml_ng::Value`. Collecting entries into a
/// mapping keeps them all, in order, where no two keys are the same.
#[verifier::external_body]
fn fold(parts: YamlParts) -> (value: YamlValue)
    requires
        parts matches YamlParts::Mapping(entries) ==> distinct_keys(node_entries(entries@)),
    ensures
        match parts {
            YamlParts::Null => yaml_content(value) == ValueView::Null,
            YamlParts::Bool(b) => yaml_content(value) == ValueView::Bool(b),
            YamlParts::Unsigned(n) => yaml_content(value) == ValueView::Number(
                NumberView::PosInt(n),
            ),
            YamlParts::Signed(n) => yaml_content(value) == integer_view(n as int),
            YamlParts::Text(s) => yaml_content(value) == ValueView::String(s@),
            YamlParts::Sequence(items) => yaml_content(value) == ValueView::Sequence(
                items@.map_values(|v: YamlValue| yaml_content(v)),
            ),
            YamlParts::Mapping(entries) => yaml_content(value) == ValueView::Mapping(
                node_entries(entries@),
            ),
        },
{
    match parts {
        YamlParts::Null => YamlValue::Null,
        YamlParts::Bool(b) => YamlValue::from(b),
        YamlParts::Unsigned(n) => YamlValue::from(n),
        YamlParts::Signed(n) => YamlValue::from(n),
        YamlParts::Text(s) => YamlValue::from(s),
        YamlParts::Sequence(items) => YamlValue::from(items),
        YamlParts::Mapping(entries) => YamlValue::Mapping(entries.into_iter().collect()),
    }
}

/// `serde_json::to_string` on a YAML node: its JSON, or that there is none, depends
/// on its content alone. What the JSON of a given content looks like is not stated.
#[verifier::external_body]
fn node_json(value: &YamlValue) -> (r: Option<String>)
    ensures
        match r {
            Some(s) => json_text(yaml_content(*value)) == Some(s@),
            None => json_text(yaml_content(*value)) is None,
        },
{
    serde_json::to_string(value).ok()
}

// ---------------------------------------------------------------------------
// From YAML
// ---------------------------------------------------------------------------

/// The value that a parsed YAML node holds.
pub fn from_yaml(value: &YamlValue) -> (r: Value)
    ensures
        r@ == yaml_content(*value),
    decreases yaml_content(*value),
{
    match unfold(value) {
        YamlNode::Null => Value::Null,
        YamlNode::Bool(b) => Value::Bool(b),
        YamlNode::Number => {
            if let Some(n) = number_u64(value) {
                return Value::Number(Number::PosInt(n));
            }
            if let Some(n) = number_i64(value) {
                return Value::Number(Number::NegInt(n));
            }
            let bits: u64 = canonical_bits(number_bits(value));
            Value::Number(Number::Float { bits, text: number_text(value) })
        },
        YamlNode::Text(s) => Value::String(s.to_string()),
        YamlNode::Sequence(items) => {
            let ghost all = items@.map_values(|v: YamlValue| yaml_content(v));
            let mut out: Vec<Value> = Vec::new();
            for i in 0..items.len()
                invariant
                    out@.len() == i,
                    all == items@.map_values(|v: YamlValue| yaml_content(v)),
                    yaml_content(*value) == ValueView::Sequence(all),
                    forall|j: int| 0 <= j < i ==> (#[trigger] out@[j])@ == all[j],
            {
                proof {
                    assert(yaml_content(*value)->Sequence_0 == all);
                    assert(all[i as int] == yaml_content(items@[i as int]));
                    assert(decreases_to!(yaml_content(*value) => all[i as int]));
                }
                out.push(from_yaml(&items[i]));
            }
            let r = Value::Sequence(out);
            assert(r@->Sequence_0 =~= all);
            r
        },
        YamlNode::Mapping(entries) => {
            let ghost all = entries@.map_values(
                |e: (&YamlValue, &YamlValue)| (yaml_content(*e.0), yaml_content(*e.1)),
            );
            let mut out: Vec<(Value, Value)> = Vec::new();
            for i in 0..entries.len()
                invariant
                    out@.len() == i,
                    all == entries@.map_values(
                        |e: (&YamlValue, &YamlValue)| (yaml_content(*e.0), yaml_content(*e.1)),
                    ),
                    yaml_content(*value) == ValueView::Mapping(all),
                    forall|j: int|
                        0 <= j < i ==> (#[trigger] out@[j]).0@ == all[j].0 && out@[j].1@ == all[j].1,
            {
                proof {
                    assert(yaml_content(*value)->Mapping_0 == all);
                    assert(all[i as int] == (
                        yaml_content(*entries@[i as int].0),
                        yaml_content(*entries@[i as int].1),
                    ));
                    assert(decreases_to!(yaml_content(*value) => all[i as int]));
                    assert(decreases_to!(all[i as int] => all[i as int].0));
                    assert(decreases_to!(all[i as int] => all[i as int].1));
                    assert(decreases_to!(yaml_content(*value) => all[i as int].0));
                    assert(decreases_to!(yaml_content(*value) => all[i as int].1));
                }
                let key = from_yaml(entries[i].0);
                let item = from_yaml(entries[i].1);
                out.push((key, item));
            }
            let r = Value::Mapping(out);
            assert(r@->Mapping_0 =~= all);
            r
        },
        YamlNode::Tagged(tag, inner) => {
            proof {
                assert(yaml_content(*value)->Tagged_1 == Box::new(yaml_content(*inner)));
                assert(decreases_to!(yaml_content(*value) => *(yaml_content(*value)->Tagged_1)));
            }
            let r = from_yaml(inner);
            Value::Tagged(tag, Box::new(r))
        },
    }
}

/// Parses YAML text.
pub fn parse_yaml(text: &str) -> (r: Result<Value, String>)
    ensures
        match r {
            Ok(v) => yaml_parse(text@) == Ok::<ValueView, Seq<char>>(v@),
            Err(e) => yaml_parse(text@) == Err::<ValueView, Seq<char>>(e@),
        },
{
    match parse_text(text) {
        Ok(node) => Ok(from_yaml(&node)),
        Err(e) => Err(e),
    }
}

/// The text that the double nearest to a number prints as.
pub open spec fn printed(n: NumberView) -> Seq<char> {
    match n {
        NumberView::Float { bits, text } => text,
        _ => double_text(n.double()),
    }
}

/// The text that the double nearest to a number prints as.
pub fn printed_double(n: &Number) -> (r: String)
    ensures
        r@ == printed(n@),
{
    match n {
        Number::PosInt(u) => number_text(&fold(YamlParts::Unsigned(*u))),
        Number::NegInt(i) => number_text(&fold(YamlParts::Signed(*i))),
        Number::Float { text, .. } => text.clone(),
    }
}

// ---------------------------------------------------------------------------
// To JSON
// ---------------------------------------------------------------------------

/// Whether a value can be written back as a YAML node without loss of content:
/// it holds no double and no tag, negative integers are negative, and no
/// mapping has the same key twice.
pub open spec fn rebuildable(v: ValueView) -> bool
    decreases v,
{
    match v {
        ValueView::Null | ValueView::Bool(_) | ValueView::String(_) => true,
        ValueView::Number(NumberView::PosInt(_)) => true,
        ValueView::Number(NumberView::NegInt(n)) => n < 0,
        ValueView::Number(NumberView::Float { .. }) => false,
        ValueView::Sequence(items) => forall|i: int|
            #![trigger items[i]]
            0 <= i < items.len() ==> rebuildable(items[i]),
        ValueView::Mapping(entries) => {
            &&& distinct_keys(entries)
            &&& forall|i: int|
                0 <= i < entries.len() ==> rebuildable_entry(#[trigger] entries[i])
        },
        ValueView::Tagged(..) => false,
    }
}

pub open spec fn rebuildable_entry(e: (ValueView, ValueView)) -> bool
    decreases e,
{
    rebuildable(e.0) && rebuildable(e.1)
}

/// Writes a value as a YAML node.
fn to_yaml(value: &Value) -> (r: YamlValue)
    requires
        rebuildable(value@),
    ensures
        yaml_content(r) == value@,
    decreases value,
{
    match value {
        Value::Null => fold(YamlParts::Null),
        Value::Bool(b) => fold(YamlParts::Bool(*b)),
        Value::Number(Number::PosInt(n)) => fold(YamlParts::Unsigned(*n)),
        Value::Number(Number::NegInt(n)) => fold(YamlParts::Signed(*n)),
        Value::Number(Number::Float { .. }) => fold(YamlParts::Null),
        Value::String(s) => fold(YamlParts::Text(s.clone())),
        Value::Sequence(items) => {
            proof {
                lemma_sequence_content(*value);
            }
            let ghost all = value@->Sequence_0;
            assert(forall|i: int| 0 <= i < all.len() ==> rebuildable(#[trigger] all[i])) by {
                reveal_with_fuel(rebuildable, 2);
            }
            let mut out: Vec<YamlValue> = Vec::new();
            for i in 0..items.len()
                invariant
                    *value == Value::Sequence(*items),
                    all == contents(items@),
                    forall|j: int| 0 <= j < all.len() ==> rebuildable(#[trigger] all[j]),
                    out@.len() == i,
                    forall|j: int| 0 <= j < i ==> yaml_content(#[trigger] out@[j]) == all[j],
            {
                proof {
                    lemma_item_smaller(*value, i as int);
                    assert(items@[i as int]@ == all[i as int]);
                }
                out.push(to_yaml(&items[i]));
            }
            assert(out@.map_values(|v: YamlValue| yaml_content(v)) =~= all);
            fold(YamlParts::Sequence(out))
        },
        Value::Mapping(entries) => {
            proof {
                lemma_mapping_content(*value);
            }
            let ghost all = value@->Mapping_0;
            let mut out: Vec<(YamlValue, YamlValue)> = Vec::new();
            for i in 0..entries.len()
                invariant
                    *value == Value::Mapping(*entries),
                    rebuildable(value@),
                    value@ == ValueView::Mapping(all),
                    all == entry_contents(entries@),
                    out@.len() == i,
                    forall|j: int|
                        0 <= j < i ==> (
                        yaml_content((#[trigger] out@[j]).0),
                        yaml_content(out@[j].1),
                        ) == all[j],
            {
                proof {
                    lemma_entry_smaller(*value, i as int);
                    assert(rebuildable_entry(all[i as int]));
                }
                out.push((to_yaml(&entries[i].0), to_yaml(&entries[i].1)));
            }
            assert(node_entries(out@) =~= all);
            fold(YamlParts::Mapping(out))
        },
        Value::Tagged(..) => fold(YamlParts::Null),
    }
}

/// The JSON text of a value.
pub(crate) fn value_json(value: &Value) -> (r: Option<String>)
    requires
        rebuildable(value@),
    ensures
        match r {
            Some(s) => json_text(value@) == Some(s@),
            None => json_text(value@) is None,
        },
{
    node_json(&to_yaml(value))
}

/// The JSON text of what a YAML text parses into, where it parses and JSON can
/// hold it.
pub(crate) fn yaml_json(text: &str) -> (r: Option<String>)
    ensures
        match (r, yaml_parse(text@)) {
            (Some(s), Ok(v)) => json_text(v) == Some(s@),
            (None, Ok(v)) => json_text(v) is None,
            (_, Err(_)) => r is None,
        },
{
    match parse_text(text) {
        Ok(node) => node_json(&node),
        Err(_) => None,
    }
}

} // verus!
