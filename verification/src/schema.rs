//! Schema parsing for collection `schema.md` files.
//!
//! A schema is the frontmatter of a `schema.md` file: the collection's name and
//! its typed fields. The body of the file is free-form documentation.

use vstd::prelude::*;
use vstd::slice::slice_subrange;

use crate::frontmatter::{file_split, split};
use crate::text::{
    begins_text, chars_of, copy_texts, glue2, glue3, is_space, join, join_texts, lemma_join_split,
    lemma_split_on_len, lemma_split_pieces, lemma_trim, lemma_trim_same, pieces, same_text, spells,
    split_on, starts_with, text_of, text_views, trim, trimmed, views,
};
use crate::value::{contents, Number, NumberView, Value, ValueView};

verus! {

/// Why a schema could not be read.
#[derive(Debug)]
pub enum SchemaError {
    NotAMapping,
    MissingCollection,
    MissingFields,
    FieldNotAMapping,
    MissingFieldName,
    MissingFieldType,
    UnknownType(String),
    InvalidType(String),
    DuplicateField(String),
    ContradictoryOptionality(String),
    Frontmatter(String),
    NoFrontmatter,
}

/// The content of a [`SchemaError`].
pub enum SchemaErrorView {
    NotAMapping,
    MissingCollection,
    MissingFields,
    FieldNotAMapping,
    MissingFieldName,
    MissingFieldType,
    UnknownType(Seq<char>),
    InvalidType(Seq<char>),
    DuplicateField(Seq<char>),
    ContradictoryOptionality(Seq<char>),
    Frontmatter(Seq<char>),
    NoFrontmatter,
}

impl View for SchemaError {
    type V = SchemaErrorView;

    open spec fn view(&self) -> SchemaErrorView {
        match *self {
            SchemaError::NotAMapping => SchemaErrorView::NotAMapping,
            SchemaError::MissingCollection => SchemaErrorView::MissingCollection,
            SchemaError::MissingFields => SchemaErrorView::MissingFields,
            SchemaError::FieldNotAMapping => SchemaErrorView::FieldNotAMapping,
            SchemaError::MissingFieldName => SchemaErrorView::MissingFieldName,
            SchemaError::MissingFieldType => SchemaErrorView::MissingFieldType,
            SchemaError::UnknownType(s) => SchemaErrorView::UnknownType(s@),
            SchemaError::InvalidType(s) => SchemaErrorView::InvalidType(s@),
            SchemaError::DuplicateField(s) => SchemaErrorView::DuplicateField(s@),
            SchemaError::ContradictoryOptionality(s) => SchemaErrorView::ContradictoryOptionality(
                s@,
            ),
            SchemaError::Frontmatter(s) => SchemaErrorView::Frontmatter(s@),
            SchemaError::NoFrontmatter => SchemaErrorView::NoFrontmatter,
        }
    }
}

impl SchemaErrorView {
    /// The error in words.
    pub open spec fn message(self) -> Seq<char> {
        match self {
            SchemaErrorView::NotAMapping => "schema frontmatter is not a YAML mapping"@,
            SchemaErrorView::MissingCollection => "schema is missing the `collection` field"@,
            SchemaErrorView::MissingFields => "schema is missing the `fields` sequence"@,
            SchemaErrorView::FieldNotAMapping => "field definition is not a YAML mapping"@,
            SchemaErrorView::MissingFieldName => "field is missing `name`"@,
            SchemaErrorView::MissingFieldType => "field is missing `type`"@,
            SchemaErrorView::UnknownType(s) => "unknown field type: `"@ + s + "`"@,
            SchemaErrorView::InvalidType(s) => "invalid field type syntax: `"@ + s + "`"@,
            SchemaErrorView::DuplicateField(s) => "duplicate field name: `"@ + s + "`"@,
            SchemaErrorView::ContradictoryOptionality(s) =>
            "`required` and `optional` are both true for field `"@ + s + "`"@,
            SchemaErrorView::Frontmatter(s) => "frontmatter error: "@ + s,
            SchemaErrorView::NoFrontmatter => "schema file has no frontmatter"@,
        }
    }
}

impl SchemaError {
    /// The error in words.
    pub fn message(&self) -> (r: String)
        ensures
            r@ == self@.message(),
    {
        match self {
            SchemaError::NotAMapping => "schema frontmatter is not a YAML mapping".to_string(),
            SchemaError::MissingCollection => "schema is missing the `collection` field".to_string(),
            SchemaError::MissingFields => "schema is missing the `fields` sequence".to_string(),
            SchemaError::FieldNotAMapping => "field definition is not a YAML mapping".to_string(),
            SchemaError::MissingFieldName => "field is missing `name`".to_string(),
            SchemaError::MissingFieldType => "field is missing `type`".to_string(),
            SchemaError::UnknownType(s) => glue3("unknown field type: `", s, "`"),
            SchemaError::InvalidType(s) => glue3("invalid field type syntax: `", s, "`"),
            SchemaError::DuplicateField(s) => glue3("duplicate field name: `", s, "`"),
            SchemaError::ContradictoryOptionality(s) => glue3(
                "`required` and `optional` are both true for field `",
                s,
                "`",
            ),
            SchemaError::Frontmatter(s) => glue2("frontmatter error: ", s),
            SchemaError::NoFrontmatter => "schema file has no frontmatter".to_string(),
        }
    }
}

// ---------------------------------------------------------------------------
// Field types
// ---------------------------------------------------------------------------

/// The types a field can have.
#[derive(Debug, PartialEq, Eq)]
pub enum FieldType {
    String,
    Integer,
    Float,
    Boolean,
    Date,
    DateTime,
    Array(Box<FieldType>),
    Enum(Vec<String>),
    Ref(String),
}

/// The content of a [`FieldType`].
pub enum TypeView {
    String,
    Integer,
    Float,
    Boolean,
    Date,
    DateTime,
    Array(Box<TypeView>),
    Enum(Seq<Seq<char>>),
    Ref(Seq<char>),
}

pub open spec fn type_content(t: FieldType) -> TypeView
    decreases t,
{
    match t {
        FieldType::String => TypeView::String,
        FieldType::Integer => TypeView::Integer,
        FieldType::Float => TypeView::Float,
        FieldType::Boolean => TypeView::Boolean,
        FieldType::Date => TypeView::Date,
        FieldType::DateTime => TypeView::DateTime,
        FieldType::Array(inner) => TypeView::Array(Box::new(type_content(*inner))),
        FieldType::Enum(variants) => TypeView::Enum(text_views(variants@)),
        FieldType::Ref(target) => TypeView::Ref(target@),
    }
}

impl View for FieldType {
    type V = TypeView;

    open spec fn view(&self) -> TypeView {
        type_content(*self)
    }
}

impl Clone for FieldType {
    fn clone(&self) -> (r: FieldType)
        ensures
            r@ == self@,
        decreases self,
    {
        match self {
            FieldType::String => FieldType::String,
            FieldType::Integer => FieldType::Integer,
            FieldType::Float => FieldType::Float,
            FieldType::Boolean => FieldType::Boolean,
            FieldType::Date => FieldType::Date,
            FieldType::DateTime => FieldType::DateTime,
            FieldType::Array(inner) => FieldType::Array(Box::new((&**inner).clone())),
            FieldType::Enum(variants) => FieldType::Enum(copy_texts(variants)),
            FieldType::Ref(target) => FieldType::Ref(target.clone()),
        }
    }
}

/// The text between `prefix` and a closing angle bracket.
pub open spec fn enclosed(s: Seq<char>, prefix: Seq<char>) -> Option<Seq<char>> {
    if starts_with(s, prefix) && s.len() > prefix.len() && s.last() == '>' {
        Some(s.subrange(prefix.len() as int, s.len() - 1))
    } else {
        None
    }
}

/// The pieces of `s` between bars, each trimmed.
pub open spec fn variant_texts(s: Seq<char>) -> Seq<Seq<char>> {
    split_on(s, '|').map_values(|v: Seq<char>| trim(v))
}

/// The type that a text spells.
pub open spec fn parse_type(raw: Seq<char>) -> Result<TypeView, SchemaErrorView>
    decreases raw.len(),
    via lemma_parse_type_decreases
{
    let s = trim(raw);
    if let Some(inner) = enclosed(s, "array<"@) {
        match parse_type(inner) {
            Ok(t) => Ok(TypeView::Array(Box::new(t))),
            Err(e) => Err(e),
        }
    } else if let Some(inner) = enclosed(s, "enum<"@) {
        let variants = variant_texts(inner);
        if exists|i: int| 0 <= i < variants.len() && (#[trigger] variants[i]).len() == 0 {
            Err(SchemaErrorView::InvalidType(s))
        } else {
            Ok(TypeView::Enum(variants))
        }
    } else if let Some(inner) = enclosed(s, "ref<"@) {
        if trim(inner).len() == 0 {
            Err(SchemaErrorView::InvalidType(s))
        } else {
            Ok(TypeView::Ref(trim(inner)))
        }
    } else if s == "string"@ {
        Ok(TypeView::String)
    } else if s == "integer"@ {
        Ok(TypeView::Integer)
    } else if s == "float"@ {
        Ok(TypeView::Float)
    } else if s == "boolean"@ {
        Ok(TypeView::Boolean)
    } else if s == "date"@ {
        Ok(TypeView::Date)
    } else if s == "datetime"@ {
        Ok(TypeView::DateTime)
    } else {
        Err(SchemaErrorView::UnknownType(s))
    }
}

#[via_fn]
proof fn lemma_parse_type_decreases(raw: Seq<char>) {
    lemma_trim(raw);
}

/// The notation of a type.
pub open spec fn type_text(t: TypeView) -> Seq<char>
    decreases t,
{
    match t {
        TypeView::String => "string"@,
        TypeView::Integer => "integer"@,
        TypeView::Float => "float"@,
        TypeView::Boolean => "boolean"@,
        TypeView::Date => "date"@,
        TypeView::DateTime => "datetime"@,
        TypeView::Array(inner) => "array<"@ + type_text(*inner) + ">"@,
        TypeView::Enum(variants) => "enum<"@ + join(variants, '|') + ">"@,
        TypeView::Ref(target) => "ref<"@ + target + ">"@,
    }
}

fn inside<'a>(s: &'a [char], prefix: &str) -> (r: Option<&'a [char]>)
    ensures
        match r {
            Some(inner) => enclosed(s@, prefix@) == Some(inner@),
            None => enclosed(s@, prefix@) is None,
        },
{
    let p = chars_of(prefix);
    if begins_text(s, prefix) && s.len() > p.len() && s[s.len() - 1] == '>' {
        let inner = slice_subrange(s, p.len(), s.len() - 1);
        Some(inner)
    } else {
        None
    }
}

fn variants_of(inner: &[char]) -> (r: Vec<String>)
    ensures
        text_views(r@) == variant_texts(inner@),
{
    let parts = pieces(inner, '|');
    let mut out: Vec<String> = Vec::new();
    for i in 0..parts.len()
        invariant
            out@.len() == i,
            forall|j: int| 0 <= j < i ==> (#[trigger] out@[j])@ == trim(parts@[j]@),
    {
        out.push(text_of(trimmed(parts[i].as_slice())));
    }
    assert forall|j: int| 0 <= j < out@.len() implies (#[trigger] text_views(out@)[j])
        == variant_texts(inner@)[j] by {
        assert(views(parts@)[j] == parts@[j]@);
    }
    assert(views(parts@).len() == parts@.len());
    assert(text_views(out@) =~= variant_texts(inner@));
    out
}

fn has_empty(list: &Vec<String>) -> (r: bool)
    ensures
        r == exists|i: int|
            0 <= i < text_views(list@).len() && (#[trigger] text_views(list@)[i]).len() == 0,
{
    for i in 0..list.len()
        invariant
            forall|j: int| 0 <= j < i ==> (#[trigger] text_views(list@)[j]).len() != 0,
    {
        assert(text_views(list@)[i as int] == list@[i as int]@);
        if list[i].as_str().is_empty() {
            return true;
        }
    }
    false
}

fn parse_type_chars(raw: &[char]) -> (r: Result<FieldType, SchemaError>)
    ensures
        match r {
            Ok(t) => parse_type(raw@) == Ok::<TypeView, SchemaErrorView>(t@),
            Err(e) => parse_type(raw@) == Err::<TypeView, SchemaErrorView>(e@),
        },
    decreases raw@.len(),
{
    let s = trimmed(raw);
    proof {
        lemma_trim(raw@);
    }
    if let Some(inner) = inside(s, "array<") {
        return match parse_type_chars(inner) {
            Ok(t) => Ok(FieldType::Array(Box::new(t))),
            Err(e) => Err(e),
        };
    }
    if let Some(inner) = inside(s, "enum<") {
        let variants = variants_of(inner);
        if has_empty(&variants) {
            return Err(SchemaError::InvalidType(text_of(s)));
        }
        return Ok(FieldType::Enum(variants));
    }
    if let Some(inner) = inside(s, "ref<") {
        let target = trimmed(inner);
        if target.len() == 0 {
            return Err(SchemaError::InvalidType(text_of(s)));
        }
        return Ok(FieldType::Ref(text_of(target)));
    }
    if spells(s, "string") {
        Ok(FieldType::String)
    } else if spells(s, "integer") {
        Ok(FieldType::Integer)
    } else if spells(s, "float") {
        Ok(FieldType::Float)
    } else if spells(s, "boolean") {
        Ok(FieldType::Boolean)
    } else if spells(s, "date") {
        Ok(FieldType::Date)
    } else if spells(s, "datetime") {
        Ok(FieldType::DateTime)
    } else {
        Err(SchemaError::UnknownType(text_of(s)))
    }
}

impl FieldType {
    /// Parses a type such as `integer`, `array<string>`, `enum<a|b|c>` or
    /// `ref<bookmarks>`.
    pub fn parse(s: &str) -> (r: Result<FieldType, SchemaError>)
        ensures
            match r {
                Ok(t) => parse_type(s@) == Ok::<TypeView, SchemaErrorView>(t@),
                Err(e) => parse_type(s@) == Err::<TypeView, SchemaErrorView>(e@),
            },
    {
        let chars = chars_of(s);
        parse_type_chars(&chars)
    }

    /// The notation of the type.
    pub fn to_text(&self) -> (r: String)
        ensures
            r@ == type_text(self@),
        decreases self,
    {
        match self {
            FieldType::String => "string".to_string(),
            FieldType::Integer => "integer".to_string(),
            FieldType::Float => "float".to_string(),
            FieldType::Boolean => "boolean".to_string(),
            FieldType::Date => "date".to_string(),
            FieldType::DateTime => "datetime".to_string(),
            FieldType::Array(inner) => {
                let text = (&**inner).to_text();
                glue3("array<", text.as_str(), ">")
            },
            FieldType::Enum(variants) => {
                let text = join_texts(variants, '|');
                glue3("enum<", text.as_str(), ">")
            },
            FieldType::Ref(target) => glue3("ref<", target, ">"),
        }
    }
}

// ---------------------------------------------------------------------------
// Schemas
// ---------------------------------------------------------------------------

/// The definition of one field. The bounds of a range are compared as doubles.
#[derive(Debug, Clone)]
pub struct FieldDef {
    pub name: String,
    pub field_type: FieldType,
    pub required: bool,
    pub range: Option<(Number, Number)>,
}

/// The content of a [`FieldDef`].
pub struct FieldView {
    pub name: Seq<char>,
    pub field_type: TypeView,
    pub required: bool,
    pub range: Option<(NumberView, NumberView)>,
}

pub open spec fn range_content(range: Option<(Number, Number)>) -> Option<(NumberView, NumberView)> {
    match range {
        Some((low, high)) => Some((low@, high@)),
        None => None,
    }
}

impl View for FieldDef {
    type V = FieldView;

    open spec fn view(&self) -> FieldView {
        FieldView {
            name: self.name@,
            field_type: self.field_type@,
            required: self.required,
            range: range_content(self.range),
        }
    }
}

/// The contents of a list of field definitions.
pub open spec fn field_views(fields: Seq<FieldDef>) -> Seq<FieldView> {
    fields.map_values(|f: FieldDef| f@)
}

/// A parsed collection schema.
#[derive(Debug, Clone)]
pub struct Schema {
    pub collection: String,
    pub fields: Vec<FieldDef>,
}

/// The content of a [`Schema`].
pub struct SchemaView {
    pub collection: Seq<char>,
    pub fields: Seq<FieldView>,
}

impl View for Schema {
    type V = SchemaView;

    open spec fn view(&self) -> SchemaView {
        SchemaView { collection: self.collection@, fields: field_views(self.fields@) }
    }
}

/// The text under a key of a mapping, where there is one.
pub open spec fn text_at(v: ValueView, key: Seq<char>) -> Option<Seq<char>> {
    match v.get(key) {
        Some(x) => x.as_str(),
        None => None,
    }
}

/// The truth value under a key of a mapping; false where there is none.
pub open spec fn flag_at(v: ValueView, key: Seq<char>) -> bool {
    match v.get(key) {
        Some(x) => x.as_bool() == Some(true),
        None => false,
    }
}

/// The sequence under a key of a mapping, where there is one.
pub open spec fn items_at(v: ValueView, key: Seq<char>) -> Option<Seq<ValueView>> {
    match v.get(key) {
        Some(x) => x.as_sequence(),
        None => None,
    }
}

/// The range of a numeric field: a sequence of exactly two numbers.
pub open spec fn range_of(def: ValueView, t: TypeView) -> Option<(NumberView, NumberView)> {
    match items_at(def, "range"@) {
        Some(items) => if (t is Integer || t is Float) && items.len() == 2 {
            match (items[0].as_number(), items[1].as_number()) {
                (Some(low), Some(high)) => Some((low, high)),
                _ => None,
            }
        } else {
            None
        },
        None => None,
    }
}

pub open spec fn has_field(fields: Seq<FieldView>, name: Seq<char>) -> bool {
    exists|i: int| 0 <= i < fields.len() && (#[trigger] fields[i]).name == name
}

/// The field that a definition makes behind the fields before it.
pub open spec fn field_of(def: ValueView, before: Seq<FieldView>) -> Result<
    FieldView,
    SchemaErrorView,
> {
    if def.as_mapping() is None {
        Err(SchemaErrorView::FieldNotAMapping)
    } else {
        match text_at(def, "name"@) {
            None => Err(SchemaErrorView::MissingFieldName),
            Some(name) => if has_field(before, name) {
                Err(SchemaErrorView::DuplicateField(name))
            } else {
                match text_at(def, "type"@) {
                    None => Err(SchemaErrorView::MissingFieldType),
                    Some(text) => match parse_type(text) {
                        Err(e) => Err(e),
                        Ok(t) => if flag_at(def, "required"@) && flag_at(def, "optional"@) {
                            Err(SchemaErrorView::ContradictoryOptionality(name))
                        } else {
                            Ok(
                                FieldView {
                                    name,
                                    field_type: t,
                                    required: flag_at(def, "required"@),
                                    range: range_of(def, t),
                                },
                            )
                        },
                    },
                }
            },
        }
    }
}

/// The fields that the definitions make, or the first error among them.
pub open spec fn fields_of(defs: Seq<ValueView>) -> Result<Seq<FieldView>, SchemaErrorView>
    decreases defs.len(),
{
    if defs.len() == 0 {
        Ok(Seq::empty())
    } else {
        match fields_of(defs.drop_last()) {
            Err(e) => Err(e),
            Ok(before) => match field_of(defs.last(), before) {
                Err(e) => Err(e),
                Ok(f) => Ok(before.push(f)),
            },
        }
    }
}

/// The schema that a frontmatter value describes.
pub open spec fn schema_of(v: ValueView) -> Result<SchemaView, SchemaErrorView> {
    if v.as_mapping() is None {
        Err(SchemaErrorView::NotAMapping)
    } else {
        match text_at(v, "collection"@) {
            None => Err(SchemaErrorView::MissingCollection),
            Some(collection) => match items_at(v, "fields"@) {
                None => Err(SchemaErrorView::MissingFields),
                Some(defs) => match fields_of(defs) {
                    Err(e) => Err(e),
                    Ok(fields) => Ok(SchemaView { collection, fields }),
                },
            },
        }
    }
}

/// The schema that a `schema.md` file describes.
pub open spec fn schema_of_file(content: Seq<char>) -> Result<SchemaView, SchemaErrorView> {
    match file_split(content) {
        Err(e) => Err(SchemaErrorView::Frontmatter(e.message())),
        Ok((None, _)) => Err(SchemaErrorView::NoFrontmatter),
        Ok((Some(v), _)) => schema_of(v),
    }
}

/// The first field of that name at or behind `from`.
pub open spec fn find_field(fields: Seq<FieldView>, name: Seq<char>, from: int) -> Option<FieldView>
    decreases fields.len() - from,
{
    if from < 0 || from >= fields.len() {
        None
    } else if fields[from].name == name {
        Some(fields[from])
    } else {
        find_field(fields, name, from + 1)
    }
}

impl SchemaView {
    pub open spec fn field(self, name: Seq<char>) -> Option<FieldView> {
        find_field(self.fields, name, 0)
    }
}

fn text_under<'a>(v: &'a Value, key: &str) -> (r: Option<&'a str>)
    ensures
        match r {
            Some(s) => text_at(v@, key@) == Some(s@),
            None => text_at(v@, key@) is None,
        },
{
    match v.get(key) {
        Some(x) => x.as_str(),
        None => None,
    }
}

fn flag_under(v: &Value, key: &str) -> (r: bool)
    ensures
        r == flag_at(v@, key@),
{
    match v.get(key) {
        Some(x) => match x.as_bool() {
            Some(b) => b,
            None => false,
        },
        None => false,
    }
}

fn items_under<'a>(v: &'a Value, key: &str) -> (r: Option<&'a Vec<Value>>)
    ensures
        match r {
            Some(items) => items_at(v@, key@) == Some(contents(items@)),
            None => items_at(v@, key@) is None,
        },
{
    match v.get(key) {
        Some(x) => x.as_sequence(),
        None => None,
    }
}

fn range_under(def: &Value, t: &FieldType) -> (r: Option<(Number, Number)>)
    ensures
        range_content(r) == range_of(def@, t@),
{
    if !matches!(t, FieldType::Integer | FieldType::Float) {
        return None;
    }
    match items_under(def, "range") {
        Some(items) => {
            if items.len() != 2 {
                return None;
            }
            let ghost all = contents(items@);
            assert(all[0] == items@[0]@);
            assert(all[1] == items@[1]@);
            match (items[0].as_number(), items[1].as_number()) {
                (Some(low), Some(high)) => Some((low.clone(), high.clone())),
                _ => None,
            }
        },
        None => None,
    }
}

fn field_taken(fields: &Vec<FieldDef>, name: &str) -> (r: bool)
    ensures
        r == has_field(field_views(fields@), name@),
{
    let ghost all = field_views(fields@);
    for i in 0..fields.len()
        invariant
            all == field_views(fields@),
            forall|j: int| 0 <= j < i ==> (#[trigger] all[j]).name != name@,
    {
        assert(all[i as int].name == fields@[i as int].name@);
        if same_text(&fields[i].name, name) {
            return true;
        }
    }
    false
}

fn field_from(def: &Value, before: &Vec<FieldDef>) -> (r: Result<FieldDef, SchemaError>)
    ensures
        match r {
            Ok(f) => field_of(def@, field_views(before@)) == Ok::<FieldView, SchemaErrorView>(f@),
            Err(e) => field_of(def@, field_views(before@)) == Err::<FieldView, SchemaErrorView>(e@),
        },
{
    if def.as_mapping().is_none() {
        return Err(SchemaError::FieldNotAMapping);
    }
    let name = match text_under(def, "name") {
        Some(name) => name,
        None => {
            return Err(SchemaError::MissingFieldName);
        },
    };
    if field_taken(before, name) {
        return Err(SchemaError::DuplicateField(name.to_string()));
    }
    let text = match text_under(def, "type") {
        Some(text) => text,
        None => {
            return Err(SchemaError::MissingFieldType);
        },
    };
    let field_type = match FieldType::parse(text) {
        Ok(t) => t,
        Err(e) => {
            return Err(e);
        },
    };
    let required = flag_under(def, "required");
    let optional = flag_under(def, "optional");
    if required && optional {
        return Err(SchemaError::ContradictoryOptionality(name.to_string()));
    }
    let range = range_under(def, &field_type);
    Ok(FieldDef { name: name.to_string(), field_type, required, range })
}

/// The first error stays the result, whatever definitions follow.
proof fn lemma_fields_prefix(defs: Seq<ValueView>, k: int)
    requires
        0 <= k <= defs.len(),
        fields_of(defs.take(k)) is Err,
    ensures
        fields_of(defs) == fields_of(defs.take(k)),
    decreases defs.len() - k,
{
    if k == defs.len() {
        assert(defs.take(k) =~= defs);
    } else {
        assert(defs.take(k + 1).drop_last() =~= defs.take(k));
        lemma_fields_prefix(defs, k + 1);
    }
}

impl Schema {
    /// Parses a schema from the content of a `schema.md` file.
    pub fn from_markdown(content: &str) -> (r: Result<Schema, SchemaError>)
        ensures
            match r {
                Ok(s) => schema_of_file(content@) == Ok::<SchemaView, SchemaErrorView>(s@),
                Err(e) => schema_of_file(content@) == Err::<SchemaView, SchemaErrorView>(e@),
            },
    {
        match split(content) {
            Err(e) => Err(SchemaError::Frontmatter(e.message())),
            Ok(parts) => match parts.frontmatter {
                None => Err(SchemaError::NoFrontmatter),
                Some(v) => Schema::from_value(&v),
            },
        }
    }

    /// Parses a schema from a parsed frontmatter value.
    pub fn from_value(value: &Value) -> (r: Result<Schema, SchemaError>)
        ensures
            match r {
                Ok(s) => schema_of(value@) == Ok::<SchemaView, SchemaErrorView>(s@),
                Err(e) => schema_of(value@) == Err::<SchemaView, SchemaErrorView>(e@),
            },
    {
        if value.as_mapping().is_none() {
            return Err(SchemaError::NotAMapping);
        }
        let collection = match text_under(value, "collection") {
            Some(c) => c,
            None => {
                return Err(SchemaError::MissingCollection);
            },
        };
        let defs = match items_under(value, "fields") {
            Some(defs) => defs,
            None => {
                return Err(SchemaError::MissingFields);
            },
        };
        let ghost all = contents(defs@);
        let mut fields: Vec<FieldDef> = Vec::new();
        assert(field_views(fields@) =~= Seq::<FieldView>::empty());
        assert(all.take(0) =~= Seq::<ValueView>::empty());
        for i in 0..defs.len()
            invariant
                all == contents(defs@),
                value@.as_mapping() is Some,
                text_at(value@, "collection"@) == Some(collection@),
                items_at(value@, "fields"@) == Some(all),
                fields_of(all.take(i as int)) == Ok::<Seq<FieldView>, SchemaErrorView>(
                    field_views(fields@),
                ),
        {
            let ghost before = fields@;
            assert(all.take(i + 1).drop_last() =~= all.take(i as int));
            assert(all.take(i + 1).last() == defs@[i as int]@);
            match field_from(&defs[i], &fields) {
                Ok(f) => {
                    fields.push(f);
                    assert(field_views(fields@) =~= field_views(before).push(f@));
                },
                Err(e) => {
                    proof {
                        lemma_fields_prefix(all, i + 1);
                    }
                    return Err(e);
                },
            }
        }
        assert(all.take(all.len() as int) =~= all);
        Ok(Schema { collection: collection.to_string(), fields })
    }

    /// The definition of the field with that name.
    pub fn field(&self, name: &str) -> (r: Option<&FieldDef>)
        ensures
            match r {
                Some(f) => self@.field(name@) == Some(f@),
                None => self@.field(name@) is None,
            },
    {
        let ghost all = self@.fields;
        for i in 0..self.fields.len()
            invariant
                all == field_views(self.fields@),
                find_field(all, name@, 0) == find_field(all, name@, i as int),
        {
            assert(all[i as int] == self.fields@[i as int]@);
            if same_text(&self.fields[i].name, name) {
                return Some(&self.fields[i]);
            }
        }
        None
    }
}

// ---------------------------------------------------------------------------
// Laws
// ---------------------------------------------------------------------------

/// A text that trimming keeps as it is, and that is not empty.
pub open spec fn is_trimmed(s: Seq<char>) -> bool {
    s.len() > 0 && trim(s) == s
}

/// A type that has a notation: the variants of an enumeration are at least one,
/// trimmed and without bars; the target of a reference is trimmed.
pub open spec fn expressible(t: TypeView) -> bool
    decreases t,
{
    match t {
        TypeView::Array(inner) => expressible(*inner),
        TypeView::Enum(variants) => {
            &&& variants.len() > 0
            &&& forall|i: int|
                0 <= i < variants.len() ==> is_trimmed(#[trigger] variants[i])
                    && !variants[i].contains('|')
        },
        TypeView::Ref(target) => is_trimmed(target),
        _ => true,
    }
}

/// Every type that parsing gives has a notation.
pub proof fn law_parsed_types_expressible(s: Seq<char>)
    ensures
        parse_type(s) matches Ok(t) ==> expressible(t),
    decreases s.len(),
{
    lemma_trim(s);
    let t = trim(s);
    if let Some(inner) = enclosed(t, "array<"@) {
        law_parsed_types_expressible(inner);
    } else if let Some(inner) = enclosed(t, "enum<"@) {
        let parts = split_on(inner, '|');
        let variants = variant_texts(inner);
        lemma_split_on_len(inner, '|');
        lemma_split_pieces(inner, '|');
        assert forall|i: int|
            0 <= i < variants.len() && variants[i].len() > 0 implies is_trimmed(
            #[trigger] variants[i],
        ) && !variants[i].contains('|') by {
            lemma_trim(parts[i]);
            assert(variants[i] == trim(parts[i]));
        }
    } else if let Some(inner) = enclosed(t, "ref<"@) {
        lemma_trim(inner);
    }
}

pub(crate) proof fn lemma_enclosed(prefix: Seq<char>, inner: Seq<char>)
    requires
        prefix.len() > 0,
        !is_space(prefix[0]),
    ensures
        enclosed(prefix + inner + ">"@, prefix) == Some(inner),
        trim(prefix + inner + ">"@) == prefix + inner + ">"@,
{
    reveal_strlit(">");
    let s = prefix + inner + ">"@;
    assert(s.take(prefix.len() as int) =~= prefix);
    assert(s.last() == '>');
    assert(s[0] == prefix[0]);
    assert(!is_space('>'));
    assert(s.subrange(prefix.len() as int, s.len() - 1) =~= inner);
    lemma_trim_same(s);
}

proof fn lemma_joined_variants(variants: Seq<Seq<char>>)
    requires
        expressible(TypeView::Enum(variants)),
    ensures
        variant_texts(join(variants, '|')) == variants,
{
    lemma_join_split(variants, '|');
    let parts = split_on(join(variants, '|'), '|');
    assert forall|i: int| 0 <= i < variants.len() implies variant_texts(join(variants, '|'))[i]
        == #[trigger] variants[i] by {
        assert(is_trimmed(variants[i]));
    }
    assert(variant_texts(join(variants, '|')) =~= variants);
}

/// Parsing the notation of a type gives the type back.
pub proof fn law_type_text_parses_back(t: TypeView)
    requires
        expressible(t),
    ensures
        parse_type(type_text(t)) == Ok::<TypeView, SchemaErrorView>(t),
    decreases t,
{
    let s = type_text(t);
    reveal_strlit("array<");
    reveal_strlit("enum<");
    reveal_strlit("ref<");
    reveal_strlit("string");
    reveal_strlit("integer");
    reveal_strlit("float");
    reveal_strlit("boolean");
    reveal_strlit("date");
    reveal_strlit("datetime");
    match t {
        TypeView::Array(inner) => {
            law_type_text_parses_back(*inner);
            lemma_enclosed("array<"@, type_text(*inner));
        },
        TypeView::Enum(variants) => {
            let inner = join(variants, '|');
            lemma_enclosed("enum<"@, inner);
            assert(s[0] == 'e');
            assert(enclosed(s, "array<"@) is None) by {
                if starts_with(s, "array<"@) {
                    assert(s.take(6)[0] == 'a');
                }
            }
            lemma_joined_variants(variants);
            assert forall|i: int| 0 <= i < variants.len() implies (#[trigger] variants[i]).len()
                > 0 by {
                assert(is_trimmed(variants[i]));
            }
        },
        TypeView::Ref(target) => {
            lemma_enclosed("ref<"@, target);
            assert(s[0] == 'r');
            assert(enclosed(s, "array<"@) is None) by {
                if starts_with(s, "array<"@) {
                    assert(s.take(6)[0] == 'a');
                }
            }
            assert(enclosed(s, "enum<"@) is None) by {
                if starts_with(s, "enum<"@) {
                    assert(s.take(5)[0] == 'e');
                }
            }
        },
        _ => {
            lemma_trim_same(s);
            assert(s.last() != '>');
            assert(s[0] == 's' || s[0] == 'i' || s[0] == 'f' || s[0] == 'b' || s[0] == 'd');
            assert("date"@.len() == 4 && "datetime"@.len() == 8);
        },
    }
}

/// A parsed schema never defines the same field twice.
pub proof fn law_schema_fields_distinct(defs: Seq<ValueView>)
    ensures
        fields_of(defs) matches Ok(fields) ==> forall|i: int, j: int|
            0 <= i < j < fields.len() ==> (#[trigger] fields[i]).name != (#[trigger] fields[j]).name,
    decreases defs.len(),
{
    if defs.len() > 0 {
        law_schema_fields_distinct(defs.drop_last());
    }
}

} // verus!
