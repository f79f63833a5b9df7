//! What schemas mean, stated on the values and texts that they are written with.

use vstd::prelude::*;

use crate::double_laws::{is_finite_pattern, meaning};
use crate::filter_laws::pattern_of;
use crate::schema::{
    enclosed, field_of, fields_of, find_field, flag_at, has_field, parse_type, schema_of,
    schema_of_file, variant_texts, FieldView, SchemaErrorView, SchemaView, TypeView,
};
use crate::text::{is_space, split_on, starts_with, trim};
use crate::text_laws::{law_trimming_forgets_outer_space, only_space};
use crate::validation::field_problem;
use crate::value::{NumberView, ValueView};
use crate::value_laws::{carries, lemma_carries, lemma_core, whole};

verus! {

// ---------------------------------------------------------------------------
// Types
// ---------------------------------------------------------------------------

proof fn lemma_plain_type(s: Seq<char>)
    requires
        s.len() > 0,
        s.last() != '>',
        !is_space(s[0]),
        !is_space(s.last()),
    ensures
        trim(s) == s,
        enclosed(s, "array<"@) is None,
        enclosed(s, "enum<"@) is None,
        enclosed(s, "ref<"@) is None,
{
    crate::text::lemma_trim_same(s);
}

/// The names of the scalar types, and each of them has one name only.
pub proof fn law_scalar_type_names()
    ensures
        parse_type("string"@) == Ok::<TypeView, SchemaErrorView>(TypeView::String),
        parse_type("integer"@) == Ok::<TypeView, SchemaErrorView>(TypeView::Integer),
        parse_type("float"@) == Ok::<TypeView, SchemaErrorView>(TypeView::Float),
        parse_type("boolean"@) == Ok::<TypeView, SchemaErrorView>(TypeView::Boolean),
        parse_type("date"@) == Ok::<TypeView, SchemaErrorView>(TypeView::Date),
        parse_type("datetime"@) == Ok::<TypeView, SchemaErrorView>(TypeView::DateTime),
{
    reveal_strlit("string");
    reveal_strlit("integer");
    reveal_strlit("float");
    reveal_strlit("boolean");
    reveal_strlit("date");
    reveal_strlit("datetime");
    lemma_plain_type("string"@);
    lemma_plain_type("integer"@);
    lemma_plain_type("float"@);
    lemma_plain_type("boolean"@);
    lemma_plain_type("date"@);
    lemma_plain_type("datetime"@);
    assert("string"@[0] == 's' && "integer"@[0] == 'i' && "float"@[0] == 'f' && "boolean"@[0] == 'b'
        && "date"@[0] == 'd');
    assert("date"@.len() == 4 && "datetime"@.len() == 8);
}

/// Parsing a type does not look at white space around it.
pub proof fn law_types_may_stand_in_space(before: Seq<char>, s: Seq<char>, after: Seq<char>)
    requires
        only_space(before),
        only_space(after),
    ensures
        parse_type(before + s + after) == parse_type(s),
{
    law_trimming_forgets_outer_space(before, s, after);
}

/// Between angle brackets an array has the type of its items, an enumeration its texts
/// with bars between them, and a reference its collection; the parts may stand in white
/// space, and an empty text or collection is an error.
pub proof fn law_types_in_brackets(s: Seq<char>)
    ensures
        parse_type(s) matches Ok(t) ==> parse_type("array<"@ + s + ">"@) == Ok::<
            TypeView,
            SchemaErrorView,
        >(TypeView::Array(Box::new(t))),
        parse_type(s) matches Err(e) ==> parse_type("array<"@ + s + ">"@) == Err::<
            TypeView,
            SchemaErrorView,
        >(e),
        ({
            let text = "enum<"@ + s + ">"@;
            let pieces = split_on(s, '|');
            let blank = exists|i: int| 0 <= i < pieces.len() && only_space(#[trigger] pieces[i]);
            &&& blank ==> parse_type(text) == Err::<TypeView, SchemaErrorView>(
                SchemaErrorView::InvalidType(text),
            )
            &&& !blank ==> parse_type(text) == Ok::<TypeView, SchemaErrorView>(
                TypeView::Enum(Seq::new(pieces.len(), |i: int| trim(pieces[i]))),
            )
        }),
        ({
            let text = "ref<"@ + s + ">"@;
            &&& only_space(s) ==> parse_type(text) == Err::<TypeView, SchemaErrorView>(
                SchemaErrorView::InvalidType(text),
            )
            &&& !only_space(s) ==> parse_type(text) == Ok::<TypeView, SchemaErrorView>(
                TypeView::Ref(trim(s)),
            )
        }),
{
    reveal_strlit("array<");
    reveal_strlit("enum<");
    reveal_strlit("ref<");
    crate::schema::lemma_enclosed("array<"@, s);
    crate::schema::lemma_enclosed("enum<"@, s);
    crate::schema::lemma_enclosed("ref<"@, s);
    let e = "enum<"@ + s + ">"@;
    let r = "ref<"@ + s + ">"@;
    assert(e[0] == 'e' && r[0] == 'r');
    assert(enclosed(e, "array<"@) is None) by {
        if starts_with(e, "array<"@) {
            assert(e.take(6)[0] == 'a');
        }
    }
    assert(enclosed(r, "array<"@) is None) by {
        if starts_with(r, "array<"@) {
            assert(r.take(6)[0] == 'a');
        }
    }
    assert(enclosed(r, "enum<"@) is None) by {
        if starts_with(r, "enum<"@) {
            assert(r.take(5)[0] == 'e');
        }
    }
    let pieces = split_on(s, '|');
    let variants = variant_texts(s);
    assert(variants =~= Seq::new(pieces.len(), |i: int| trim(pieces[i])));
    assert forall|i: int| 0 <= i < pieces.len() implies (variants[i].len() == 0 <==> only_space(
        #[trigger] pieces[i],
    )) by {
        lemma_blank(pieces[i]);
        assert(variants[i] == trim(pieces[i]));
    }
    if exists|i: int| 0 <= i < pieces.len() && only_space(#[trigger] pieces[i]) {
        let i = choose|i: int| 0 <= i < pieces.len() && only_space(#[trigger] pieces[i]);
        assert(variants[i].len() == 0);
    }
    if exists|i: int| 0 <= i < variants.len() && (#[trigger] variants[i]).len() == 0 {
        let i = choose|i: int| 0 <= i < variants.len() && (#[trigger] variants[i]).len() == 0;
        assert(only_space(pieces[i]));
    }
    lemma_blank(s);
}

pub proof fn lemma_blank(s: Seq<char>)
    ensures
        trim(s).len() == 0 <==> only_space(s),
{
    if only_space(s) {
        let none = Seq::<char>::empty();
        law_trimming_forgets_outer_space(s, none, none);
        assert(s + none + none =~= s);
        crate::text::lemma_trim(none);
    }
    crate::text_laws::law_trimming_takes_space_only(s);
    if trim(s).len() == 0 {
        let (a, b) = choose|a: Seq<char>, b: Seq<char>|
            #![trigger only_space(a), only_space(b)]
            only_space(a) && only_space(b) && s == a + trim(s) + b;
        assert forall|i: int| 0 <= i < s.len() implies is_space(#[trigger] s[i]) by {
            if i < a.len() {
                assert(s[i] == a[i]);
            } else {
                assert(s[i] == b[i - a.len()]);
            }
        }
    }
}

/// A text that is neither the name of a scalar type nor one in angle brackets is no
/// type, and the error names it.
pub proof fn law_other_texts_are_no_types(s: Seq<char>)
    requires
        s.len() > 0,
        !is_space(s[0]),
        !is_space(s.last()),
        !(s.last() == '>' && (starts_with(s, "array<"@) || starts_with(s, "enum<"@) || starts_with(
            s,
            "ref<"@,
        ))),
        s != "string"@ && s != "integer"@ && s != "float"@ && s != "boolean"@ && s != "date"@ && s
            != "datetime"@,
    ensures
        parse_type(s) == Err::<TypeView, SchemaErrorView>(SchemaErrorView::UnknownType(s)),
{
    crate::text::lemma_trim_same(s);
}

// ---------------------------------------------------------------------------
// Definitions of fields
// ---------------------------------------------------------------------------

/// Under the key of a mapping stands that value.
pub open spec fn has_entry(def: ValueView, key: Seq<char>, v: ValueView) -> bool {
    def.get(key) == Some(v)
}

/// Under the key of a mapping stands true.
pub open spec fn says_true(def: ValueView, key: Seq<char>) -> bool {
    def.get(key) matches Some(v) && carries(v, ValueView::Bool(true))
}

/// The value is a sequence of two numbers.
pub open spec fn is_pair(v: ValueView, low: NumberView, high: NumberView) -> bool {
    exists|items: Seq<ValueView>| #[trigger]
        carries(v, ValueView::Sequence(items)) && items.len() == 2 && carries(
            items[0],
            ValueView::Number(low),
        ) && carries(items[1], ValueView::Number(high))
}

/// A definition with a new name and the notation of a type, not both required and
/// optional, makes the field of that name and type. It is required exactly where it
/// says so. Its range is the pair of numbers that it gives, for an integer or a float;
/// other types and other ranges have none.
pub proof fn law_definitions_make_fields(
    def: ValueView,
    before: Seq<FieldView>,
    nv: ValueView,
    name: Seq<char>,
    tv: ValueView,
    text: Seq<char>,
    t: TypeView,
)
    requires
        has_entry(def, "name"@, nv),
        carries(nv, ValueView::String(name)),
        has_entry(def, "type"@, tv),
        carries(tv, ValueView::String(text)),
        parse_type(text) == Ok::<TypeView, SchemaErrorView>(t),
        forall|i: int| 0 <= i < before.len() ==> (#[trigger] before[i]).name != name,
        !(says_true(def, "required"@) && says_true(def, "optional"@)),
    ensures
        field_of(def, before) matches Ok(f) && {
            &&& f.name == name
            &&& f.field_type == t
            &&& f.required <==> says_true(def, "required"@)
            &&& forall|rv: ValueView, low: NumberView, high: NumberView|
                #![trigger has_entry(def, "range"@, rv), is_pair(rv, low, high)]
                (t is Integer || t is Float) && has_entry(def, "range"@, rv) && is_pair(
                    rv,
                    low,
                    high,
                ) ==> f.range == Some((low, high))
            &&& f.range matches Some((low, high)) ==> (t is Integer || t is Float) && (def.get(
                "range"@,
            ) matches Some(rv) && is_pair(rv, low, high))
        },
{
    lemma_carries(nv, ValueView::String(name));
    lemma_carries(tv, ValueView::String(text));
    lemma_flag(def, "required"@);
    lemma_flag(def, "optional"@);
    lemma_mapping_of(def, "name"@);
    let f = field_of(def, before)->Ok_0;
    assert forall|rv: ValueView, low: NumberView, high: NumberView|
        #![trigger has_entry(def, "range"@, rv), is_pair(rv, low, high)]
        (t is Integer || t is Float) && has_entry(def, "range"@, rv) && is_pair(
            rv,
            low,
            high,
        ) implies f.range == Some((low, high)) by {
        let items = choose|items: Seq<ValueView>| #[trigger]
            carries(rv, ValueView::Sequence(items)) && items.len() == 2 && carries(
                items[0],
                ValueView::Number(low),
            ) && carries(items[1], ValueView::Number(high));
        lemma_carries(rv, ValueView::Sequence(items));
        lemma_carries(items[0], ValueView::Number(low));
        lemma_carries(items[1], ValueView::Number(high));
    }
    if let Some((low, high)) = f.range {
        let rv = def.get("range"@)->Some_0;
        let items = rv.as_sequence()->Some_0;
        lemma_carries(rv, ValueView::Sequence(items));
        lemma_carries(items[0], ValueView::Number(low));
        lemma_carries(items[1], ValueView::Number(high));
        assert(is_pair(rv, low, high));
    }
}

proof fn lemma_flag(def: ValueView, key: Seq<char>)
    ensures
        flag_at(def, key) <==> says_true(def, key),
{
    if let Some(v) = def.get(key) {
        lemma_carries(v, ValueView::Bool(true));
    }
}

proof fn lemma_mapping_of(def: ValueView, key: Seq<char>)
    requires
        def.get(key) is Some,
    ensures
        def.as_mapping() is Some,
{
}

/// No text stands under the key.
pub open spec fn lacks_text(def: ValueView, key: Seq<char>) -> bool {
    def.get(key) matches Some(v) ==> forall|s: Seq<char>| !#[trigger] carries(v, ValueView::String(s))
}

proof fn lemma_lacks_text(def: ValueView, key: Seq<char>)
    ensures
        lacks_text(def, key) <==> crate::schema::text_at(def, key) is None,
{
    if let Some(v) = def.get(key) {
        lemma_core(v);
        if let ValueView::String(s) = v.untagged() {
            assert(carries(v, ValueView::String(s)));
        }
        if exists|s: Seq<char>| #[trigger] carries(v, ValueView::String(s)) {
            let s = choose|s: Seq<char>| #[trigger] carries(v, ValueView::String(s));
            lemma_carries(v, ValueView::String(s));
        }
    }
}

/// What is wrong with a definition, in the order in which it is looked at: no mapping,
/// no name, a name that was taken, no type, a text that is no type, both required and
/// optional.
pub proof fn law_wrong_definitions(def: ValueView, before: Seq<FieldView>)
    ensures
        (forall|entries: Seq<(ValueView, ValueView)>|
            !#[trigger] carries(def, ValueView::Mapping(entries))) ==> field_of(def, before)
            == Err::<FieldView, SchemaErrorView>(SchemaErrorView::FieldNotAMapping),
        (exists|entries: Seq<(ValueView, ValueView)>| #[trigger]
            carries(def, ValueView::Mapping(entries))) ==> {
            &&& lacks_text(def, "name"@) ==> field_of(def, before) == Err::<
                FieldView,
                SchemaErrorView,
            >(SchemaErrorView::MissingFieldName)
            &&& forall|nv: ValueView, name: Seq<char>|
                #![trigger has_entry(def, "name"@, nv), carries(nv, ValueView::String(name))]
                has_entry(def, "name"@, nv) && carries(nv, ValueView::String(name)) ==> {
                    let taken = exists|i: int|
                        0 <= i < before.len() && (#[trigger] before[i]).name == name;
                    &&& taken ==> field_of(def, before) == Err::<FieldView, SchemaErrorView>(
                        SchemaErrorView::DuplicateField(name),
                    )
                    &&& !taken && lacks_text(def, "type"@) ==> field_of(def, before) == Err::<
                        FieldView,
                        SchemaErrorView,
                    >(SchemaErrorView::MissingFieldType)
                    &&& !taken ==> forall|tv: ValueView, text: Seq<char>|
                        #![trigger has_entry(def, "type"@, tv), carries(tv, ValueView::String(text))]
                        has_entry(def, "type"@, tv) && carries(tv, ValueView::String(text)) ==> {
                            &&& parse_type(text) matches Err(e) ==> field_of(def, before) == Err::<
                                FieldView,
                                SchemaErrorView,
                            >(e)
                            &&& parse_type(text) is Ok && says_true(def, "required"@) && says_true(
                                def,
                                "optional"@,
                            ) ==> field_of(def, before) == Err::<FieldView, SchemaErrorView>(
                                SchemaErrorView::ContradictoryOptionality(name),
                            )
                        }
                }
        },
{
    lemma_core(def);
    lemma_lacks_text(def, "name"@);
    lemma_lacks_text(def, "type"@);
    lemma_flag(def, "required"@);
    lemma_flag(def, "optional"@);
    if let ValueView::Mapping(entries) = def.untagged() {
        assert(carries(def, ValueView::Mapping(entries)));
    }
    if exists|entries: Seq<(ValueView, ValueView)>| #[trigger]
        carries(def, ValueView::Mapping(entries)) {
        let entries = choose|entries: Seq<(ValueView, ValueView)>| #[trigger]
            carries(def, ValueView::Mapping(entries));
        lemma_carries(def, ValueView::Mapping(entries));
    }
    assert forall|v: ValueView, s: Seq<char>| #[trigger]
        carries(v, ValueView::String(s)) implies v.as_str() == Some(s) by {
        lemma_carries(v, ValueView::String(s));
    }
}

/// A number in a field of type integer or float with a range is a problem exactly where
/// it is below the lower or above the upper number of the range, from the definition in
/// the schema to the record.
pub proof fn law_ranges_from_schema_to_record(
    def: ValueView,
    before: Seq<FieldView>,
    rv: ValueView,
    low: NumberView,
    high: NumberView,
    v: ValueView,
    n: NumberView,
)
    requires
        field_of(def, before) is Ok,
        has_entry(def, "type"@, ValueView::String("float"@)) || has_entry(
            def,
            "type"@,
            ValueView::String("integer"@),
        ),
        has_entry(def, "range"@, rv),
        is_pair(rv, low, high),
        is_finite_pattern(pattern_of(low)),
        is_finite_pattern(pattern_of(high)),
        carries(v, ValueView::Number(n)),
        is_finite_pattern(pattern_of(n)),
        has_entry(def, "type"@, ValueView::String("integer"@)) ==> (whole(n) matches Some(i) && i
            <= i64::MAX),
    ensures
        ({
            let field = field_of(def, before)->Ok_0;
            &&& field_problem(Some(v), field) is Some <==> meaning(pattern_of(n)) < meaning(
                pattern_of(low),
            ) || meaning(pattern_of(n)) > meaning(pattern_of(high))
        }),
{
    law_scalar_type_names();
    let field = field_of(def, before)->Ok_0;
    let nv = def.get("name"@)->Some_0;
    let name = nv.as_str()->Some_0;
    lemma_carries(nv, ValueView::String(name));
    let tv = def.get("type"@)->Some_0;
    let text = tv.as_str()->Some_0;
    lemma_carries(tv, ValueView::String(text));
    lemma_flag(def, "required"@);
    lemma_flag(def, "optional"@);
    assert forall|i: int| 0 <= i < before.len() implies (#[trigger] before[i]).name != name by {
        if before[i].name == name {
            assert(has_field(before, name));
        }
    }
    law_definitions_make_fields(def, before, nv, name, tv, text, field.field_type);
    assert(has_entry(def, "range"@, rv) && is_pair(rv, low, high));
    assert(field.range == Some((low, high)));
    crate::validation_laws::law_scalar_types_take_their_kind(v);
    crate::validation_laws::law_numbers_outside_their_range(v, n, low, high);
    lemma_carries(v, ValueView::Number(n));
    crate::validation_laws::law_fields_are_right(Some(v), field);
}

// ---------------------------------------------------------------------------
// Schemas
// ---------------------------------------------------------------------------

/// The definitions make the fields one after the other; the first error stays.
pub proof fn law_fields_in_order(defs: Seq<ValueView>, def: ValueView)
    ensures
        fields_of(Seq::empty()) == Ok::<Seq<FieldView>, SchemaErrorView>(Seq::empty()),
        fields_of(defs) matches Err(e) ==> fields_of(defs.push(def)) == Err::<
            Seq<FieldView>,
            SchemaErrorView,
        >(e),
        fields_of(defs) matches Ok(fields) ==> {
            &&& fields.len() == defs.len()
            &&& field_of(def, fields) matches Ok(f) ==> fields_of(defs.push(def)) == Ok::<
                Seq<FieldView>,
                SchemaErrorView,
            >(fields.push(f))
            &&& field_of(def, fields) matches Err(e) ==> fields_of(defs.push(def)) == Err::<
                Seq<FieldView>,
                SchemaErrorView,
            >(e)
        },
    decreases defs.len(),
{
    assert(defs.push(def).drop_last() =~= defs);
    if defs.len() > 0 {
        law_fields_in_order(defs.drop_last(), defs.last());
        assert(defs.drop_last().push(defs.last()) =~= defs);
    }
}

/// A schema is a mapping with a text under `collection` and a sequence of definitions
/// under `fields`; what is missing first is the error.
pub proof fn law_schemas_are_mappings(v: ValueView)
    ensures
        (forall|entries: Seq<(ValueView, ValueView)>|
            !#[trigger] carries(v, ValueView::Mapping(entries))) ==> schema_of(v) == Err::<
            SchemaView,
            SchemaErrorView,
        >(SchemaErrorView::NotAMapping),
        (exists|entries: Seq<(ValueView, ValueView)>| #[trigger]
            carries(v, ValueView::Mapping(entries))) ==> {
            &&& lacks_text(v, "collection"@) ==> schema_of(v) == Err::<SchemaView, SchemaErrorView>(
                SchemaErrorView::MissingCollection,
            )
            &&& forall|cv: ValueView, name: Seq<char>|
                #![trigger has_entry(v, "collection"@, cv), carries(cv, ValueView::String(name))]
                has_entry(v, "collection"@, cv) && carries(cv, ValueView::String(name)) ==> {
                    &&& (forall|fv: ValueView, defs: Seq<ValueView>|
                        #![trigger has_entry(v, "fields"@, fv), carries(fv, ValueView::Sequence(defs))]
                        !(has_entry(v, "fields"@, fv) && carries(fv, ValueView::Sequence(defs))))
                        ==> schema_of(v) == Err::<SchemaView, SchemaErrorView>(
                        SchemaErrorView::MissingFields,
                    )
                    &&& forall|fv: ValueView, defs: Seq<ValueView>|
                        #![trigger has_entry(v, "fields"@, fv), carries(fv, ValueView::Sequence(defs))]
                        has_entry(v, "fields"@, fv) && carries(fv, ValueView::Sequence(defs)) ==> {
                            &&& fields_of(defs) matches Ok(fields) ==> schema_of(v) == Ok::<
                                SchemaView,
                                SchemaErrorView,
                            >(SchemaView { collection: name, fields })
                            &&& fields_of(defs) matches Err(e) ==> schema_of(v) == Err::<
                                SchemaView,
                                SchemaErrorView,
                            >(e)
                        }
                }
        },
{
    lemma_core(v);
    lemma_lacks_text(v, "collection"@);
    if let ValueView::Mapping(entries) = v.untagged() {
        assert(carries(v, ValueView::Mapping(entries)));
    }
    if exists|entries: Seq<(ValueView, ValueView)>| #[trigger]
        carries(v, ValueView::Mapping(entries)) {
        let entries = choose|entries: Seq<(ValueView, ValueView)>| #[trigger]
            carries(v, ValueView::Mapping(entries));
        lemma_carries(v, ValueView::Mapping(entries));
    }
    assert forall|x: ValueView, s: Seq<char>| #[trigger]
        carries(x, ValueView::String(s)) implies x.as_str() == Some(s) by {
        lemma_carries(x, ValueView::String(s));
    }
    assert forall|x: ValueView, s: Seq<ValueView>| #[trigger]
        carries(x, ValueView::Sequence(s)) implies x.as_sequence() == Some(s) by {
        lemma_carries(x, ValueView::Sequence(s));
    }
    if let Some(fv) = v.get("fields"@) {
        lemma_core(fv);
        assert(has_entry(v, "fields"@, fv));
        if let ValueView::Sequence(defs) = fv.untagged() {
            assert(carries(fv, ValueView::Sequence(defs)));
        }
    }
}

/// A schema file is read from its frontmatter, and needs one.
pub proof fn law_schema_files(content: Seq<char>)
    ensures
        match crate::frontmatter::file_split(content) {
            Err(e) => schema_of_file(content) == Err::<SchemaView, SchemaErrorView>(
                SchemaErrorView::Frontmatter(e.message()),
            ),
            Ok((None, _)) => schema_of_file(content) == Err::<SchemaView, SchemaErrorView>(
                SchemaErrorView::NoFrontmatter,
            ),
            Ok((Some(v), _)) => schema_of_file(content) == schema_of(v),
        },
{
}

/// The definition found for a name is one of the schema's with that name, and there is
/// none exactly where no field has it.
pub proof fn law_fields_are_found_by_name(s: SchemaView, name: Seq<char>)
    ensures
        s.field(name) matches Some(f) ==> s.fields.contains(f) && f.name == name,
        s.field(name) is None <==> forall|i: int|
            0 <= i < s.fields.len() ==> (#[trigger] s.fields[i]).name != name,
{
    lemma_find_field(s.fields, name, 0);
}

proof fn lemma_find_field(fields: Seq<FieldView>, name: Seq<char>, from: int)
    requires
        0 <= from <= fields.len(),
    ensures
        find_field(fields, name, from) matches Some(f) ==> fields.contains(f) && f.name == name,
        find_field(fields, name, from) is None <==> forall|i: int|
            from <= i < fields.len() ==> (#[trigger] fields[i]).name != name,
    decreases fields.len() - from,
{
    if from < fields.len() {
        lemma_find_field(fields, name, from + 1);
    }
}

} // verus!
