//! What errors and problems say: each names what it is about.

use vstd::prelude::*;

use crate::collection::CollectionErrorView;
use crate::db::DbErrorView;
use crate::frontmatter::FrontmatterErrorView;
use crate::index::IndexErrorView;
use crate::record::RecordErrorView;
use crate::schema::{SchemaErrorView, TypeView};
use crate::text::starts_with;
use crate::validation::{
    bar_list, field_problem, range_problem, target_problem, type_word, value_problem, Severity,
};
use crate::value::{NumberView, ValueView};
use crate::value_laws::{carries, lemma_carries, lemma_core};
use crate::view::{view_name_problem, MaterializeErrorView};
use crate::yaml::printed;

verus! {

/// The text begins with the first one, ends with the last one, and has the middle one
/// between them.
pub open spec fn wraps(text: Seq<char>, before: Seq<char>, what: Seq<char>, after: Seq<char>) -> bool {
    text == before + what + after
}

/// An error that another one caused says so and then what the other one says.
pub proof fn law_causes_are_passed_on(
    s: SchemaErrorView,
    c: CollectionErrorView,
    r: RecordErrorView,
    text: Seq<char>,
)
    ensures
        CollectionErrorView::Schema(s).message() == "schema error: "@ + s.message(),
        DbErrorView::Collection(c).message() == "collection error: "@ + c.message(),
        IndexErrorView::Record(r).message() == "record error: "@ + r.message(),
        MaterializeErrorView::Record(r).message() == "record error: "@ + r.message(),
        RecordErrorView::Frontmatter(text).message() == "frontmatter error: "@ + text,
        SchemaErrorView::Frontmatter(text).message() == "frontmatter error: "@ + text,
        FrontmatterErrorView::Yaml(text).message() == "invalid YAML in frontmatter: "@ + text,
        CollectionErrorView::ReadSchema(text).message() == "failed to read schema.md: "@ + text,
        DbErrorView::Io(text).message() == "I/O error: "@ + text,
        IndexErrorView::Io(text).message() == "I/O error: "@ + text,
        IndexErrorView::Serialize(text).message() == "serialize error: "@ + text,
        MaterializeErrorView::Io(text).message() == "I/O error: "@ + text,
        MaterializeErrorView::InvalidViewName(text).message() == "invalid view name: "@ + text,
{
}

/// An error about something names it in backquotes.
pub proof fn law_errors_name_their_subject(name: Seq<char>, reason: Seq<char>)
    ensures
        wraps(
            RecordErrorView::ReadFile { path: name, reason }.message(),
            "failed to read record file `"@,
            name,
            "`: "@ + reason,
        ),
        wraps(
            RecordErrorView::InvalidPath(name).message(),
            "invalid record path `"@,
            name,
            "`: absolute paths, `..`, and backslashes are not allowed"@,
        ),
        wraps(SchemaErrorView::UnknownType(name).message(), "unknown field type: `"@, name, "`"@),
        wraps(
            SchemaErrorView::InvalidType(name).message(),
            "invalid field type syntax: `"@,
            name,
            "`"@,
        ),
        wraps(SchemaErrorView::DuplicateField(name).message(), "duplicate field name: `"@, name, "`"@),
        wraps(
            SchemaErrorView::ContradictoryOptionality(name).message(),
            "`required` and `optional` are both true for field `"@,
            name,
            "`"@,
        ),
        wraps(DbErrorView::NotADirectory(name).message(), "`"@, name, "` is not a directory"@),
        wraps(
            DbErrorView::InvalidCollectionName(name).message(),
            "invalid collection name `"@,
            name,
            "`: path separators and `..` are not allowed"@,
        ),
        wraps(
            MaterializeErrorView::InvalidGroupValue(name).message(),
            "group value `"@,
            name,
            "` is invalid (encodes to `.` or `..`)"@,
        ),
        wraps(
            MaterializeErrorView::GroupValueTooLong(name).message(),
            "group value `"@,
            name,
            "` is too long after encoding (max 240 bytes)"@,
        ),
{
    let m = RecordErrorView::ReadFile { path: name, reason }.message();
    assert(m =~= "failed to read record file `"@ + name + ("`: "@ + reason));
}

/// The errors that are about nothing in particular say what is missing.
pub proof fn law_errors_about_what_is_missing()
    ensures
        FrontmatterErrorView::Unclosed.message()
            == "frontmatter opened with `---` but never closed"@,
        SchemaErrorView::NotAMapping.message() == "schema frontmatter is not a YAML mapping"@,
        SchemaErrorView::MissingCollection.message() == "schema is missing the `collection` field"@,
        SchemaErrorView::MissingFields.message() == "schema is missing the `fields` sequence"@,
        SchemaErrorView::FieldNotAMapping.message() == "field definition is not a YAML mapping"@,
        SchemaErrorView::MissingFieldName.message() == "field is missing `name`"@,
        SchemaErrorView::MissingFieldType.message() == "field is missing `type`"@,
        SchemaErrorView::NoFrontmatter.message() == "schema file has no frontmatter"@,
        MaterializeErrorView::EmptyGroupValue.message() == "group value is empty"@,
        forall|def: crate::schema::FieldView| #[trigger]
            field_problem(None, def) matches Some(m) ==> m == "required field is missing or null"@,
{
}

/// A problem with a text names the text; one with another value names its kind.
pub proof fn law_problems_name_the_value(
    v: ValueView,
    s: Seq<char>,
    variants: Seq<Seq<char>>,
    target: Seq<char>,
)
    ensures
        carries(v, ValueView::String(s)) ==> {
            &&& value_problem(v, TypeView::Date) matches Some(m) ==> wraps(
                m,
                "invalid date `"@,
                s,
                "` (expected YYYY-MM-DD)"@,
            )
            &&& value_problem(v, TypeView::DateTime) matches Some(m) ==> wraps(
                m,
                "invalid datetime `"@,
                s,
                "` (expected RFC 3339)"@,
            )
            &&& value_problem(v, TypeView::Enum(variants)) matches Some(m) ==> wraps(
                m,
                "`"@,
                s,
                "` not in: "@ + bar_list(variants),
            )
            &&& value_problem(v, TypeView::Ref(target)) matches Some(m) ==> starts_with(
                m,
                "ref `"@ + s + "` "@,
            )
        },
        (forall|t: Seq<char>| !#[trigger] carries(v, ValueView::String(t))) ==> {
            &&& value_problem(v, TypeView::Date) == Some("expected date string, got "@ + type_word(v))
            &&& value_problem(v, TypeView::DateTime) == Some(
                "expected datetime string, got "@ + type_word(v),
            )
            &&& value_problem(v, TypeView::Enum(variants)) == Some(
                "expected enum value, got "@ + type_word(v),
            )
            &&& value_problem(v, TypeView::Ref(target)) == Some(
                "expected ref path string, got "@ + type_word(v),
            )
        },
        (forall|items: Seq<ValueView>| !#[trigger] carries(v, ValueView::Sequence(items)))
            ==> value_problem(v, TypeView::Array(Box::new(TypeView::String))) == Some(
            "expected array, got "@ + type_word(v),
        ),
{
    lemma_core(v);
    if carries(v, ValueView::String(s)) {
        lemma_carries(v, ValueView::String(s));
        if let Some(m) = value_problem(v, TypeView::Enum(variants)) {
            assert(m =~= "`"@ + s + ("` not in: "@ + bar_list(variants)));
        }
        if let Some(m) = value_problem(v, TypeView::Ref(target)) {
            reveal_strlit("` ");
            reveal_strlit("` is empty or has forbidden components");
            reveal_strlit("` does not begin with `");
            let p = "ref `"@ + s + "` "@;
            assert(m.take(p.len() as int) =~= p);
        }
    }
    if let ValueView::String(t) = v.untagged() {
        assert(carries(v, ValueView::String(t)));
    }
    if let ValueView::Sequence(items) = v.untagged() {
        assert(carries(v, ValueView::Sequence(items)));
    }
}

/// The texts of an enumeration are listed with bars between them.
pub proof fn law_lists_with_bars(parts: Seq<Seq<char>>, p: Seq<char>)
    ensures
        bar_list(Seq::empty()) == Seq::<char>::empty(),
        bar_list(seq![p]) == p,
        parts.len() > 0 ==> bar_list(parts.push(p)) == bar_list(parts) + " | "@ + p,
{
    assert(parts.push(p).drop_last() =~= parts);
}

/// A problem with a range names the number and both bounds.
pub proof fn law_range_problems_name_the_number(
    n: NumberView,
    low: NumberView,
    high: NumberView,
)
    ensures
        range_problem(ValueView::Number(n), low, high) matches Some(m) ==> m == "value "@ + printed(n)
            + " is not finite"@ || m == "value "@ + printed(n) + " outside range ["@ + printed(low)
            + ", "@ + printed(high) + "]"@,
{
}

/// A problem with where a reference leads names the reference.
pub proof fn law_reference_problems_name_the_reference(
    path: Seq<char>,
    target: Option<Seq<char>>,
    root: Seq<char>,
)
    ensures
        target is None ==> target_problem(path, target, root) == Some(
            ("ref `"@ + path + "` is dangling: target not found"@, Severity::Warning),
        ),
        (target is Some && target_problem(path, target, root) is Some) ==> target_problem(
            path,
            target,
            root,
        ) == Some(("ref `"@ + path + "` resolves outside the database root"@, Severity::Error)),
{
}

/// A wrong name of a view is named, unless it is empty.
pub proof fn law_view_name_problems(name: Seq<char>)
    ensures
        name.len() == 0 ==> view_name_problem(name) == Some("view name is empty"@),
        name.contains('/') || name.contains('\\') ==> view_name_problem(name) == Some(
            "view name `"@ + name + "` contains a path separator"@,
        ),
        name.len() > 0 && name[0] == '.' && !name.contains('/') && !name.contains('\\')
            ==> view_name_problem(name) == Some("view name `"@ + name + "` starts with `.`"@),
{
}

} // verus!
