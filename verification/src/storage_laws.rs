//! What records, collections, databases and walks are, stated on files, paths and
//! directory entries.

use vstd::prelude::*;

use crate::answer_laws::{law_scans_find_what_matches, records_of};
use crate::collection::{
    opened_collection, CheckedView, CollectionErrorView, CollectionView, EventView, StepView,
};
use crate::db::{
    collection_names, directory_name, is_collection_name, problem_reports, view_of, DbEntry,
    DbErrorView, Report, ReportView,
};
use crate::filter::all_accept;
use crate::frontmatter::{fast_value, file_split, head_value, raw_split, FrontmatterErrorView};
use crate::path::{file_name, joined, within};
use crate::path_laws::{has_component, law_file_names, law_safe_paths};
use crate::query::QueryView;
use crate::record::{read_content, FileView, RecordErrorView, RecordView};
use crate::schema::schema_of_file;
use crate::text::{decimal, starts_with};
use crate::validation::{record_problems, record_refs, ref_problems, ProblemView, Severity};
use crate::value::ValueView;
use crate::value_laws::{carries, lemma_carries};
use crate::view::{planned, MaterializeErrorView, PlanView};
use crate::walk::{EntryKind, EntryView, Fate};

verus! {

// ---------------------------------------------------------------------------
// Records
// ---------------------------------------------------------------------------

/// A record is its path, the head of its file and its body. It exists exactly where the
/// file's block is closed and its head can be parsed.
pub proof fn law_records_are_read_from_files(path: Seq<char>, content: Seq<char>)
    ensures
        raw_split(content) is None ==> read_content(path, content) is Err && file_split(content)
            is Err,
        raw_split(content) matches Some((None, body)) ==> read_content(path, content) == Ok::<
            RecordView,
            RecordErrorView,
        >(RecordView { path, head: None, body }) && file_split(content) == Ok::<
            (Option<ValueView>, Seq<char>),
            FrontmatterErrorView,
        >((None, body)),
        raw_split(content) matches Some((Some(head), body)) ==> {
            &&& head_value(head) matches Ok(v) ==> read_content(path, content) == Ok::<
                RecordView,
                RecordErrorView,
            >(RecordView { path, head: Some(head), body }) && file_split(content) == Ok::<
                (Option<ValueView>, Seq<char>),
                FrontmatterErrorView,
            >((Some(v), body))
            &&& head_value(head) is Err ==> read_content(path, content) is Err && file_split(
                content,
            ) is Err
        },
        read_content(path, content) matches Err(e) ==> e is Frontmatter,
{
}

/// A record has the fields of the value that its head means; without a head it has
/// none, and its frontmatter is null.
pub proof fn law_records_have_the_fields_of_their_head(record: RecordView, name: Seq<char>)
    ensures
        record.head is None ==> record.frontmatter() == ValueView::Null && record.field(name)
            is None && !record.has_frontmatter(),
        record.head matches Some(h) ==> (head_value(h) matches Ok(v) ==> record.frontmatter() == v
            && record.field(name) == v.get(name) && (!carries(v, ValueView::Null)
            ==> record.has_frontmatter())),
        (record.head is Some && fast_value(record.head->Some_0) is Some) ==> record.has_frontmatter(),
        carries(record.frontmatter(), ValueView::Null) && !(record.head is Some
            && crate::frontmatter::flat(record.head->Some_0)) ==> !record.has_frontmatter(),
{
    lemma_carries(record.frontmatter(), ValueView::Null);
}

/// The summary of a record begins with its path, and ends with the length of its body
/// in bytes.
pub proof fn law_summaries(record: RecordView)
    ensures
        starts_with(record.summary(), record.path + ": "@),
        crate::text::ends_with(
            record.summary(),
            ", body_len: "@ + decimal(vstd::utf8::encode_utf8(record.body).len()),
        ),
        crate::yaml::json_text(record.frontmatter()) matches Some(json) ==> record.summary()
            == record.path + ": "@ + json + ", body_len: "@ + decimal(
            vstd::utf8::encode_utf8(record.body).len(),
        ),
        crate::yaml::json_text(record.frontmatter()) is None ==> record.summary() == record.path
            + ": "@ + "{}"@ + ", body_len: "@ + decimal(vstd::utf8::encode_utf8(record.body).len()),
{
    let s = record.summary();
    let a = record.path + ": "@;
    let z = ", body_len: "@ + decimal(vstd::utf8::encode_utf8(record.body).len());
    assert(s.take(a.len() as int) =~= a);
    assert(s.skip(s.len() - z.len()) =~= z);
}

// ---------------------------------------------------------------------------
// Collections
// ---------------------------------------------------------------------------

/// Reading a record by its path: a path that is empty, starts at the root, holds a
/// backslash or leads up is refused before anything is looked at. Else it is looked
/// for in the collection's directory; a link is refused, and so is what lies outside
/// when all links are resolved; any other file is read, and its record is the result.
pub proof fn law_reading_a_record(
    c: CollectionView,
    path: Seq<char>,
    found: Seq<char>,
    content: Seq<char>,
    reason: Seq<char>,
)
    ensures
        ({
            let safe = path.len() > 0 && path[0] != '/' && !path.contains('\\') && !has_component(
                path,
                seq!['.', '.'],
            );
            &&& safe ==> c.first_step(path) == StepView::Examine(joined(c.root, path))
            &&& !safe ==> c.first_step(path) == StepView::Done(
                Err::<RecordView, RecordErrorView>(RecordErrorView::InvalidPath(path)),
            )
        }),
        c.next_step(path, EventView::Examined(Ok(false))) == StepView::Canonicalize(
            joined(c.root, path),
        ),
        c.next_step(path, EventView::Examined(Ok(true))) == StepView::Done(
            Err::<RecordView, RecordErrorView>(
                RecordErrorView::InvalidPath(
                    "`"@ + path + "` is a symlink; symlinks are not followed"@,
                ),
            ),
        ),
        within(found, c.root_canonical) ==> c.next_step(path, EventView::Canonicalized(Ok(found)))
            == StepView::Read(found),
        !within(found, c.root_canonical) ==> c.next_step(path, EventView::Canonicalized(Ok(found)))
            == StepView::Done(
            Err::<RecordView, RecordErrorView>(
                RecordErrorView::InvalidPath(
                    "`"@ + path + "` resolves outside the collection root"@,
                ),
            ),
        ),
        c.next_step(path, EventView::Content(Ok(content))) == StepView::Done(
            read_content(path, content),
        ),
        ({
            let failed = StepView::Done(
                Err::<RecordView, RecordErrorView>(RecordErrorView::ReadFile { path, reason }),
            );
            &&& c.next_step(path, EventView::Examined(Err(reason))) == failed
            &&& c.next_step(path, EventView::Canonicalized(Err(reason))) == failed
            &&& c.next_step(path, EventView::Content(Err(reason))) == failed
        }),
{
    law_safe_paths(path);
}

/// A collection opens exactly where its schema can be read and parsed and its directory
/// be found.
pub proof fn law_opening_a_collection(
    root: Seq<char>,
    schema: Result<Seq<char>, Seq<char>>,
    canonical: Result<Seq<char>, Seq<char>>,
)
    ensures
        opened_collection(root, schema, canonical) is Ok <==> schema is Ok && schema_of_file(
            schema->Ok_0,
        ) is Ok && canonical is Ok,
        opened_collection(root, schema, canonical) matches Ok(c) ==> c.root == root
            && c.root_canonical == canonical->Ok_0 && schema_of_file(schema->Ok_0) == Ok::<
            crate::schema::SchemaView,
            crate::schema::SchemaErrorView,
        >(c.schema),
        schema matches Err(e) ==> opened_collection(root, schema, canonical) == Err::<
            CollectionView,
            CollectionErrorView,
        >(CollectionErrorView::ReadSchema(e)),
        (schema is Ok && schema_of_file(schema->Ok_0) is Err) ==> opened_collection(
            root,
            schema,
            canonical,
        ) == Err::<CollectionView, CollectionErrorView>(
            CollectionErrorView::Schema(schema_of_file(schema->Ok_0)->Err_0),
        ),
        (schema is Ok && schema_of_file(schema->Ok_0) is Ok && canonical is Err)
            ==> opened_collection(root, schema, canonical) == Err::<
            CollectionView,
            CollectionErrorView,
        >(CollectionErrorView::ReadSchema("cannot canonicalize root: "@ + canonical->Err_0)),
{
}

/// Validating a collection reports the problems of its files, one after the other: those
/// of the fields of a record and then those of its references, and one error for a file
/// that is no record.
pub proof fn law_validating_a_collection(
    c: CollectionView,
    files: Seq<CheckedView>,
    f: CheckedView,
)
    ensures
        c.all_problems(Seq::empty()) == Seq::<ProblemView>::empty(),
        f.file.record() matches Ok(record) ==> {
            let refs = record_refs(record, c.schema.fields);
            c.all_problems(files.push(f)) == c.all_problems(files) + (record_problems(
                record,
                c.schema.fields,
            ) + ref_problems(
                record.path,
                refs,
                f.targets,
                crate::collection::parent(c.root_canonical),
                refs.len(),
            ))
        },
        f.file.record() matches Err(e) ==> {
            let after = c.all_problems(files.push(f));
            &&& after.len() == c.all_problems(files).len() + 1
            &&& after.drop_last() == c.all_problems(files)
            &&& after.last().severity == Severity::Error
            &&& after.last().message == "read error: "@ + e.message()
            &&& after.last().field == "-"@
            &&& e matches RecordErrorView::ReadFile { path, .. } ==> after.last().record_path == path
            &&& !(e is ReadFile) ==> after.last().record_path == "?"@
        },
{
    assert(files.push(f).drop_last() =~= files);
    if let Err(e) = f.file.record() {
        let after = c.all_problems(files.push(f));
        assert(after.drop_last() =~= c.all_problems(files));
    }
}

// ---------------------------------------------------------------------------
// Databases
// ---------------------------------------------------------------------------

/// The name of a collection is one component that leads nowhere else.
pub proof fn law_names_of_collections(name: Seq<char>)
    ensures
        is_collection_name(name) <==> name.len() > 0 && name != seq!['.'] && name != seq!['.', '.']
            && !name.contains('/') && !name.contains('\\'),
{
    reveal_strlit(".");
    reveal_strlit("..");
    assert("."@ =~= seq!['.'] && ".."@ =~= seq!['.', '.']);
}

/// The collections of a database are its directories with a schema, but for hidden ones
/// and the directory of views; an entry without a readable name counts for nothing, and
/// an error stays.
pub proof fn law_collections_of_a_database(
    entries: Seq<Result<DbEntry, String>>,
    entry: Result<DbEntry, String>,
)
    ensures
        collection_names(Seq::empty()) == Ok::<Seq<Seq<char>>, Seq<char>>(Seq::empty()),
        collection_names(entries) matches Err(e) ==> collection_names(entries.push(entry)) == Err::<
            Seq<Seq<char>>,
            Seq<char>,
        >(e),
        collection_names(entries) matches Ok(names) ==> {
            &&& entry matches Err(e) ==> collection_names(entries.push(entry)) == Err::<
                Seq<Seq<char>>,
                Seq<char>,
            >(e@)
            &&& entry matches Ok(e) ==> {
                let counts = e.name is Some && e.is_collection && !(e.name->Some_0@.len() > 0
                    && e.name->Some_0@[0] == '.') && e.name->Some_0@ != seq![
                    'v',
                    'i',
                    'e',
                    'w',
                    's',
                ];
                &&& counts ==> collection_names(entries.push(entry)) == Ok::<
                    Seq<Seq<char>>,
                    Seq<char>,
                >(names.push(e.name->Some_0@))
                &&& !counts ==> collection_names(entries.push(entry)) == Ok::<
                    Seq<Seq<char>>,
                    Seq<char>,
                >(names)
            }
        },
{
    reveal_strlit("views");
    assert("views"@ =~= seq!['v', 'i', 'e', 'w', 's']);
    assert(entries.push(entry).drop_last() =~= entries);
}

/// Validating a database reports the collections that have problems, in their order; a
/// collection that cannot be validated is the error.
pub proof fn law_validating_a_database(
    reports: Seq<Result<Report, crate::db::DbError>>,
    report: Result<Report, crate::db::DbError>,
)
    ensures
        problem_reports(Seq::empty()) == Ok::<Seq<ReportView>, DbErrorView>(Seq::empty()),
        problem_reports(reports) matches Err(e) ==> problem_reports(reports.push(report)) == Err::<
            Seq<ReportView>,
            DbErrorView,
        >(e),
        problem_reports(reports) matches Ok(before) ==> {
            &&& report matches Err(e) ==> problem_reports(reports.push(report)) == Err::<
                Seq<ReportView>,
                DbErrorView,
            >(e@)
            &&& report matches Ok(r) ==> {
                &&& r@.problems.len() > 0 ==> problem_reports(reports.push(report)) == Ok::<
                    Seq<ReportView>,
                    DbErrorView,
                >(before.push(r@))
                &&& r@.problems.len() == 0 ==> problem_reports(reports.push(report)) == Ok::<
                    Seq<ReportView>,
                    DbErrorView,
                >(before)
            }
        },
{
    assert(reports.push(report).drop_last() =~= reports);
}

/// A view of a query without order and limit holds the links of exactly the records that
/// meet its filters, in the order of the files, for the directory of the collection.
pub proof fn law_views_hold_what_matches(
    q: QueryView,
    c: CollectionView,
    files: Seq<FileView>,
    view: Seq<char>,
    by: Option<Seq<char>>,
    generation: Seq<char>,
    parent: Seq<char>,
    directory: Seq<char>,
    r: Result<PlanView, MaterializeErrorView>,
)
    requires
        q.order is None,
        q.limit is None,
        forall|i: int| 0 <= i < files.len() ==> (#[trigger] files[i]).record() is Ok,
        c.root == parent + seq!['/'] + directory,
        !directory.contains('/'),
        directory.len() > 0,
        directory != seq!['.'],
        directory != seq!['.', '.'],
        view_of(q, c, files, view, by, generation, r),
    ensures
        r == planned(
            view,
            generation,
            directory,
            records_of(files).filter(|x: RecordView| all_accept(q.filters, x)),
            None,
            by,
        ),
{
    law_scans_find_what_matches(q.filters, files, false);
    law_file_names(parent, directory);
}

/// The directory of a collection is the last component of its path; where the path has
/// none, the collection's own name.
pub proof fn law_directories_of_collections(c: CollectionView)
    ensures
        file_name(c.root) matches Some(name) ==> directory_name(c) == name,
        file_name(c.root) is None ==> directory_name(c) == c.schema.collection,
{
}

// ---------------------------------------------------------------------------
// Walks
// ---------------------------------------------------------------------------

/// A name that begins with a point.
pub open spec fn starts_with_point(name: Seq<char>) -> bool {
    name.len() > 0 && name[0] == '.'
}

/// What becomes of a directory entry: a file is a record unless it is hidden or a
/// schema, a directory is entered unless it is hidden or holds what tools leave behind,
/// and a link, or what has no readable name or kind, is passed over.
pub proof fn law_what_becomes_of_entries(kind: EntryKind, name: Seq<char>)
    ensures
        ({
            let fate = (EntryView { name: Some(name), kind }).fate();
            &&& fate == Fate::Record <==> kind == EntryKind::File && !starts_with_point(name)
                && name != "schema.md"@
            &&& fate == Fate::Descend <==> kind == EntryKind::Directory && !starts_with_point(name)
                && name != "node_modules"@ && name != "target"@ && name != "__pycache__"@
        }),
        (EntryView { name: None, kind }).fate() == Fate::Skip,
{
}

} // verus!
