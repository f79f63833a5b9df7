//! A database: a directory with any number of collections in it.

use vstd::prelude::*;

use crate::collection::{
    opened_collection, read_view, Collection, CollectionError, CollectionErrorView, CollectionView,
};
use crate::frontmatter::opt_text;
use crate::path::{file_name, join_path, joined, name_of};
use crate::query::{hands_out, scanned, Query, QueryView, Scan, ScanView};
use crate::record::{file_views, FileView, RecordFile};
use crate::sort::{in_order, lemma_text_lawful, merge_sort, text_relation, views_of, ByText};
use crate::text::{chars_of, glue2, glue3, holds_char, same_text, text_views};
use crate::validation::{problem_views, ProblemView, ValidationError};
use crate::view::{materialize, planned, MaterializeError, MaterializeErrorView, PlanView, ViewPlan};
use crate::walk::is_hidden;

verus! {

/// Why a database or one of its collections could not be opened.
#[derive(Debug)]
pub enum DbError {
    NotADirectory(String),
    Io(String),
    InvalidCollectionName(String),
    Collection(CollectionError),
}

/// The content of a [`DbError`].
pub enum DbErrorView {
    NotADirectory(Seq<char>),
    Io(Seq<char>),
    InvalidCollectionName(Seq<char>),
    Collection(CollectionErrorView),
}

impl View for DbError {
    type V = DbErrorView;

    open spec fn view(&self) -> DbErrorView {
        match *self {
            DbError::NotADirectory(p) => DbErrorView::NotADirectory(p@),
            DbError::Io(m) => DbErrorView::Io(m@),
            DbError::InvalidCollectionName(n) => DbErrorView::InvalidCollectionName(n@),
            DbError::Collection(e) => DbErrorView::Collection(e@),
        }
    }
}

impl DbErrorView {
    /// The error in words.
    pub open spec fn message(self) -> Seq<char> {
        match self {
            DbErrorView::NotADirectory(p) => "`"@ + p + "` is not a directory"@,
            DbErrorView::Io(m) => "I/O error: "@ + m,
            DbErrorView::InvalidCollectionName(n) => "invalid collection name `"@ + n
                + "`: path separators and `..` are not allowed"@,
            DbErrorView::Collection(e) => "collection error: "@ + e.message(),
        }
    }
}

impl DbError {
    /// The error in words.
    pub fn message(&self) -> (r: String)
        ensures
            r@ == self@.message(),
    {
        match self {
            DbError::NotADirectory(p) => glue3("`", p, "` is not a directory"),
            DbError::Io(m) => glue2("I/O error: ", m),
            DbError::InvalidCollectionName(n) => glue3(
                "invalid collection name `",
                n,
                "`: path separators and `..` are not allowed",
            ),
            DbError::Collection(e) => {
                let m = e.message();
                glue2("collection error: ", m.as_str())
            },
        }
    }
}

/// A database in a directory. Each directory in it with a `schema.md` is a
/// [`Collection`].
pub struct Db {
    root: String,
    canonical: String,
}

/// The content of a [`Db`].
pub struct DbView {
    pub root: Seq<char>,
    /// The canonical form of the root. Databases with the same canonical root
    /// share one lock.
    pub canonical: Seq<char>,
}

impl View for Db {
    type V = DbView;

    closed spec fn view(&self) -> DbView {
        DbView { root: self.root@, canonical: self.canonical@ }
    }
}

/// A name that a collection can have: not empty, without separators, and neither
/// `.` nor `..`.
pub open spec fn is_collection_name(name: Seq<char>) -> bool {
    name.len() > 0 && !name.contains('/') && !name.contains('\\') && name != "."@ && name != ".."@
}

/// An entry of the database's directory; its name where that is valid text, and
/// whether it is a directory with a `schema.md` in it.
#[derive(Debug)]
pub struct DbEntry {
    pub name: Option<String>,
    pub is_collection: bool,
}

/// The names of the collections among the entries, up to the first entry that
/// could not be read. Hidden directories and the directory of views are none.
pub open spec fn collection_names(entries: Seq<Result<DbEntry, String>>) -> Result<
    Seq<Seq<char>>,
    Seq<char>,
>
    decreases entries.len(),
{
    if entries.len() == 0 {
        Ok(Seq::empty())
    } else {
        match collection_names(entries.drop_last()) {
            Err(e) => Err(e),
            Ok(names) => match entries.last() {
                Err(e) => Err(e@),
                Ok(entry) => match entry.name {
                    Some(name) => if entry.is_collection && !is_hidden(name@) && name@ != "views"@ {
                        Ok(names.push(name@))
                    } else {
                        Ok(names)
                    },
                    None => Ok(names),
                },
            },
        }
    }
}

proof fn lemma_names_prefix(entries: Seq<Result<DbEntry, String>>, k: int)
    requires
        0 <= k <= entries.len(),
        collection_names(entries.take(k)) is Err,
    ensures
        collection_names(entries) == collection_names(entries.take(k)),
    decreases entries.len() - k,
{
    if k == entries.len() {
        assert(entries.take(k) =~= entries);
    } else {
        assert(entries.take(k + 1).drop_last() =~= entries.take(k));
        lemma_names_prefix(entries, k + 1);
    }
}

/// The problems of one collection.
pub struct Report {
    pub collection: String,
    pub problems: Vec<ValidationError>,
}

/// The content of a [`Report`].
pub struct ReportView {
    pub collection: Seq<char>,
    pub problems: Seq<ProblemView>,
}

impl View for Report {
    type V = ReportView;

    open spec fn view(&self) -> ReportView {
        ReportView { collection: self.collection@, problems: problem_views(self.problems@) }
    }
}

pub open spec fn report_views(list: Seq<Report>) -> Seq<ReportView> {
    list.map_values(|r: Report| r@)
}

/// The reports with problems, up to the first collection that could not be
/// opened.
pub open spec fn problem_reports(reports: Seq<Result<Report, DbError>>) -> Result<
    Seq<ReportView>,
    DbErrorView,
>
    decreases reports.len(),
{
    if reports.len() == 0 {
        Ok(Seq::empty())
    } else {
        match problem_reports(reports.drop_last()) {
            Err(e) => Err(e),
            Ok(before) => match reports.last() {
                Err(e) => Err(e@),
                Ok(report) => if report.problems@.len() == 0 {
                    Ok(before)
                } else {
                    Ok(before.push(report@))
                },
            },
        }
    }
}

/// The directory name of a collection: the last component of its path.
pub open spec fn directory_name(c: CollectionView) -> Seq<char> {
    match file_name(c.root) {
        Some(name) => name,
        None => c.schema.collection,
    }
}

/// Whether `r` is the plan of a view of what a query hands out from the files of
/// its collection.
pub open spec fn view_of(
    query: QueryView,
    collection: CollectionView,
    files: Seq<FileView>,
    view: Seq<char>,
    group_by: Option<Seq<char>>,
    generation: Seq<char>,
    r: Result<PlanView, MaterializeErrorView>,
) -> bool {
    exists|found: ScanView| #[trigger]
        hands_out(query, scanned(query.filters, files, false), found) && r == planned(
            view,
            generation,
            directory_name(collection),
            found.records,
            found.error,
            group_by,
        )
}

impl Db {
    /// Opens a database, given whether its root is a directory and the root's
    /// canonical form. No collections are looked for yet.
    pub fn open(root: &str, is_dir: bool, canonical: Result<String, String>) -> (r: Result<
        Db,
        DbError,
    >)
        ensures
            match r {
                Ok(db) => is_dir && canonical is Ok && db@ == (DbView {
                    root: root@,
                    canonical: canonical->Ok_0@,
                }),
                Err(e) => if !is_dir {
                    e@ == DbErrorView::NotADirectory(root@)
                } else {
                    canonical is Err && e@ == DbErrorView::NotADirectory(canonical->Err_0@)
                },
            },
    {
        if !is_dir {
            return Err(DbError::NotADirectory(root.to_string()));
        }
        match canonical {
            Ok(canonical) => Ok(Db { root: root.to_string(), canonical }),
            Err(e) => Err(DbError::NotADirectory(e)),
        }
    }

    /// The database's directory.
    pub fn root(&self) -> (r: &str)
        ensures
            r@ == self@.root,
    {
        self.root.as_str()
    }

    /// What the lock on view materialization is kept under: the same for all
    /// databases with the same canonical root.
    pub fn lock_key(&self) -> (r: &str)
        ensures
            r@ == self@.canonical,
    {
        self.canonical.as_str()
    }

    /// The directory of the collection with that name.
    pub fn collection_path(&self, name: &str) -> (r: Result<String, DbError>)
        ensures
            match r {
                Ok(path) => is_collection_name(name@) && path@ == joined(self@.root, name@),
                Err(e) => !is_collection_name(name@) && e@ == DbErrorView::InvalidCollectionName(
                    name@,
                ),
            },
    {
        let chars = chars_of(name);
        if chars.len() == 0 || holds_char(&chars, '/') || holds_char(&chars, '\\') || same_text(
            name,
            "..",
        ) || same_text(name, ".") {
            return Err(DbError::InvalidCollectionName(name.to_string()));
        }
        Ok(join_path(self.root.as_str(), name))
    }

    /// Opens the collection with that name, given the content of its `schema.md`
    /// and the canonical form of its directory.
    pub fn collection(
        &self,
        name: &str,
        schema: Result<String, String>,
        canonical: Result<String, String>,
    ) -> (r: Result<Collection, DbError>)
        ensures
            ({
                let opened = opened_collection(
                    joined(self@.root, name@),
                    read_view(schema),
                    read_view(canonical),
                );
                match r {
                    Ok(c) => is_collection_name(name@) && opened == Ok::<
                        CollectionView,
                        CollectionErrorView,
                    >(c@),
                    Err(e) => if is_collection_name(name@) {
                        match opened {
                            Err(inner) => e@ == DbErrorView::Collection(inner),
                            Ok(_) => false,
                        }
                    } else {
                        e@ == DbErrorView::InvalidCollectionName(name@)
                    },
                }
            }),
    {
        let path = match self.collection_path(name) {
            Ok(path) => path,
            Err(e) => {
                return Err(e);
            },
        };
        match Collection::open(path.as_str(), schema, canonical) {
            Ok(c) => Ok(c),
            Err(e) => Err(DbError::Collection(e)),
        }
    }

    /// The names of the collections, in order, given the entries of the
    /// database's directory.
    pub fn collections(&self, entries: Result<Vec<Result<DbEntry, String>>, String>) -> (r: Result<
        Vec<String>,
        DbError,
    >)
        ensures
            match (r, entries) {
                (Ok(names), Ok(list)) => match collection_names(list@) {
                    Ok(expected) => text_views(names@).to_multiset() == expected.to_multiset()
                        && in_order(text_views(names@), text_relation()),
                    Err(_) => false,
                },
                (Err(e), Ok(list)) => match collection_names(list@) {
                    Ok(_) => false,
                    Err(m) => e@ == DbErrorView::Io(m),
                },
                (Err(e), Err(m)) => e@ == DbErrorView::Io(m@),
                (Ok(_), Err(_)) => false,
            },
    {
        let list = match entries {
            Ok(list) => list,
            Err(e) => {
                return Err(DbError::Io(e));
            },
        };
        let mut names: Vec<String> = Vec::new();
        assert(text_views(names@) =~= Seq::<Seq<char>>::empty());
        for i in 0..list.len()
            invariant
                entries == Ok::<Vec<Result<DbEntry, String>>, String>(list),
                collection_names(list@.take(i as int)) == Ok::<Seq<Seq<char>>, Seq<char>>(
                    text_views(names@),
                ),
        {
            let ghost before = names@;
            proof {
                assert(list@.take(i + 1).drop_last() =~= list@.take(i as int));
                if collection_names(list@.take(i + 1)) is Err {
                    lemma_names_prefix(list@, i + 1);
                }
            }
            match &list[i] {
                Err(e) => {
                    return Err(DbError::Io(e.clone()));
                },
                Ok(entry) => {
                    if let Some(name) = &entry.name {
                        let chars = chars_of(name);
                        let hidden = chars.len() > 0 && chars[0] == '.';
                        if entry.is_collection && !hidden && !same_text(name, "views") {
                            names.push(name.clone());
                            assert(text_views(names@) =~= text_views(before).push(name@));
                        }
                    }
                },
            }
        }
        assert(list@.take(list@.len() as int) =~= list@);
        let ghost found = text_views(names@);
        let sorted = merge_sort(names, &ByText);
        proof {
            assert(views_of(sorted@) == text_views(sorted@));
            assert(views_of(names@) == found);
            lemma_text_lawful(found.to_multiset());
        }
        Ok(sorted)
    }

    /// Plans the view of a query's result on the given files, grouped by a field
    /// where one is given.
    pub fn materialize_view(
        &self,
        view_name: &str,
        query: &Query<'_>,
        files: &[RecordFile],
        group_by: Option<&str>,
        generation: &str,
    ) -> (r: Result<ViewPlan, MaterializeError>)
        ensures
            view_of(
                query@,
                query.source(),
                file_views(files@),
                view_name@,
                opt_text(group_by),
                generation@,
                match r {
                    Ok(plan) => Ok(plan@),
                    Err(e) => Err(e@),
                },
            ),
    {
        let name = match name_of(query.collection_root()) {
            Some(name) => name,
            None => query.collection_name().to_string(),
        };
        let found = query.run(files);
        assert(hands_out(query@, scanned(query@.filters, file_views(files@), false), found@));
        let Scan { records, error } = found;
        materialize(view_name, generation, name.as_str(), records.as_slice(), error, group_by)
    }

    /// The reports of the collections that have problems, given the reports of all
    /// of them.
    pub fn validate_all(&self, reports: Vec<Result<Report, DbError>>) -> (r: Result<
        Vec<Report>,
        DbError,
    >)
        ensures
            match r {
                Ok(list) => problem_reports(reports@) == Ok::<Seq<ReportView>, DbErrorView>(
                    report_views(list@),
                ),
                Err(e) => problem_reports(reports@) == Err::<Seq<ReportView>, DbErrorView>(e@),
            },
    {
        let ghost all = reports@;
        let mut rest = crate::sort::reversed(reports);
        let mut out: Vec<Report> = Vec::new();
        assert(report_views(out@) =~= Seq::<ReportView>::empty());
        assert(all.skip(0) =~= all);
        while rest.len() > 0
            invariant
                all == reports@,
                rest@.len() <= all.len(),
                rest@ == all.skip(all.len() - rest@.len()).reverse(),
                problem_reports(all.take(all.len() - rest@.len())) == Ok::<
                    Seq<ReportView>,
                    DbErrorView,
                >(report_views(out@)),
            decreases rest@.len(),
        {
            let ghost i = all.len() - rest@.len();
            let ghost was = rest@;
            let ghost before = out@;
            let next = rest.pop().unwrap();
            proof {
                assert(was.last() == all[i]);
                assert(all.take(i + 1).drop_last() =~= all.take(i));
                assert(rest@ =~= all.skip(i + 1).reverse());
                if problem_reports(all.take(i + 1)) is Err {
                    lemma_reports_prefix(all, i + 1);
                }
            }
            match next {
                Err(e) => {
                    return Err(e);
                },
                Ok(report) => {
                    if report.problems.len() > 0 {
                        out.push(report);
                        assert(report_views(out@) =~= report_views(before).push(report@));
                    }
                },
            }
        }
        assert(all.take(all.len() as int) =~= all);
        Ok(out)
    }
}

proof fn lemma_reports_prefix(reports: Seq<Result<Report, DbError>>, k: int)
    requires
        0 <= k <= reports.len(),
        problem_reports(reports.take(k)) is Err,
    ensures
        problem_reports(reports) == problem_reports(reports.take(k)),
    decreases reports.len() - k,
{
    if k == reports.len() {
        assert(reports.take(k) =~= reports);
    } else {
        assert(reports.take(k + 1).drop_last() =~= reports.take(k));
        lemma_reports_prefix(reports, k + 1);
    }
}

// ---------------------------------------------------------------------------
// Laws
// ---------------------------------------------------------------------------

/// Hidden directories, the directory of views and directories without schema are
/// never collections; every other one is.
pub proof fn law_collections_exclude(entries: Seq<Result<DbEntry, String>>, name: Seq<char>)
    ensures
        collection_names(entries) matches Ok(names) ==> (names.contains(name) <==> exists|i: int|
            0 <= i < entries.len() && is_collection_entry(#[trigger] entries[i], name)),
        collection_names(entries) matches Ok(names) ==> names.contains(name) ==> !is_hidden(name)
            && name != "views"@,
    decreases entries.len(),
{
    if entries.len() > 0 && collection_names(entries) is Ok {
        let front = entries.drop_last();
        law_collections_exclude(front, name);
        let before = collection_names(front)->Ok_0;
        let names = collection_names(entries)->Ok_0;
        let last = entries.len() - 1;
        if names.contains(name) {
            let k = choose|k: int| 0 <= k < names.len() && names[k] == name;
            if k < before.len() {
                assert(before[k] == name);
                assert(before.contains(name));
                let i = choose|i: int|
                    0 <= i < front.len() && is_collection_entry(#[trigger] front[i], name);
                assert(entries[i] == front[i]);
            } else {
                assert(is_collection_entry(entries[last], name));
            }
        }
        if exists|i: int| 0 <= i < entries.len() && is_collection_entry(#[trigger] entries[i], name) {
            let i = choose|i: int|
                0 <= i < entries.len() && is_collection_entry(#[trigger] entries[i], name);
            if i < last {
                assert(front[i] == entries[i]);
                assert(before.contains(name));
                let k = choose|k: int| 0 <= k < before.len() && before[k] == name;
                assert(names[k] == name);
            } else {
                assert(names[names.len() - 1] == name);
            }
        }
    }
}

/// An entry that is a collection of that name.
pub open spec fn is_collection_entry(entry: Result<DbEntry, String>, name: Seq<char>) -> bool {
    match entry {
        Ok(e) => match e.name {
            Some(n) => n@ == name && e.is_collection && !is_hidden(name) && name != "views"@,
            None => false,
        },
        Err(_) => false,
    }
}

/// The name of a collection is a single component, so that its directory lies
/// directly in the database's.
pub proof fn law_collection_names_stay_inside(name: Seq<char>)
    requires
        is_collection_name(name),
    ensures
        crate::path::components(name) == seq![name],
        name != ".."@,
        name != "."@,
{
    crate::path::lemma_single_component(name);
}

} // verus!
