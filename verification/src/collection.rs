//! A collection: a directory with a `schema.md` and any number of record files.
//!
//! The functions here decide; reading directories and files is left to the
//! caller, who hands in what was read.

use vstd::prelude::*;

use crate::index::{built, indexed_views, Index, IndexError, IndexErrorView, IndexedFile};
use crate::path::{
    components, is_safe_relative, is_within, join_path, joined, normalize, normalized,
    safe_relative, within,
};
use crate::query::Query;
use crate::record::{read_content, Record, RecordError, RecordErrorView, RecordFile, RecordView};
use crate::schema::{schema_of_file, Schema, SchemaError, SchemaErrorView, SchemaView};
use crate::sidecar::{index_text, read_index};
use crate::sort::{in_order, path_relation, reversed};
use crate::text::{chars_of, glue2, glue3, text_of, text_views};
use crate::validation::{
    problem_views, record_problems, record_refs, ref_problems, ref_views, refs_of, resolve_refs,
    validate_record, ProblemView, RefUse, Severity, ValidationError,
};
use crate::walk::Walk;

verus! {

/// Why a collection could not be opened.
#[derive(Debug)]
pub enum CollectionError {
    ReadSchema(String),
    Schema(SchemaError),
}

/// The content of a [`CollectionError`].
pub enum CollectionErrorView {
    ReadSchema(Seq<char>),
    Schema(SchemaErrorView),
}

impl View for CollectionError {
    type V = CollectionErrorView;

    open spec fn view(&self) -> CollectionErrorView {
        match *self {
            CollectionError::ReadSchema(m) => CollectionErrorView::ReadSchema(m@),
            CollectionError::Schema(e) => CollectionErrorView::Schema(e@),
        }
    }
}

impl CollectionErrorView {
    /// The error in words.
    pub open spec fn message(self) -> Seq<char> {
        match self {
            CollectionErrorView::ReadSchema(m) => "failed to read schema.md: "@ + m,
            CollectionErrorView::Schema(e) => "schema error: "@ + e.message(),
        }
    }
}

impl CollectionError {
    /// The error in words.
    pub fn message(&self) -> (r: String)
        ensures
            r@ == self@.message(),
    {
        match self {
            CollectionError::ReadSchema(m) => glue2("failed to read schema.md: ", m),
            CollectionError::Schema(e) => {
                let m = e.message();
                glue2("schema error: ", m.as_str())
            },
        }
    }
}

/// A typed collection of records.
pub struct Collection {
    root: String,
    root_canonical: String,
    schema: Schema,
}

/// The content of a [`Collection`].
pub struct CollectionView {
    pub root: Seq<char>,
    pub root_canonical: Seq<char>,
    pub schema: SchemaView,
}

impl View for Collection {
    type V = CollectionView;

    closed spec fn view(&self) -> CollectionView {
        CollectionView {
            root: self.root@,
            root_canonical: self.root_canonical@,
            schema: self.schema@,
        }
    }
}

/// The content of something that was read or not.
pub open spec fn read_view(r: Result<String, String>) -> Result<Seq<char>, Seq<char>> {
    match r {
        Ok(s) => Ok(s@),
        Err(e) => Err(e@),
    }
}

/// The collection at `root`, given what its `schema.md` holds and the canonical
/// form of `root`.
pub open spec fn opened_collection(
    root: Seq<char>,
    schema: Result<Seq<char>, Seq<char>>,
    canonical: Result<Seq<char>, Seq<char>>,
) -> Result<CollectionView, CollectionErrorView> {
    match schema {
        Err(e) => Err(CollectionErrorView::ReadSchema(e)),
        Ok(content) => match schema_of_file(content) {
            Err(e) => Err(CollectionErrorView::Schema(e)),
            Ok(schema) => match canonical {
                Err(e) => Err(CollectionErrorView::ReadSchema("cannot canonicalize root: "@ + e)),
                Ok(root_canonical) => Ok(CollectionView { root, root_canonical, schema }),
            },
        },
    }
}

/// The directory that holds `path`; `path` itself where nothing holds it.
pub open spec fn parent(path: Seq<char>) -> Seq<char> {
    let parts = components(path);
    if parts.len() < 2 {
        path
    } else if parts.len() == 2 && parts[0].len() == 0 {
        "/"@
    } else {
        crate::text::join(parts.drop_last(), '/')
    }
}

fn parent_of(path: &str) -> (r: String)
    ensures
        r@ == parent(path@),
{
    let chars = chars_of(path);
    let mut parts = crate::text::pieces(&chars, '/');
    let ghost all = components(path@);
    assert(crate::text::views(parts@) == all);
    assert(all.len() == parts@.len());
    if parts.len() < 2 {
        return path.to_string();
    }
    assert(all[0] == parts@[0]@);
    if parts.len() == 2 && parts[0].len() == 0 {
        return "/".to_string();
    }
    let _ = parts.pop();
    let mut texts: Vec<String> = Vec::new();
    for i in 0..parts.len()
        invariant
            all == components(path@),
            all.len() == parts@.len() + 1,
            forall|j: int| 0 <= j < parts@.len() ==> (#[trigger] parts@[j])@ == all[j],
            texts@.len() == i,
            forall|j: int| 0 <= j < i ==> (#[trigger] texts@[j])@ == all[j],
    {
        texts.push(text_of(parts[i].as_slice()));
    }
    assert(text_views(texts@) =~= all.drop_last());
    crate::text::join_texts(&texts, '/')
}

// ---------------------------------------------------------------------------
// Reading one record
// ---------------------------------------------------------------------------

/// What to do next in order to read a record.
pub enum ReadStep {
    /// Find out whether the path names a symbolic link.
    Examine(String),
    /// Find the canonical form of the path.
    Canonicalize(String),
    /// Read the file.
    Read(String),
    /// Nothing more: the record, or why there is none.
    Done(Result<Record, RecordError>),
}

/// What came of a step.
pub enum ReadEvent {
    Examined(Result<bool, String>),
    Canonicalized(Result<String, String>),
    Content(Result<String, String>),
}

/// The content of a [`ReadStep`].
pub enum StepView {
    Examine(Seq<char>),
    Canonicalize(Seq<char>),
    Read(Seq<char>),
    Done(Result<RecordView, RecordErrorView>),
}

/// The content of a [`ReadEvent`].
pub enum EventView {
    Examined(Result<bool, Seq<char>>),
    Canonicalized(Result<Seq<char>, Seq<char>>),
    Content(Result<Seq<char>, Seq<char>>),
}

impl View for ReadStep {
    type V = StepView;

    open spec fn view(&self) -> StepView {
        match *self {
            ReadStep::Examine(p) => StepView::Examine(p@),
            ReadStep::Canonicalize(p) => StepView::Canonicalize(p@),
            ReadStep::Read(p) => StepView::Read(p@),
            ReadStep::Done(r) => StepView::Done(
                match r {
                    Ok(record) => Ok(record@),
                    Err(e) => Err(e@),
                },
            ),
        }
    }
}

impl View for ReadEvent {
    type V = EventView;

    open spec fn view(&self) -> EventView {
        match *self {
            ReadEvent::Examined(r) => EventView::Examined(
                match r {
                    Ok(b) => Ok(b),
                    Err(e) => Err(e@),
                },
            ),
            ReadEvent::Canonicalized(r) => EventView::Canonicalized(read_view(r)),
            ReadEvent::Content(r) => EventView::Content(read_view(r)),
        }
    }
}

pub open spec fn failed(e: RecordErrorView) -> StepView {
    StepView::Done(Err(e))
}

impl CollectionView {
    /// The first step to a record: paths that could leave the collection are
    /// refused by their text alone.
    pub open spec fn first_step(self, path: Seq<char>) -> StepView {
        if safe_relative(path) {
            StepView::Examine(joined(self.root, path))
        } else {
            failed(RecordErrorView::InvalidPath(path))
        }
    }

    /// The step after an event. Symbolic links are not followed, and only files
    /// whose canonical path lies within the collection are read.
    pub open spec fn next_step(self, path: Seq<char>, event: EventView) -> StepView {
        match event {
            EventView::Examined(Err(reason)) => failed(RecordErrorView::ReadFile { path, reason }),
            EventView::Examined(Ok(true)) => failed(
                RecordErrorView::InvalidPath(
                    "`"@ + path + "` is a symlink; symlinks are not followed"@,
                ),
            ),
            EventView::Examined(Ok(false)) => StepView::Canonicalize(joined(self.root, path)),
            EventView::Canonicalized(Err(reason)) => failed(
                RecordErrorView::ReadFile { path, reason },
            ),
            EventView::Canonicalized(Ok(canonical)) => if within(canonical, self.root_canonical) {
                StepView::Read(canonical)
            } else {
                failed(
                    RecordErrorView::InvalidPath(
                        "`"@ + path + "` resolves outside the collection root"@,
                    ),
                )
            },
            EventView::Content(Err(reason)) => failed(RecordErrorView::ReadFile { path, reason }),
            EventView::Content(Ok(content)) => StepView::Done(read_content(path, content)),
        }
    }

    /// The problems of a record: those of its values, then those of its
    /// references, given where each reference leads.
    pub open spec fn problems(self, record: RecordView, targets: Seq<Option<String>>) -> Seq<
        ProblemView,
    > {
        let refs = record_refs(record, self.schema.fields);
        record_problems(record, self.schema.fields) + ref_problems(
            record.path,
            refs,
            targets,
            parent(self.root_canonical),
            refs.len(),
        )
    }

    /// The problems of a file: one for a file that is no record.
    pub open spec fn file_problems(self, f: CheckedView) -> Seq<ProblemView> {
        match f.file.record() {
            Ok(record) => self.problems(record, f.targets),
            Err(e) => seq![
                ProblemView {
                    record_path: match e {
                        RecordErrorView::ReadFile { path, .. } => path,
                        _ => "?"@,
                    },
                    field: "-"@,
                    message: "read error: "@ + e.message(),
                    severity: Severity::Error,
                },
            ],
        }
    }

    pub open spec fn all_problems(self, files: Seq<CheckedView>) -> Seq<ProblemView>
        decreases files.len(),
    {
        if files.len() == 0 {
            Seq::empty()
        } else {
            self.all_problems(files.drop_last()) + self.file_problems(files.last())
        }
    }
}

/// A record file together with where each of the record's references leads.
pub struct CheckedFile {
    pub file: RecordFile,
    pub targets: Vec<Option<String>>,
}

/// The content of a [`CheckedFile`].
pub struct CheckedView {
    pub file: crate::record::FileView,
    pub targets: Seq<Option<String>>,
}

impl View for CheckedFile {
    type V = CheckedView;

    open spec fn view(&self) -> CheckedView {
        CheckedView { file: self.file@, targets: self.targets@ }
    }
}

pub open spec fn checked_views(files: Seq<CheckedFile>) -> Seq<CheckedView> {
    files.map_values(|f: CheckedFile| f@)
}

impl Collection {
    /// Opens the collection in the directory `root`, given the content of its
    /// `schema.md` and the canonical form of `root`.
    pub fn open(
        root: &str,
        schema: Result<String, String>,
        canonical: Result<String, String>,
    ) -> (r: Result<Collection, CollectionError>)
        ensures
            match r {
                Ok(c) => opened_collection(root@, read_view(schema), read_view(canonical)) == Ok::<
                    CollectionView,
                    CollectionErrorView,
                >(c@),
                Err(e) => opened_collection(root@, read_view(schema), read_view(canonical)) == Err::<
                    CollectionView,
                    CollectionErrorView,
                >(e@),
            },
    {
        let content = match schema {
            Ok(content) => content,
            Err(e) => {
                return Err(CollectionError::ReadSchema(e));
            },
        };
        let schema = match Schema::from_markdown(content.as_str()) {
            Ok(schema) => schema,
            Err(e) => {
                return Err(CollectionError::Schema(e));
            },
        };
        match canonical {
            Ok(root_canonical) => Ok(Collection { root: root.to_string(), root_canonical, schema }),
            Err(e) => Err(
                CollectionError::ReadSchema(glue2("cannot canonicalize root: ", e.as_str())),
            ),
        }
    }

    /// The collection's name, from its schema.
    pub fn name(&self) -> (r: &str)
        ensures
            r@ == self@.schema.collection,
    {
        self.schema.collection.as_str()
    }

    /// The collection's directory.
    pub fn root(&self) -> (r: &str)
        ensures
            r@ == self@.root,
    {
        self.root.as_str()
    }

    /// The parsed schema.
    pub fn schema(&self) -> (r: &Schema)
        ensures
            r@ == self@.schema,
    {
        &self.schema
    }

    /// The canonical form of the database's directory, which holds the
    /// collection's.
    pub fn db_root_canonical(&self) -> (r: String)
        ensures
            r@ == parent(self@.root_canonical),
    {
        parent_of(self.root_canonical.as_str())
    }

    /// The first step to the record with that path.
    pub fn record(&self, path: &str) -> (r: ReadStep)
        ensures
            r@ == self@.first_step(path@),
    {
        if is_safe_relative(path) {
            ReadStep::Examine(join_path(self.root.as_str(), path))
        } else {
            ReadStep::Done(Err(RecordError::InvalidPath(path.to_string())))
        }
    }

    /// The step to that record after an event.
    pub fn record_next(&self, path: &str, event: ReadEvent) -> (r: ReadStep)
        ensures
            r@ == self@.next_step(path@, event@),
    {
        match event {
            ReadEvent::Examined(Err(reason)) => ReadStep::Done(
                Err(RecordError::ReadFile { path: path.to_string(), reason }),
            ),
            ReadEvent::Examined(Ok(is_symlink)) => if is_symlink {
                ReadStep::Done(
                    Err(
                        RecordError::InvalidPath(
                            glue3("`", path, "` is a symlink; symlinks are not followed"),
                        ),
                    ),
                )
            } else {
                ReadStep::Canonicalize(join_path(self.root.as_str(), path))
            },
            ReadEvent::Canonicalized(Err(reason)) => ReadStep::Done(
                Err(RecordError::ReadFile { path: path.to_string(), reason }),
            ),
            ReadEvent::Canonicalized(Ok(canonical)) => if is_within(
                canonical.as_str(),
                self.root_canonical.as_str(),
            ) {
                ReadStep::Read(canonical)
            } else {
                ReadStep::Done(
                    Err(
                        RecordError::InvalidPath(
                            glue3("`", path, "` resolves outside the collection root"),
                        ),
                    ),
                )
            },
            ReadEvent::Content(Err(reason)) => ReadStep::Done(
                Err(RecordError::ReadFile { path: path.to_string(), reason }),
            ),
            ReadEvent::Content(Ok(content)) => ReadStep::Done(
                Record::from_content(path, content.as_str()),
            ),
        }
    }

    /// The well-formed references of a record, whose targets are then looked up
    /// below the database's directory.
    pub fn refs(&self, record: &Record) -> (r: Vec<RefUse>)
        ensures
            ref_views(r@) == record_refs(record@, self@.schema.fields),
    {
        refs_of(record, &self.schema.fields)
    }

    /// Validates a record against the schema, given where each of its references
    /// leads.
    pub fn validate_record(&self, record: &Record, targets: &[Option<String>]) -> (r: Vec<
        ValidationError,
    >)
        ensures
            problem_views(r@) == self@.problems(record@, targets@),
    {
        let mut out = validate_record(record, &self.schema.fields);
        let root = self.db_root_canonical();
        let mut more = resolve_refs(record, &self.schema.fields, targets, root.as_str());
        let ghost a = out@;
        let ghost b = more@;
        out.append(&mut more);
        assert(problem_views(out@) =~= problem_views(a) + problem_views(b));
        out
    }

    /// Validates all of the collection's files.
    pub fn validate_all(&self, files: &[CheckedFile]) -> (r: Vec<ValidationError>)
        ensures
            problem_views(r@) == self@.all_problems(checked_views(files@)),
    {
        let mut out: Vec<ValidationError> = Vec::new();
        let ghost all = checked_views(files@);
        assert(problem_views(out@) =~= Seq::<ProblemView>::empty());
        for i in 0..files.len()
            invariant
                all == checked_views(files@),
                problem_views(out@) == self@.all_problems(all.take(i as int)),
        {
            assert(all.take(i + 1).drop_last() =~= all.take(i as int));
            assert(all.take(i + 1).last() == files@[i as int]@);
            let ghost before = out@;
            let mut more = self.check_file(&files[i]);
            let ghost added = more@;
            out.append(&mut more);
            assert(problem_views(out@) =~= problem_views(before) + problem_views(added));
        }
        assert(all.take(all.len() as int) =~= all);
        out
    }

    fn check_file(&self, f: &CheckedFile) -> (r: Vec<ValidationError>)
        ensures
            problem_views(r@) == self@.file_problems(f@),
    {
        match f.file.record() {
            Ok(record) => self.validate_record(&record, &f.targets),
            Err(e) => {
                let text = e.message();
                let record_path = match &e {
                    RecordError::ReadFile { path, .. } => path.clone(),
                    _ => "?".to_string(),
                };
                let problem = ValidationError {
                    record_path,
                    field: "-".to_string(),
                    message: glue2("read error: ", text.as_str()),
                    severity: Severity::Error,
                };
                let mut out: Vec<ValidationError> = Vec::new();
                out.push(problem);
                assert(problem_views(out@) =~= seq![problem@]);
                out
            },
        }
    }

    /// The collection's records, given the finished walk of its directory: their
    /// files are read one by one, in the order of their paths.
    pub fn records(&self, walk: Walk) -> (r: RecordIter<'_>)
        ensures
            r.remaining().to_multiset() == walk@.found.to_multiset(),
            in_order(r.remaining(), path_relation()),
            r.source() == self@,
    {
        let paths = walk.finish();
        let ghost all = text_views(paths@);
        let r = RecordIter { collection: self, paths: reversed(paths) };
        assert(r.remaining() =~= all);
        r
    }

    /// Builds the index of the collection's files. Gives the text to save it as, and
    /// the number of records in it.
    pub fn build_index(&self, files: &[IndexedFile]) -> (r: Result<(String, usize), IndexError>)
        ensures
            match (r, built(indexed_views(files@))) {
                (Ok((text, count)), Ok(ix)) => text@ == index_text(ix) && read_index(text@) == Some(
                    ix,
                ) && ix.records.dom().finite() && count == ix.records.dom().len(),
                (Err(e), Err(expected)) => e@ == IndexErrorView::Record(expected),
                _ => false,
            },
    {
        match Index::build(files) {
            Ok(index) => match index.to_json() {
                Ok(text) => Ok((text, index.record_count())),
                Err(e) => Err(e),
            },
            Err(e) => Err(e),
        }
    }

    /// The index that was saved, where there is a text and it holds one of the present
    /// version.
    pub fn load_index(&self, text: Option<&str>) -> (r: Option<Index>)
        ensures
            match text {
                Some(t) => match (r, read_index(t@)) {
                    (Some(ix), Some(expected)) => ix@ == expected,
                    (None, None) => true,
                    _ => false,
                },
                None => r is None,
            },
    {
        match text {
            Some(t) => Index::from_json(t),
            None => None,
        }
    }

    /// Begins a query over this collection's records.
    pub fn query(&self) -> (r: Query<'_>)
        ensures
            r@ == crate::query::fresh_query(),
            r.source() == self@,
    {
        Query::new(self)
    }
}

// ---------------------------------------------------------------------------
// Reading all records
// ---------------------------------------------------------------------------

/// The record files of a collection that are still to be read, in order.
pub struct RecordIter<'a> {
    collection: &'a Collection,
    /// The remaining paths from the last to the first.
    paths: Vec<String>,
}

/// A file to read: where it is, and the path of the record in it.
pub struct RecordPath {
    pub file: String,
    pub path: String,
}

impl<'a> RecordIter<'a> {
    /// The paths of the files that are still to be read.
    pub closed spec fn remaining(&self) -> Seq<Seq<char>> {
        text_views(self.paths@).reverse()
    }

    pub closed spec fn source(&self) -> CollectionView {
        self.collection@
    }

    /// The next file to read, whose record is then parsed by [`RecordFile::record`].
    pub fn next(&mut self) -> (r: Option<RecordPath>)
        ensures
            final(self).source() == old(self).source(),
            match r {
                Some(next) => old(self).remaining().len() > 0 && final(self).remaining() == old(
                    self,
                ).remaining().skip(1) && next.file@ == joined(
                    old(self).source().root,
                    old(self).remaining()[0],
                ) && next.path@ == normalized(old(self).remaining()[0]),
                None => old(self).remaining().len() == 0 && final(self).remaining() == old(
                    self,
                ).remaining(),
            },
    {
        let ghost before = text_views(self.paths@);
        match self.paths.pop() {
            Some(path) => {
                proof {
                    assert(before.last() == path@);
                    assert(before.reverse()[0] == path@);
                    assert(text_views(self.paths@) =~= before.drop_last());
                    assert(before.drop_last().reverse() =~= before.reverse().skip(1));
                }
                let file = join_path(self.collection.root(), path.as_str());
                Some(RecordPath { file, path: normalize(path.as_str()) })
            },
            None => None,
        }
    }
}

// ---------------------------------------------------------------------------
// Laws
// ---------------------------------------------------------------------------

/// Nothing outside the collection is ever read: the first step only looks at paths
/// that are relative and without `..`, and a file is read only under a canonical
/// path within the collection's directory. Symbolic links end the reading.
pub proof fn law_reads_stay_inside(c: CollectionView, path: Seq<char>, event: EventView)
    ensures
        c.first_step(path) matches StepView::Examine(p) ==> safe_relative(path) && p == joined(
            c.root,
            path,
        ),
        !safe_relative(path) ==> c.first_step(path) == failed(RecordErrorView::InvalidPath(path)),
        c.next_step(path, event) matches StepView::Read(p) ==> within(p, c.root_canonical),
        c.next_step(path, EventView::Examined(Ok(true))) matches StepView::Done(r) && r is Err,
{
}

/// A record that is read has the path it was asked for under, and its body is the
/// verbatim end of the file.
pub proof fn law_record_keeps_path_and_body(path: Seq<char>, content: Seq<char>)
    ensures
        read_content(path, content) matches Ok(record) ==> record.path == path
            && crate::text::ends_with(content, record.body),
{
    crate::frontmatter::law_split_reassembles(content);
}

} // verus!
