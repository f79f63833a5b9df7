//! An optional secondary index: a derived, rebuildable map from field values to
//! record paths, so that selective queries read only the records that can match.
//!
//! The record files are the source of truth. A query re-reads and re-checks
//! every record that the index points at, so an index never makes a record match
//! that does not; and an index that is current lists every record that matches.

use vstd::prelude::*;

use crate::filter::{filter_views, Filter, FilterOp, FilterView, OpView};
use crate::key::{index_key, key_of, key_prefix_bounds, kind_end};
use crate::record::{FileView, Record, RecordError, RecordErrorView, RecordFile};
use crate::sort::{lemma_text_lawful, merge_sort, views_of, ByText};
use crate::text::{
    compare_text, glue2, lemma_ranked_total, lemma_ranked_transitive, same_text, text_lt, text_order,
    text_views, Order,
};
use crate::textmap::{increasing, lemma_entry, map_of, TextMap};
use crate::value::{contents, entry_contents, Value, ValueView};

verus! {

/// The paths of the records that hold a value, in the order in which they were
/// added.
pub struct Postings {
    pub paths: Vec<String>,
}

impl View for Postings {
    type V = Seq<Seq<char>>;

    open spec fn view(&self) -> Seq<Seq<char>> {
        text_views(self.paths@)
    }
}

/// Field, key, paths.
pub type FieldsView = Map<Seq<char>, Map<Seq<char>, Seq<Seq<char>>>>;

/// The time of the last change and the size of a file.
pub type Signature = (u64, u64);

/// The content of an [`Index`].
pub struct IndexView {
    /// The signature of each indexed record.
    pub records: Map<Seq<char>, Signature>,
    /// For each field and each key, the paths of the records with that key.
    pub fields: FieldsView,
}

/// A record file with its signature; a file that is gone has none.
#[derive(Debug)]
pub struct IndexedFile {
    pub file: RecordFile,
    pub signature: Option<Signature>,
}

/// The content of an [`IndexedFile`].
pub struct IndexedView {
    pub file: FileView,
    pub signature: Option<Signature>,
}

impl View for IndexedFile {
    type V = IndexedView;

    open spec fn view(&self) -> IndexedView {
        IndexedView { file: self.file@, signature: self.signature }
    }
}

pub open spec fn indexed_views(files: Seq<IndexedFile>) -> Seq<IndexedView> {
    files.map_values(|f: IndexedFile| f@)
}

/// Why an index could not be built, read or written.
#[derive(Debug)]
pub enum IndexError {
    Io(String),
    Record(RecordError),
    Serialize(String),
}

/// The content of an [`IndexError`].
pub enum IndexErrorView {
    Io(Seq<char>),
    Record(RecordErrorView),
    Serialize(Seq<char>),
}

impl View for IndexError {
    type V = IndexErrorView;

    open spec fn view(&self) -> IndexErrorView {
        match *self {
            IndexError::Io(m) => IndexErrorView::Io(m@),
            IndexError::Record(e) => IndexErrorView::Record(e@),
            IndexError::Serialize(m) => IndexErrorView::Serialize(m@),
        }
    }
}

impl IndexErrorView {
    /// The error in words.
    pub open spec fn message(self) -> Seq<char> {
        match self {
            IndexErrorView::Io(m) => "I/O error: "@ + m,
            IndexErrorView::Record(e) => "record error: "@ + e.message(),
            IndexErrorView::Serialize(m) => "serialize error: "@ + m,
        }
    }
}

impl IndexError {
    /// The error in words.
    pub fn message(&self) -> (r: String)
        ensures
            r@ == self@.message(),
    {
        match self {
            IndexError::Io(m) => glue2("I/O error: ", m),
            IndexError::Record(e) => {
                let m = e.message();
                glue2("record error: ", m.as_str())
            },
            IndexError::Serialize(m) => glue2("serialize error: ", m),
        }
    }
}

// ---------------------------------------------------------------------------
// What an index holds
// ---------------------------------------------------------------------------

/// The keys of the items that have one, in order.
pub open spec fn item_keys(items: Seq<ValueView>) -> Seq<Seq<char>>
    decreases items.len(),
{
    if items.len() == 0 {
        Seq::empty()
    } else {
        let before = item_keys(items.drop_last());
        match key_of(items.last()) {
            Some(k) => before.push(k),
            None => before,
        }
    }
}

/// The keys under which a field's value is indexed: those of its items where it
/// is a sequence, else its own.
pub open spec fn value_keys(v: ValueView) -> Seq<Seq<char>> {
    match v.as_sequence() {
        Some(items) => item_keys(items),
        None => match key_of(v) {
            Some(k) => seq![k],
            None => Seq::empty(),
        },
    }
}

/// The value under a key, or the empty list.
pub open spec fn paths_at(
    buckets: Map<Seq<char>, Seq<Seq<char>>>,
    key: Seq<char>,
) -> Seq<Seq<char>> {
    if buckets.contains_key(key) {
        buckets[key]
    } else {
        Seq::empty()
    }
}

pub open spec fn buckets_at(fields: FieldsView, field: Seq<char>) -> Map<
    Seq<char>,
    Seq<Seq<char>>,
> {
    if fields.contains_key(field) {
        fields[field]
    } else {
        Map::empty()
    }
}

/// The path added under each of the keys.
pub open spec fn add_keys(
    buckets: Map<Seq<char>, Seq<Seq<char>>>,
    keys: Seq<Seq<char>>,
    path: Seq<char>,
) -> Map<Seq<char>, Seq<Seq<char>>>
    decreases keys.len(),
{
    if keys.len() == 0 {
        buckets
    } else {
        let before = add_keys(buckets, keys.drop_last(), path);
        before.insert(keys.last(), paths_at(before, keys.last()).push(path))
    }
}

/// The path added for one entry of the record's frontmatter. The field is
/// entered even where its value has no key.
pub open spec fn add_entry(
    fields: FieldsView,
    entry: (ValueView, ValueView),
    path: Seq<char>,
) -> FieldsView {
    match entry.0.as_str() {
        Some(field) => fields.insert(
            field,
            add_keys(buckets_at(fields, field), value_keys(entry.1), path),
        ),
        None => fields,
    }
}

pub open spec fn add_entries(
    fields: FieldsView,
    entries: Seq<(ValueView, ValueView)>,
    path: Seq<char>,
) -> FieldsView
    decreases entries.len(),
{
    if entries.len() == 0 {
        fields
    } else {
        add_entry(add_entries(fields, entries.drop_last(), path), entries.last(), path)
    }
}

/// The path added for every entry of the record's frontmatter.
pub open spec fn add_record(
    fields: FieldsView,
    path: Seq<char>,
    frontmatter: ValueView,
) -> FieldsView {
    match frontmatter.as_mapping() {
        Some(entries) => add_entries(fields, entries, path),
        None => fields,
    }
}

/// The index with one more file: a file that is gone changes nothing.
pub open spec fn add_file(ix: IndexView, f: IndexedView) -> Result<IndexView, RecordErrorView> {
    match f.signature {
        None => Ok(ix),
        Some(sig) => match f.file.record() {
            Err(e) => Err(e),
            Ok(record) => Ok(
                IndexView {
                    records: ix.records.insert(f.file.path, sig),
                    fields: add_record(ix.fields, f.file.path, record.frontmatter()),
                },
            ),
        },
    }
}

pub open spec fn empty_index() -> IndexView {
    IndexView { records: Map::empty(), fields: Map::empty() }
}

/// The index over the given files, or the first error among them.
pub open spec fn built(files: Seq<IndexedView>) -> Result<IndexView, RecordErrorView>
    decreases files.len(),
{
    if files.len() == 0 {
        Ok(empty_index())
    } else {
        match built(files.drop_last()) {
            Err(e) => Err(e),
            Ok(ix) => add_file(ix, files.last()),
        }
    }
}

/// The paths that are not among `gone`.
pub open spec fn without(paths: Seq<Seq<char>>, gone: Seq<Seq<char>>) -> Seq<Seq<char>>
    decreases paths.len(),
{
    if paths.len() == 0 {
        Seq::empty()
    } else {
        let before = without(paths.drop_last(), gone);
        if gone.contains(paths.last()) {
            before
        } else {
            before.push(paths.last())
        }
    }
}

/// The postings of one field without the given paths.
pub open spec fn drop_buckets(
    buckets: Map<Seq<char>, Seq<Seq<char>>>,
    gone: Seq<Seq<char>>,
) -> Map<Seq<char>, Seq<Seq<char>>> {
    buckets.map_values(|paths: Seq<Seq<char>>| without(paths, gone))
}

/// All postings without the given paths.
pub open spec fn drop_paths(fields: FieldsView, gone: Seq<Seq<char>>) -> FieldsView {
    fields.map_values(|buckets: Map<Seq<char>, Seq<Seq<char>>>| drop_buckets(buckets, gone))
}

/// The paths of a list of files.
pub open spec fn changed_paths(files: Seq<IndexedView>) -> Seq<Seq<char>> {
    files.map_values(|f: IndexedView| f.file.path)
}

/// The index after the changes, one by one, and the error at which they stopped.
/// The file with the error is no longer counted as a record.
pub open spec fn changed(ix: IndexView, files: Seq<IndexedView>) -> (
    IndexView,
    Option<RecordErrorView>,
)
    decreases files.len(),
{
    if files.len() == 0 {
        (ix, None)
    } else {
        let (before, error) = changed(ix, files.drop_last());
        if error is Some {
            (before, error)
        } else {
            let f = files.last();
            let bare = IndexView { records: before.records.remove(f.file.path), ..before };
            match add_file(bare, f) {
                Ok(after) => (after, None),
                Err(e) => (bare, Some(e)),
            }
        }
    }
}

/// The index after re-reading the given files: their postings are dropped first.
pub open spec fn reconciled(ix: IndexView, files: Seq<IndexedView>) -> (
    IndexView,
    Option<RecordErrorView>,
) {
    changed(
        IndexView { records: ix.records, fields: drop_paths(ix.fields, changed_paths(files)) },
        files,
    )
}

// ---------------------------------------------------------------------------
// The index
// ---------------------------------------------------------------------------

/// A secondary index over one collection, held in memory by its user. Build or
/// load it once, use it across queries, and keep it current by reconciling the
/// files that changed.
pub struct Index {
    records: TextMap<Signature>,
    fields: TextMap<TextMap<Postings>>,
}

impl View for Index {
    type V = IndexView;

    closed spec fn view(&self) -> IndexView {
        IndexView { records: self.records@, fields: self.fields@ }
    }
}

fn add_key(buckets: &mut TextMap<Postings>, key: &str, path: &str)
    ensures
        final(buckets)@ == old(buckets)@.insert(
            key@,
            paths_at(old(buckets)@, key@).push(path@),
        ),
{
    let ghost start = buckets@;
    let mut list = match buckets.insert(key, Postings { paths: Vec::new() }) {
        Some(list) => list,
        None => Postings { paths: Vec::new() },
    };
    assert(list@ =~= paths_at(start, key@));
    let ghost before = list@;
    list.paths.push(path.to_string());
    assert(list@ =~= before.push(path@));
    let _ = buckets.insert(key, list);
    assert(buckets@ =~= start.insert(key@, paths_at(start, key@).push(path@)));
}

fn index_value(buckets: &mut TextMap<Postings>, v: &Value, path: &str)
    ensures
        final(buckets)@ == add_keys(old(buckets)@, value_keys(v@), path@),
{
    let ghost start = buckets@;
    if let Some(items) = v.as_sequence() {
        let ghost all = contents(items@);
        assert(item_keys(all.take(0)) =~= Seq::<Seq<char>>::empty());
        for i in 0..items.len()
            invariant
                all == contents(items@),
                v@.as_sequence() == Some(all),
                buckets@ == add_keys(start, item_keys(all.take(i as int)), path@),
        {
            assert(all.take(i + 1).drop_last() =~= all.take(i as int));
            assert(all.take(i + 1).last() == items@[i as int]@);
            let ghost keys = item_keys(all.take(i as int));
            if let Some(key) = index_key(&items[i]) {
                add_key(buckets, key.as_str(), path);
                assert(keys.push(key@).drop_last() =~= keys);
            }
        }
        assert(all.take(all.len() as int) =~= all);
    } else if let Some(key) = index_key(v) {
        add_key(buckets, key.as_str(), path);
        assert(seq![key@].drop_last() =~= Seq::<Seq<char>>::empty());
        assert(add_keys(start, seq![key@].drop_last(), path@) == start);
    }
}

/// Adds the values of one record's fields. Sequences are indexed item by item,
/// so that queries can ask what they contain.
fn index_record(fields: &mut TextMap<TextMap<Postings>>, path: &str, record: &Record)
    ensures
        final(fields)@ == add_record(old(fields)@, path@, record@.frontmatter()),
{
    let ghost start = fields@;
    let entries = match record.frontmatter().as_mapping() {
        Some(entries) => entries,
        None => {
            return;
        },
    };
    let ghost all = entry_contents(entries@);
    for i in 0..entries.len()
        invariant
            all == entry_contents(entries@),
            record@.frontmatter().as_mapping() == Some(all),
            fields@ == add_entries(start, all.take(i as int), path@),
    {
        assert(all.take(i + 1).drop_last() =~= all.take(i as int));
        assert(all.take(i + 1).last() == (entries@[i as int].0@, entries@[i as int].1@));
        let ghost before = fields@;
        if let Some(field) = entries[i].0.as_str() {
            let mut buckets = match fields.insert(field, TextMap::new()) {
                Some(b) => b,
                None => TextMap::new(),
            };
            assert(buckets@ =~= buckets_at(before, field@));
            index_value(&mut buckets, &entries[i].1, path);
            let _ = fields.insert(field, buckets);
            assert(fields@ =~= before.insert(field@, buckets@));
        }
    }
    assert(all.take(all.len() as int) =~= all);
}

/// An error stays the result, whatever files follow.
proof fn lemma_built_prefix(files: Seq<IndexedView>, k: int)
    requires
        0 <= k <= files.len(),
        built(files.take(k)) is Err,
    ensures
        built(files) == built(files.take(k)),
    decreases files.len() - k,
{
    if k == files.len() {
        assert(files.take(k) =~= files);
    } else {
        assert(files.take(k + 1).drop_last() =~= files.take(k));
        lemma_built_prefix(files, k + 1);
    }
}

proof fn lemma_changed_prefix(ix: IndexView, files: Seq<IndexedView>, k: int)
    requires
        0 <= k <= files.len(),
        changed(ix, files.take(k)).1 is Some,
    ensures
        changed(ix, files) == changed(ix, files.take(k)),
    decreases files.len() - k,
{
    if k == files.len() {
        assert(files.take(k) =~= files);
    } else {
        assert(files.take(k + 1).drop_last() =~= files.take(k));
        lemma_changed_prefix(ix, files, k + 1);
    }
}

fn lists_path(files: &[IndexedFile], path: &str) -> (r: bool)
    ensures
        r == changed_paths(indexed_views(files@)).contains(path@),
{
    let ghost all = changed_paths(indexed_views(files@));
    for i in 0..files.len()
        invariant
            all == changed_paths(indexed_views(files@)),
            forall|j: int| 0 <= j < i ==> #[trigger] all[j] != path@,
    {
        assert(all[i as int] == files@[i as int].file.path@);
        if same_text(&files[i].file.path, path) {
            assert(all.contains(path@));
            return true;
        }
    }
    false
}

fn keep_paths(list: &Postings, files: &[IndexedFile]) -> (r: Postings)
    ensures
        r@ == without(list@, changed_paths(indexed_views(files@))),
{
    let ghost gone = changed_paths(indexed_views(files@));
    let ghost all = list@;
    let mut out: Vec<String> = Vec::new();
    assert(text_views(out@) =~= Seq::<Seq<char>>::empty());
    for i in 0..list.paths.len()
        invariant
            gone == changed_paths(indexed_views(files@)),
            all == text_views(list.paths@),
            text_views(out@) == without(all.take(i as int), gone),
    {
        let ghost before = out@;
        assert(all.take(i + 1).drop_last() =~= all.take(i as int));
        assert(all.take(i + 1).last() == list.paths@[i as int]@);
        if !lists_path(files, &list.paths[i]) {
            out.push(list.paths[i].clone());
            assert(text_views(out@) =~= text_views(before).push(list.paths@[i as int]@));
        }
    }
    assert(all.take(all.len() as int) =~= all);
    Postings { paths: out }
}

fn keep_buckets(buckets: &TextMap<Postings>, files: &[IndexedFile]) -> (r: TextMap<Postings>)
    ensures
        r@ == drop_buckets(buckets@, changed_paths(indexed_views(files@))),
{
    let ghost gone = changed_paths(indexed_views(files@));
    let entries = buckets.entries();
    let mut out: TextMap<Postings> = TextMap::new();
    for i in 0..entries.len()
        invariant
            gone == changed_paths(indexed_views(files@)),
            increasing(entries@),
            buckets@ == map_of(entries@),
            forall|k: Seq<char>| #[trigger]
                out@.contains_key(k) <==> exists|j: int|
                    0 <= j < i && (#[trigger] entries@[j]).0@ == k,
            forall|k: Seq<char>| #[trigger]
                out@.contains_key(k) ==> out@[k] == without(buckets@[k], gone),
    {
        proof {
            lemma_entry(entries@, i as int);
        }
        let kept = keep_paths(&entries[i].1, files);
        let _ = out.insert(entries[i].0.as_str(), kept);
    }
    assert(out@ =~= drop_buckets(buckets@, gone));
    out
}

fn keep_fields(
    fields: &TextMap<TextMap<Postings>>,
    files: &[IndexedFile],
) -> (r: TextMap<TextMap<Postings>>)
    ensures
        r@ == drop_paths(fields@, changed_paths(indexed_views(files@))),
{
    let ghost gone = changed_paths(indexed_views(files@));
    let entries = fields.entries();
    let mut out: TextMap<TextMap<Postings>> = TextMap::new();
    for i in 0..entries.len()
        invariant
            gone == changed_paths(indexed_views(files@)),
            increasing(entries@),
            fields@ == map_of(entries@),
            forall|k: Seq<char>| #[trigger]
                out@.contains_key(k) <==> exists|j: int|
                    0 <= j < i && (#[trigger] entries@[j]).0@ == k,
            forall|k: Seq<char>| #[trigger]
                out@.contains_key(k) ==> out@[k] == drop_buckets(fields@[k], gone),
    {
        proof {
            lemma_entry(entries@, i as int);
        }
        let kept = keep_buckets(&entries[i].1, files);
        let _ = out.insert(entries[i].0.as_str(), kept);
    }
    assert(out@ =~= drop_paths(fields@, gone));
    out
}

impl Index {
    /// Builds an index by parsing every record once.
    pub fn build(files: &[IndexedFile]) -> (r: Result<Index, IndexError>)
        ensures
            match (r, built(indexed_views(files@))) {
                (Ok(ix), Ok(expected)) => ix@ == expected,
                (Err(e), Err(expected)) => e@ == IndexErrorView::Record(expected),
                _ => false,
            },
    {
        let ghost all = indexed_views(files@);
        let mut ix = Index { records: TextMap::new(), fields: TextMap::new() };
        assert(all.take(0) =~= Seq::<IndexedView>::empty());
        for i in 0..files.len()
            invariant
                all == indexed_views(files@),
                built(all.take(i as int)) == Ok::<IndexView, RecordErrorView>(ix@),
        {
            assert(all.take(i + 1).drop_last() =~= all.take(i as int));
            assert(all.take(i + 1).last() == files@[i as int]@);
            if let Err(e) = ix.take_file(&files[i]) {
                proof {
                    lemma_built_prefix(all, i + 1);
                }
                return Err(IndexError::Record(e));
            }
        }
        assert(all.take(all.len() as int) =~= all);
        Ok(ix)
    }

    fn take_file(&mut self, f: &IndexedFile) -> (r: Result<(), RecordError>)
        ensures
            match r {
                Ok(_) => add_file(old(self)@, f@) == Ok::<IndexView, RecordErrorView>(final(self)@),
                Err(e) => add_file(old(self)@, f@) == Err::<IndexView, RecordErrorView>(e@)
                    && final(self)@ == old(self)@,
            },
    {
        let sig = match f.signature {
            Some(sig) => sig,
            None => {
                return Ok(());
            },
        };
        let record = match f.file.record() {
            Ok(record) => record,
            Err(e) => {
                return Err(e);
            },
        };
        let path = f.file.path.as_str();
        let _ = self.records.insert(path, sig);
        index_record(&mut self.fields, path, &record);
        Ok(())
    }

    /// Brings the index up to date with the given changed files: those that exist
    /// are indexed anew, those that are gone are dropped. At an error the index
    /// keeps what was done until then.
    pub fn reconcile(&mut self, files: &[IndexedFile]) -> (r: Result<(), IndexError>)
        ensures
            final(self)@ == reconciled(old(self)@, indexed_views(files@)).0,
            match (r, reconciled(old(self)@, indexed_views(files@)).1) {
                (Ok(_), None) => true,
                (Err(e), Some(expected)) => e@ == IndexErrorView::Record(expected),
                _ => false,
            },
    {
        let ghost all = indexed_views(files@);
        self.fields = keep_fields(&self.fields, files);
        let ghost start = self@;
        assert(all.take(0) =~= Seq::<IndexedView>::empty());
        for i in 0..files.len()
            invariant
                all == indexed_views(files@),
                changed(start, all.take(i as int)) == (self@, None::<RecordErrorView>),
                reconciled(old(self)@, all) == changed(start, all),
        {
            assert(all.take(i + 1).drop_last() =~= all.take(i as int));
            assert(all.take(i + 1).last() == files@[i as int]@);
            let _ = self.records.remove(files[i].file.path.as_str());
            if let Err(e) = self.take_file(&files[i]) {
                proof {
                    lemma_changed_prefix(start, all, i + 1);
                }
                return Err(IndexError::Record(e));
            }
        }
        assert(all.take(all.len() as int) =~= all);
        Ok(())
    }

    /// The number of indexed records.
    pub fn record_count(&self) -> (r: usize)
        ensures
            self@.records.dom().finite(),
            r == self@.records.dom().len(),
    {
        self.records.len()
    }

    /// Whether any record carried the field.
    pub fn has_field(&self, field: &str) -> (r: bool)
        ensures
            r == self@.fields.contains_key(field@),
    {
        self.fields.contains_key(field)
    }

    /// The paths of the records that have the key in the field, where the index
    /// knows the key.
    pub fn posting(&self, field: &str, key: &str) -> (r: Option<&Vec<String>>)
        ensures
            match r {
                Some(paths) => buckets_at(self@.fields, field@).contains_key(key@) && text_views(
                    paths@,
                ) == buckets_at(self@.fields, field@)[key@],
                None => !buckets_at(self@.fields, field@).contains_key(key@),
            },
    {
        match self.fields.get(field) {
            Some(buckets) => match buckets.get(key) {
                Some(list) => Some(&list.paths),
                None => None,
            },
            None => None,
        }
    }
}

// ---------------------------------------------------------------------------
// Candidates for a query
// ---------------------------------------------------------------------------

/// Whether a key lies between two others: from `low` up to `high`, which belongs
/// to the range where it is closed.
pub open spec fn in_range(key: Seq<char>, low: Seq<char>, high: Seq<char>, closed: bool) -> bool {
    &&& !(text_order(key, low) is Less)
    &&& text_order(key, high) is Less || (closed && key == high)
}

/// Whether a path is listed under some key within a range.
pub open spec fn listed_in_range(
    buckets: Map<Seq<char>, Seq<Seq<char>>>,
    low: Seq<char>,
    high: Seq<char>,
    closed: bool,
    path: Seq<char>,
) -> bool {
    exists|key: Seq<char>| #[trigger]
        buckets.contains_key(key) && in_range(key, low, high, closed) && buckets[key].contains(path)
}

/// The key that an index can look up for a condition: equality, containment and
/// comparison with a value that has a key.
pub open spec fn op_key(op: OpView) -> Option<Seq<char>> {
    match op {
        OpView::Eq(v) => key_of(v),
        OpView::Contains(v) => key_of(v),
        OpView::Lt(v) => key_of(v),
        OpView::Le(v) => key_of(v),
        OpView::Gt(v) => key_of(v),
        OpView::Ge(v) => key_of(v),
        _ => None,
    }
}

/// Whether an index can narrow a filter down.
pub open spec fn serviceable(ix: IndexView, f: FilterView) -> bool {
    ix.fields.contains_key(f.field) && op_key(f.op) is Some
}

/// Whether an index lists a path for a filter: under the value's own key, or, for
/// a comparison, under a key of the same kind on the right side of it. Integers
/// that are too large for a double share keys, so the value's own key always
/// counts.
pub open spec fn candidate(ix: IndexView, f: FilterView, path: Seq<char>) -> bool {
    let buckets = ix.fields[f.field];
    let key = op_key(f.op)->Some_0;
    match f.op {
        OpView::Eq(_) | OpView::Contains(_) => paths_at(buckets, key).contains(path),
        OpView::Ge(_) | OpView::Gt(_) => listed_in_range(buckets, key, kind_end(key), false, path),
        OpView::Le(_) | OpView::Lt(_) => listed_in_range(buckets, seq![key[0]], key, true, path),
        _ => false,
    }
}

/// Whether an index lists a path for every filter that it can narrow down.
pub open spec fn candidate_for_all(
    ix: IndexView,
    filters: Seq<FilterView>,
    path: Seq<char>,
) -> bool {
    forall|i: int|
        0 <= i < filters.len() && serviceable(ix, #[trigger] filters[i]) ==> candidate(
            ix,
            filters[i],
            path,
        )
}

pub open spec fn some_serviceable(ix: IndexView, filters: Seq<FilterView>) -> bool {
    exists|i: int| 0 <= i < filters.len() && serviceable(ix, #[trigger] filters[i])
}

/// The texts increase from one to the next; none comes twice.
pub open spec fn ascending(s: Seq<Seq<char>>) -> bool {
    forall|i: int, j: int| 0 <= i < j < s.len() ==> text_lt(#[trigger] s[i], #[trigger] s[j])
}

/// The given texts in order, each once.
fn sorted_set(list: Vec<String>) -> (r: Vec<String>)
    ensures
        ascending(text_views(r@)),
        forall|p: Seq<char>| #[trigger]
            text_views(r@).contains(p) <==> text_views(list@).contains(p),
{
    let sorted = merge_sort(list, &ByText);
    let ghost all = text_views(sorted@);
    proof {
        lemma_text_lawful(text_views(list@).to_multiset());
        assert(views_of(sorted@) == all);
        assert(views_of(list@) == text_views(list@));
        assert forall|p: Seq<char>| #[trigger] all.contains(p) <==> text_views(list@).contains(p) by {
            vstd::seq_lib::to_multiset_contains(all, p);
            vstd::seq_lib::to_multiset_contains(text_views(list@), p);
        }
    }
    let mut out: Vec<String> = Vec::new();
    for i in 0..sorted.len()
        invariant
            all == text_views(sorted@),
            crate::sort::in_order(all, crate::sort::text_relation()),
            ascending(text_views(out@)),
            forall|p: Seq<char>| #[trigger]
                text_views(out@).contains(p) <==> exists|j: int| 0 <= j < i && #[trigger] all[j] == p,
            out@.len() == 0 ==> i == 0,
            out@.len() > 0 ==> i > 0 && text_views(out@).last() == all[i - 1],
    {
        let ghost done = text_views(out@);
        let ghost x = all[i as int];
        assert(x == sorted@[i as int]@);
        let last: usize = out.len();
        if last > 0 && same_text(&out[last - 1], &sorted[i]) {
            assert(done[last - 1] == out@[last - 1]@);
            assert(all[i - 1] == x);
        } else {
            out.push(sorted[i].clone());
            let ghost now = text_views(out@);
            proof {
                assert(now =~= done.push(x));
                assert forall|a: int, b: int| 0 <= a < b < now.len() implies text_lt(
                    #[trigger] now[a],
                    #[trigger] now[b],
                ) by {
                    if b == done.len() {
                        let rel = crate::sort::text_relation();
                        assert(done.last() == all[i - 1]);
                        assert(!rel(all[i as int], all[i - 1]));
                        assert(done[done.len() - 1] == out@[last - 1]@);
                        lemma_ranked_total(all[i - 1], x, false);
                        assert(text_lt(all[i - 1], x));
                        if a < done.len() - 1 {
                            assert(text_lt(done[a], done[done.len() - 1]));
                            lemma_ranked_transitive(done[a], all[i - 1], x, false);
                        }
                    } else {
                        assert(done[a] == now[a] && done[b] == now[b]);
                    }
                }
                assert forall|p: Seq<char>| #[trigger] now.contains(p) <==> exists|j: int|
                    0 <= j < i + 1 && #[trigger] all[j] == p by {
                    if now.contains(p) {
                        let k = choose|k: int| 0 <= k < now.len() && now[k] == p;
                        if k < done.len() {
                            assert(done[k] == p);
                            assert(done.contains(p));
                        } else {
                            assert(all[i as int] == p);
                        }
                    }
                    if exists|j: int| 0 <= j < i + 1 && #[trigger] all[j] == p {
                        let j = choose|j: int| 0 <= j < i + 1 && #[trigger] all[j] == p;
                        if j < i {
                            assert(done.contains(p));
                            let k = choose|k: int| 0 <= k < done.len() && done[k] == p;
                            assert(now[k] == p);
                        } else {
                            assert(now[done.len() as int] == p);
                        }
                    }
                }
            }
        }
    }
    proof {
        let res = text_views(out@);
        assert forall|p: Seq<char>| #[trigger] res.contains(p) <==> text_views(list@).contains(p) by {
            assert(all.contains(p) <==> exists|j: int| 0 <= j < all.len() && #[trigger] all[j] == p);
        }
    }
    out
}

/// Whether a sorted list holds a text.
fn holds_sorted(list: &Vec<String>, text: &str) -> (r: bool)
    requires
        ascending(text_views(list@)),
    ensures
        r == text_views(list@).contains(text@),
{
    let ghost all = text_views(list@);
    let mut low: usize = 0;
    let mut high: usize = list.len();
    while low < high
        invariant
            all == text_views(list@),
            ascending(all),
            low <= high <= list@.len(),
            forall|i: int| 0 <= i < low ==> #[trigger] all[i] != text@,
            forall|i: int| high <= i < all.len() ==> #[trigger] all[i] != text@,
        decreases high - low,
    {
        let mid: usize = low + (high - low) / 2;
        let ghost m = all[mid as int];
        assert(m == list@[mid as int]@);
        let order = compare_text(&list[mid], text);
        proof {
            lemma_ranked_total(m, text@, false);
        }
        match order {
            Order::Equal => {
                assert(all.contains(text@));
                return true;
            },
            Order::Less => {
                proof {
                    assert forall|i: int| 0 <= i < mid + 1 implies #[trigger] all[i] != text@ by {
                        if i < mid && all[i] == text@ {
                            assert(text_lt(all[i], m));
                        }
                    }
                }
                low = mid + 1;
            },
            Order::Greater => {
                proof {
                    assert forall|i: int| mid <= i < all.len() implies #[trigger] all[i] != text@ by {
                        if mid < i && all[i] == text@ {
                            assert(text_lt(m, all[i]));
                        }
                    }
                }
                high = mid;
            },
        }
    }
    false
}

/// The texts that both sorted lists hold.
fn common(a: &Vec<String>, b: &Vec<String>) -> (r: Vec<String>)
    requires
        ascending(text_views(a@)),
        ascending(text_views(b@)),
    ensures
        ascending(text_views(r@)),
        forall|p: Seq<char>| #[trigger]
            text_views(r@).contains(p) <==> text_views(a@).contains(p) && text_views(b@).contains(p),
{
    let ghost x = text_views(a@);
    let ghost y = text_views(b@);
    let mut out: Vec<String> = Vec::new();
    for i in 0..a.len()
        invariant
            x == text_views(a@),
            y == text_views(b@),
            ascending(x),
            ascending(y),
            ascending(text_views(out@)),
            forall|k: int|
                0 <= k < out@.len() ==> x.take(i as int).contains(#[trigger] text_views(out@)[k]),
            forall|k: int| 0 <= k < out@.len() ==> y.contains(#[trigger] text_views(out@)[k]),
            forall|j: int|
                0 <= j < i && y.contains(#[trigger] x[j]) ==> text_views(out@).contains(x[j]),
    {
        let ghost done = text_views(out@);
        assert(x[i as int] == a@[i as int]@);
        assert(x.take(i + 1) =~= x.take(i as int).push(x[i as int]));
        assert forall|k: int| 0 <= k < done.len() implies x.take(i + 1).contains(
            #[trigger] done[k],
        ) by {
            assert(x.take(i as int).contains(done[k]));
            let j = choose|j: int| 0 <= j < i && x.take(i as int)[j] == done[k];
            assert(x.take(i + 1)[j] == done[k]);
        }
        if holds_sorted(b, &a[i]) {
            out.push(a[i].clone());
            let ghost now = text_views(out@);
            proof {
                assert(now =~= done.push(x[i as int]));
                assert forall|p: int, q: int| 0 <= p < q < now.len() implies text_lt(
                    #[trigger] now[p],
                    #[trigger] now[q],
                ) by {
                    assert(now[p] == done[p]);
                    if q == done.len() {
                        assert(x.take(i as int).contains(done[p]));
                        let j = choose|j: int|
                            0 <= j < i && x.take(i as int)[j] == done[p];
                        assert(text_lt(x[j], x[i as int]));
                    } else {
                        assert(now[q] == done[q]);
                    }
                }
                assert forall|k: int| 0 <= k < now.len() implies x.take(i + 1).contains(
                    #[trigger] now[k],
                ) by {
                    if k < done.len() {
                        assert(x.take(i as int).contains(done[k]));
                        let j = choose|j: int| 0 <= j < i && x.take(i as int)[j] == done[k];
                        assert(x.take(i + 1)[j] == now[k]);
                    } else {
                        assert(x.take(i + 1)[i as int] == now[k]);
                    }
                }
                assert forall|k: int| 0 <= k < now.len() implies y.contains(#[trigger] now[k]) by {
                    if k < done.len() {
                        assert(now[k] == done[k]);
                    }
                }
                assert forall|j: int| 0 <= j < i + 1 && y.contains(#[trigger] x[j]) implies now.contains(
                    x[j],
                ) by {
                    if j < i {
                        assert(done.contains(x[j]));
                        let k = choose|k: int| 0 <= k < done.len() && done[k] == x[j];
                        assert(now[k] == x[j]);
                    } else {
                        assert(now[done.len() as int] == x[j]);
                    }
                }
            }
        }
    }
    proof {
        let res = text_views(out@);
        assert forall|p: Seq<char>| #[trigger] res.contains(p) <==> x.contains(p) && y.contains(p) by {
            if res.contains(p) {
                let k = choose|k: int| 0 <= k < res.len() && res[k] == p;
                assert(x.take(x.len() as int) =~= x);
                assert(x.contains(res[k]));
            }
            if x.contains(p) && y.contains(p) {
                let j = choose|j: int| 0 <= j < x.len() && x[j] == p;
                assert(y.contains(x[j]));
            }
        }
    }
    out
}

pub proof fn lemma_key_letter(v: ValueView)
    ensures
        key_of(v) matches Some(k) ==> k.len() > 0 && (k[0] == 'b' || k[0] == 'n' || k[0] == 's'),
{
    reveal_strlit("n");
    reveal_strlit("s");
    reveal_strlit("b");
}

impl Index {
    /// The paths listed under the keys of a field within a range.
    fn range_postings(&self, field: &str, low: &str, high: &str, closed: bool) -> (r: Vec<String>)
        ensures
            forall|p: Seq<char>| #[trigger]
                text_views(r@).contains(p) <==> listed_in_range(
                    buckets_at(self@.fields, field@),
                    low@,
                    high@,
                    closed,
                    p,
                ),
    {
        let ghost map = buckets_at(self@.fields, field@);
        let mut out: Vec<String> = Vec::new();
        assert(text_views(out@) =~= Seq::<Seq<char>>::empty());
        if let Some(buckets) = self.fields.get(field) {
            let entries = buckets.entries();
            for i in 0..entries.len()
                invariant
                    increasing(entries@),
                    map == map_of(entries@),
                    forall|p: Seq<char>| #[trigger]
                        text_views(out@).contains(p) <==> exists|j: int|
                            0 <= j < i && in_range((#[trigger] entries@[j]).0@, low@, high@, closed)
                                && entries@[j].1@.contains(p),
            {
                let key = entries[i].0.as_str();
                let above = !matches!(compare_text(key, low), Order::Less);
                let order = compare_text(key, high);
                proof {
                    lemma_ranked_total(key@, high@, false);
                }
                let below = matches!(order, Order::Less) || (closed && matches!(order, Order::Equal));
                let ghost before = text_views(out@);
                if above && below {
                    assert(in_range(entries@[i as int].0@, low@, high@, closed));
                    append_copies(&mut out, &entries[i].1.paths);
                    proof {
                        let more = entries@[i as int].1@;
                        let now = text_views(out@);
                        assert forall|p: Seq<char>| #[trigger] now.contains(p) <==> exists|j: int|
                            0 <= j < i + 1 && in_range(
                                (#[trigger] entries@[j]).0@,
                                low@,
                                high@,
                                closed,
                            ) && entries@[j].1@.contains(p) by {
                            lemma_concat_contains(before, more, p);
                            if more.contains(p) {
                                assert(entries@[i as int].1@.contains(p));
                            }
                            assert(before.contains(p) <==> exists|j: int|
                                0 <= j < i && in_range(
                                    (#[trigger] entries@[j]).0@,
                                    low@,
                                    high@,
                                    closed,
                                ) && entries@[j].1@.contains(p));
                        }
                    }
                }
            }
            proof {
                let res = text_views(out@);
                assert forall|p: Seq<char>| #[trigger] res.contains(p) <==> listed_in_range(
                    map,
                    low@,
                    high@,
                    closed,
                    p,
                ) by {
                    if res.contains(p) {
                        let j = choose|j: int|
                            0 <= j < entries@.len() && in_range(
                                (#[trigger] entries@[j]).0@,
                                low@,
                                high@,
                                closed,
                            ) && entries@[j].1@.contains(p);
                        lemma_entry(entries@, j);
                        assert(map.contains_key(entries@[j].0@));
                    }
                    if listed_in_range(map, low@, high@, closed, p) {
                        let key = choose|key: Seq<char>| #[trigger]
                            map.contains_key(key) && in_range(key, low@, high@, closed)
                                && map[key].contains(p);
                        let j = choose|j: int|
                            0 <= j < entries@.len() && (#[trigger] entries@[j]).0@ == key;
                        lemma_entry(entries@, j);
                    }
                }
            }
        } else {
            assert(map =~= Map::empty());
        }
        out
    }

    /// The paths that the index lists for one filter, where it can narrow it down.
    fn candidates_for(&self, f: &Filter) -> (r: Option<Vec<String>>)
        ensures
            match r {
                Some(paths) => serviceable(self@, f@) && ascending(text_views(paths@)) && forall|
                    p: Seq<char>,
                | #[trigger]
                    text_views(paths@).contains(p) <==> candidate(self@, f@, p),
                None => !serviceable(self@, f@),
            },
    {
        if !self.has_field(&f.field) {
            return None;
        }
        match &f.op {
            FilterOp::Eq(v) | FilterOp::Contains(v) => {
                let key = match index_key(v) {
                    Some(key) => key,
                    None => {
                        return None;
                    },
                };
                match self.posting(&f.field, key.as_str()) {
                    Some(paths) => Some(sorted_set(crate::text::copy_texts(paths))),
                    None => {
                        let none: Vec<String> = Vec::new();
                        assert(text_views(none@) =~= Seq::<Seq<char>>::empty());
                        Some(none)
                    },
                }
            },
            FilterOp::Ge(v) | FilterOp::Gt(v) => {
                proof {
                    lemma_key_letter(v@);
                }
                let key = match index_key(v) {
                    Some(key) => key,
                    None => {
                        return None;
                    },
                };
                let bounds = key_prefix_bounds(key.as_str());
                let found = self.range_postings(&f.field, key.as_str(), bounds.1.as_str(), false);
                Some(sorted_set(found))
            },
            FilterOp::Le(v) | FilterOp::Lt(v) => {
                proof {
                    lemma_key_letter(v@);
                }
                let key = match index_key(v) {
                    Some(key) => key,
                    None => {
                        return None;
                    },
                };
                let bounds = key_prefix_bounds(key.as_str());
                let found = self.range_postings(&f.field, bounds.0.as_str(), key.as_str(), true);
                Some(sorted_set(found))
            },
            _ => None,
        }
    }
}

proof fn lemma_concat_contains(a: Seq<Seq<char>>, b: Seq<Seq<char>>, p: Seq<char>)
    ensures
        (a + b).contains(p) <==> a.contains(p) || b.contains(p),
{
    let c = a + b;
    if c.contains(p) {
        let i = choose|i: int| 0 <= i < c.len() && c[i] == p;
        if i < a.len() {
            assert(a[i] == p);
        } else {
            assert(b[i - a.len()] == p);
        }
    }
    if a.contains(p) {
        let i = choose|i: int| 0 <= i < a.len() && a[i] == p;
        assert(c[i] == p);
    }
    if b.contains(p) {
        let i = choose|i: int| 0 <= i < b.len() && b[i] == p;
        assert(c[i + a.len()] == p);
    }
}

fn append_copies(out: &mut Vec<String>, more: &Vec<String>)
    ensures
        text_views(final(out)@) == text_views(old(out)@) + text_views(more@),
{
    let ghost start = text_views(out@);
    assert(start =~= start + text_views(more@).take(0));
    for i in 0..more.len()
        invariant
            text_views(out@) == start + text_views(more@).take(i as int),
    {
        let ghost before = text_views(out@);
        out.push(more[i].clone());
        assert(text_views(out@) =~= before.push(more@[i as int]@));
        assert(text_views(out@) =~= start + text_views(more@).take(i + 1));
    }
    assert(text_views(more@).take(more@.len() as int) =~= text_views(more@));
}

/// The paths that an index lists for every filter that it can narrow down, in
/// order and each once; nothing where it can narrow none down.
pub fn plan_candidates(index: &Index, filters: &[Filter]) -> (r: Option<Vec<String>>)
    ensures
        match r {
            Some(paths) => some_serviceable(index@, filter_views(filters@)) && ascending(
                text_views(paths@),
            ) && forall|p: Seq<char>| #[trigger]
                text_views(paths@).contains(p) <==> candidate_for_all(
                    index@,
                    filter_views(filters@),
                    p,
                ),
            None => !some_serviceable(index@, filter_views(filters@)),
        },
{
    let ghost all = filter_views(filters@);
    let mut kept: Option<Vec<String>> = None;
    for i in 0..filters.len()
        invariant
            all == filter_views(filters@),
            match kept {
                Some(paths) => some_serviceable(index@, all.take(i as int)) && ascending(
                    text_views(paths@),
                ) && forall|p: Seq<char>| #[trigger]
                    text_views(paths@).contains(p) <==> candidate_for_all(
                        index@,
                        all.take(i as int),
                        p,
                    ),
                None => !some_serviceable(index@, all.take(i as int)),
            },
    {
        let ghost f = all[i as int];
        let ghost before = all.take(i as int);
        let ghost after = all.take(i + 1);
        proof {
            assert(f == filters@[i as int]@);
            assert(after =~= before.push(f));
            lemma_plan_step(index@, before, f);
        }
        if let Some(more) = index.candidates_for(&filters[i]) {
            kept = match kept {
                Some(paths) => Some(
                    if paths.len() <= more.len() {
                        common(&paths, &more)
                    } else {
                        common(&more, &paths)
                    },
                ),
                None => Some(more),
            };
        }
    }
    assert(all.take(all.len() as int) =~= all);
    kept
}

pub proof fn lemma_plan_step(ix: IndexView, before: Seq<FilterView>, f: FilterView)
    ensures
        some_serviceable(ix, before.push(f)) == (some_serviceable(ix, before) || serviceable(ix, f)),
        forall|p: Seq<char>| #[trigger]
            candidate_for_all(ix, before.push(f), p) <==> candidate_for_all(ix, before, p) && (
            serviceable(ix, f) ==> candidate(ix, f, p)),
        !some_serviceable(ix, before) ==> forall|p: Seq<char>| #[trigger]
            candidate_for_all(ix, before, p),
{
    let after = before.push(f);
    let n = before.len() as int;
    assert(after[n] == f);
    assert(forall|i: int| 0 <= i < n ==> after[i] == before[i]);
    if some_serviceable(ix, before) {
        let i = choose|i: int| 0 <= i < before.len() && serviceable(ix, #[trigger] before[i]);
        assert(serviceable(ix, after[i]));
    }
    if some_serviceable(ix, after) {
        let i = choose|i: int| 0 <= i < after.len() && serviceable(ix, #[trigger] after[i]);
        if i < n {
            assert(serviceable(ix, before[i]));
        }
    }
    assert forall|p: Seq<char>| #[trigger]
        candidate_for_all(ix, after, p) <==> candidate_for_all(ix, before, p) && (serviceable(ix, f)
            ==> candidate(ix, f, p)) by {
        if candidate_for_all(ix, after, p) {
            assert forall|i: int|
                0 <= i < before.len() && serviceable(ix, #[trigger] before[i]) implies candidate(
                ix,
                before[i],
                p,
            ) by {
                assert(after[i] == before[i]);
            }
        }
    }
}

// ---------------------------------------------------------------------------
// Freshness
// ---------------------------------------------------------------------------

/// A record's path with its present signature, where the file can be examined.
pub type Stamp = (String, Option<Signature>);

/// Whether the records on disk are exactly those that were indexed: as many, each
/// known and with an unchanged signature.
pub open spec fn fresh(records: Map<Seq<char>, Signature>, current: Seq<Stamp>) -> bool {
    &&& current.len() == records.dom().len()
    &&& forall|i: int| 0 <= i < current.len() ==> stamp_matches(records, #[trigger] current[i])
}

pub open spec fn stamp_matches(records: Map<Seq<char>, Signature>, stamp: Stamp) -> bool {
    &&& records.contains_key(stamp.0@)
    &&& stamp.1 == Some(records[stamp.0@])
}

impl Index {
    /// Whether the records on disk are exactly those that were indexed.
    pub fn is_fresh(&self, current: &[Stamp]) -> (r: bool)
        ensures
            r == fresh(self@.records, current@),
    {
        if current.len() != self.records.len() {
            return false;
        }
        for i in 0..current.len()
            invariant
                current@.len() == self.records@.dom().len(),
                forall|j: int|
                    0 <= j < i ==> stamp_matches(self.records@, #[trigger] current@[j]),
        {
            let known = match (self.records.get(current[i].0.as_str()), current[i].1) {
                (Some(stored), Some(now)) => stored.0 == now.0 && stored.1 == now.1,
                _ => false,
            };
            if !known {
                assert(!stamp_matches(self.records@, current@[i as int]));
                return false;
            }
        }
        true
    }
}

// ---------------------------------------------------------------------------
// Taking an index apart and putting it together
// ---------------------------------------------------------------------------

/// The version of the saved form of an index.
pub const INDEX_VERSION: u64 = 2;

/// One field of a saved index: its name, and the paths under each key.
pub struct SavedField {
    pub name: String,
    pub keys: Vec<(String, Vec<String>)>,
}

/// The parts of a saved index.
pub struct SavedIndex {
    pub version: u64,
    pub records: Vec<(String, Signature)>,
    pub fields: Vec<SavedField>,
}

/// The map that a list of entries makes; a later entry replaces an earlier one.
pub open spec fn records_map(list: Seq<(String, Signature)>) -> Map<Seq<char>, Signature>
    decreases list.len(),
{
    if list.len() == 0 {
        Map::empty()
    } else {
        records_map(list.drop_last()).insert(list.last().0@, list.last().1)
    }
}

pub open spec fn keys_map(list: Seq<(String, Vec<String>)>) -> Map<Seq<char>, Seq<Seq<char>>>
    decreases list.len(),
{
    if list.len() == 0 {
        Map::empty()
    } else {
        keys_map(list.drop_last()).insert(list.last().0@, text_views(list.last().1@))
    }
}

pub open spec fn fields_map(list: Seq<SavedField>) -> FieldsView
    decreases list.len(),
{
    if list.len() == 0 {
        Map::empty()
    } else {
        fields_map(list.drop_last()).insert(list.last().name@, keys_map(list.last().keys@))
    }
}

impl SavedIndex {
    /// The index that the parts make.
    pub open spec fn index(self) -> IndexView {
        IndexView { records: records_map(self.records@), fields: fields_map(self.fields@) }
    }
}

proof fn lemma_records_map(list: Seq<(String, Signature)>)
    requires
        increasing(list),
    ensures
        records_map(list) == map_of(list),
    decreases list.len(),
{
    if list.len() == 0 {
        assert(map_of(list) =~= Map::<Seq<char>, Signature>::empty());
    } else {
        let front = list.drop_last();
        let n = list.len() - 1;
        assert forall|i: int, j: int| 0 <= i < j < front.len() implies text_lt(
            (#[trigger] front[i]).0@,
            (#[trigger] front[j]).0@,
        ) by {
            assert(front[i] == list[i] && front[j] == list[j]);
        }
        lemma_records_map(front);
        lemma_map_of_push(front, list.last());
        assert(front.push(list.last()) =~= list);
    }
}

/// The map of a longer list, in terms of the map of its beginning.
proof fn lemma_map_of_push<V: View>(front: Seq<(String, V)>, last: (String, V))
    requires
        increasing(front.push(last)),
    ensures
        map_of(front.push(last)) == map_of(front).insert(last.0@, last.1@),
{
    let list = front.push(last);
    let n = front.len() as int;
    assert(increasing(front)) by {
        assert forall|i: int, j: int| 0 <= i < j < front.len() implies text_lt(
            (#[trigger] front[i]).0@,
            (#[trigger] front[j]).0@,
        ) by {
            assert(front[i] == list[i] && front[j] == list[j]);
        }
    }
    let want = map_of(front).insert(last.0@, last.1@);
    assert(list[n] == last);
    assert forall|k: Seq<char>| #[trigger] map_of(list).contains_key(k) <==> want.contains_key(k) by {
        if map_of(list).contains_key(k) {
            let i = choose|i: int| 0 <= i < list.len() && (#[trigger] list[i]).0@ == k;
            if i < n {
                assert(front[i].0@ == k);
            }
        }
        if map_of(front).contains_key(k) {
            let i = choose|i: int| 0 <= i < front.len() && (#[trigger] front[i]).0@ == k;
            assert(list[i].0@ == k);
        }
    }
    assert forall|k: Seq<char>| map_of(list).contains_key(k) implies #[trigger] map_of(list)[k]
        == want[k] by {
        let i = choose|i: int| 0 <= i < list.len() && (#[trigger] list[i]).0@ == k;
        lemma_entry(list, i);
        lemma_entry(list, n);
        if i < n {
            assert(front[i] == list[i]);
            lemma_entry(front, i);
            if k == last.0@ {
                assert(text_lt(list[i].0@, list[n].0@));
                lemma_ranked_total(k, k, false);
            }
        }
    }
    assert(map_of(list) =~= want);
}

fn copy_records(map: &TextMap<Signature>) -> (r: Vec<(String, Signature)>)
    ensures
        records_map(r@) == map@,
{
    let entries = map.entries();
    let mut out: Vec<(String, Signature)> = Vec::new();
    for i in 0..entries.len()
        invariant
            increasing(entries@),
            out@.len() == i,
            forall|j: int|
                0 <= j < i ==> (#[trigger] out@[j]).0@ == entries@[j].0@ && out@[j].1
                    == entries@[j].1,
    {
        out.push((entries[i].0.clone(), entries[i].1));
    }
    proof {
        assert(increasing(out@)) by {
            assert forall|i: int, j: int| 0 <= i < j < out@.len() implies text_lt(
                (#[trigger] out@[i]).0@,
                (#[trigger] out@[j]).0@,
            ) by {
                assert(text_lt(entries@[i].0@, entries@[j].0@));
            }
        }
        lemma_records_map(out@);
        lemma_same_map(out@, entries@);
    }
    out
}

/// Lists with the same keys and the same values make the same map.
proof fn lemma_same_map<V: View, W: View<V = V::V>>(a: Seq<(String, V)>, b: Seq<(String, W)>)
    requires
        increasing(a),
        increasing(b),
        a.len() == b.len(),
        forall|i: int|
            0 <= i < a.len() ==> (#[trigger] a[i]).0@ == b[i].0@ && a[i].1@ == b[i].1@,
    ensures
        map_of(a) == map_of(b),
{
    assert forall|k: Seq<char>| #[trigger] map_of(a).contains_key(k) <==> map_of(b).contains_key(k) by {
        if map_of(a).contains_key(k) {
            let i = choose|i: int| 0 <= i < a.len() && (#[trigger] a[i]).0@ == k;
            assert(b[i].0@ == k);
        }
        if map_of(b).contains_key(k) {
            let i = choose|i: int| 0 <= i < b.len() && (#[trigger] b[i]).0@ == k;
            assert(a[i].0@ == k);
        }
    }
    assert forall|k: Seq<char>| map_of(a).contains_key(k) implies #[trigger] map_of(a)[k] == map_of(
        b,
    )[k] by {
        let i = choose|i: int| 0 <= i < a.len() && (#[trigger] a[i]).0@ == k;
        assert(b[i].0@ == k);
        lemma_entry(a, i);
        lemma_entry(b, i);
    }
    assert(map_of(a) =~= map_of(b));
}

fn copy_keys(map: &TextMap<Postings>) -> (r: Vec<(String, Vec<String>)>)
    ensures
        keys_map(r@) == map@,
{
    let entries = map.entries();
    let mut out: Vec<(String, Vec<String>)> = Vec::new();
    assert(map_of(entries@.take(0)) =~= Map::<Seq<char>, Seq<Seq<char>>>::empty());
    for i in 0..entries.len()
        invariant
            increasing(entries@),
            keys_map(out@) == map_of(entries@.take(i as int)),
    {
        let ghost before = out@;
        let copy = crate::text::copy_texts(&entries[i].1.paths);
        let entry = (entries[i].0.clone(), copy);
        out.push(entry);
        proof {
            assert(out@.drop_last() =~= before);
            lemma_take_increasing(entries@, i + 1);
            assert(entries@.take(i + 1) =~= entries@.take(i as int).push(entries@[i as int]));
            lemma_map_of_push(entries@.take(i as int), entries@[i as int]);
        }
    }
    assert(entries@.take(entries@.len() as int) =~= entries@);
    out
}

proof fn lemma_take_increasing<V>(list: Seq<(String, V)>, n: int)
    requires
        increasing(list),
        0 <= n <= list.len(),
    ensures
        increasing(list.take(n)),
{
    assert forall|i: int, j: int| 0 <= i < j < n implies text_lt(
        (#[trigger] list.take(n)[i]).0@,
        (#[trigger] list.take(n)[j]).0@,
    ) by {
        assert(text_lt(list[i].0@, list[j].0@));
    }
}

fn copy_fields(map: &TextMap<TextMap<Postings>>) -> (r: Vec<SavedField>)
    ensures
        fields_map(r@) == map@,
{
    let entries = map.entries();
    let mut out: Vec<SavedField> = Vec::new();
    assert(map_of(entries@.take(0)) =~= Map::<Seq<char>, Map<Seq<char>, Seq<Seq<char>>>>::empty());
    for i in 0..entries.len()
        invariant
            increasing(entries@),
            fields_map(out@) == map_of(entries@.take(i as int)),
    {
        let ghost before = out@;
        let field = SavedField { name: entries[i].0.clone(), keys: copy_keys(&entries[i].1) };
        out.push(field);
        proof {
            assert(out@.drop_last() =~= before);
            lemma_take_increasing(entries@, i + 1);
            assert(entries@.take(i + 1) =~= entries@.take(i as int).push(entries@[i as int]));
            lemma_map_of_push(entries@.take(i as int), entries@[i as int]);
        }
    }
    assert(entries@.take(entries@.len() as int) =~= entries@);
    out
}

impl Index {
    /// The parts of the index, to be saved.
    pub fn save(&self) -> (r: SavedIndex)
        ensures
            r.version == INDEX_VERSION,
            r.index() == self@,
    {
        SavedIndex {
            version: INDEX_VERSION,
            records: copy_records(&self.records),
            fields: copy_fields(&self.fields),
        }
    }

    /// The index that saved parts make, where their version is the present one.
    pub fn load(saved: SavedIndex) -> (r: Option<Index>)
        ensures
            match r {
                Some(ix) => saved.version == INDEX_VERSION && ix@ == saved.index(),
                None => saved.version != INDEX_VERSION,
            },
    {
        if saved.version != INDEX_VERSION {
            return None;
        }
        let mut records: TextMap<Signature> = TextMap::new();
        for i in 0..saved.records.len()
            invariant
                records@ == records_map(saved.records@.take(i as int)),
        {
            assert(saved.records@.take(i + 1).drop_last() =~= saved.records@.take(i as int));
            let _ = records.insert(saved.records[i].0.as_str(), saved.records[i].1);
        }
        assert(saved.records@.take(saved.records@.len() as int) =~= saved.records@);
        let mut fields: TextMap<TextMap<Postings>> = TextMap::new();
        for i in 0..saved.fields.len()
            invariant
                fields@ == fields_map(saved.fields@.take(i as int)),
        {
            assert(saved.fields@.take(i + 1).drop_last() =~= saved.fields@.take(i as int));
            let buckets = load_keys(&saved.fields[i].keys);
            let _ = fields.insert(saved.fields[i].name.as_str(), buckets);
        }
        assert(saved.fields@.take(saved.fields@.len() as int) =~= saved.fields@);
        Some(Index { records, fields })
    }
}

fn load_keys(list: &Vec<(String, Vec<String>)>) -> (r: TextMap<Postings>)
    ensures
        r@ == keys_map(list@),
{
    let mut out: TextMap<Postings> = TextMap::new();
    for i in 0..list.len()
        invariant
            out@ == keys_map(list@.take(i as int)),
    {
        assert(list@.take(i + 1).drop_last() =~= list@.take(i as int));
        let paths = Postings { paths: crate::text::copy_texts(&list[i].1) };
        let _ = out.insert(list[i].0.as_str(), paths);
    }
    assert(list@.take(list@.len() as int) =~= list@);
    out
}

} // verus!
