//! Typed queries: filters, an order, a limit, and an optional index.
//!
//! - Records without a filtered field never match that filter.
//! - Records without the field of the order come last in either direction.
//! - Ordering twice keeps the last order only.
//! - Containing any of nothing matches nothing; containing all of nothing matches
//!   every record that has the field.

use vstd::multiset::Multiset;
use vstd::prelude::*;
use vstd::seq_lib::group_to_multiset_ensures;

use crate::collection::{Collection, CollectionView};
use crate::filter::{all_accept, filter_views, matches_all, Filter, FilterOp, FilterView, OpView};
use crate::index::{
    ascending, candidate_for_all, plan_candidates, some_serviceable, Index, IndexView,
};
use crate::ranking::{
    best, by_path, lemma_arranged, lemma_take_best, missing_last, topk_trim, ByRecordPath, OrderBy, OrderView,
    SortDir, TopK,
};
use crate::record::{
    file_views, record_views, FileView, Record, RecordError, RecordErrorView, RecordFile,
    RecordView,
};
use crate::sort::{merge_sort, reversed, sorting, views_of, Sorter};
use crate::text::text_views;
use crate::value::{contents, IntoValue, Value};

verus! {

broadcast use group_to_multiset_ensures;

/// The content of a [`Query`].
pub struct QueryView {
    pub filters: Seq<FilterView>,
    pub order: Option<OrderView>,
    pub limit: Option<nat>,
    pub index: Option<IndexView>,
}

/// A query without filters, order, limit and index.
pub open spec fn fresh_query() -> QueryView {
    QueryView { filters: Seq::empty(), order: None, limit: None, index: None }
}

/// A query over a [`Collection`].
pub struct Query<'a> {
    collection: &'a Collection,
    filters: Vec<Filter>,
    order: Option<OrderBy>,
    limit: Option<usize>,
    index: Option<&'a Index>,
}

impl<'a> View for Query<'a> {
    type V = QueryView;

    closed spec fn view(&self) -> QueryView {
        QueryView {
            filters: filter_views(self.filters@),
            order: match self.order {
                Some(by) => Some(by@),
                None => None,
            },
            limit: match self.limit {
                Some(k) => Some(k as nat),
                None => None,
            },
            index: match self.index {
                Some(ix) => Some(ix@),
                None => None,
            },
        }
    }
}

/// A query together with the field that the next filter is about.
pub struct FilterBuilder<'a> {
    query: Query<'a>,
    field: String,
}

/// A query together with the field that its order is about.
pub struct OrderBuilder<'a> {
    query: Query<'a>,
    field: String,
}

impl QueryView {
    /// The query with one more filter.
    pub open spec fn filtered(self, field: Seq<char>, op: OpView) -> QueryView {
        QueryView { filters: self.filters.push(FilterView { field, op }), ..self }
    }

    /// The query with that order in place of any other.
    pub open spec fn ordered(self, field: Seq<char>, direction: SortDir) -> QueryView {
        QueryView { order: Some(OrderView { field, direction }), ..self }
    }
}

impl<'a> Query<'a> {
    /// The collection that the query is about.
    pub closed spec fn source(&self) -> CollectionView {
        self.collection@
    }

    pub(crate) fn new(collection: &'a Collection) -> (r: Query<'a>)
        ensures
            r@ == fresh_query(),
            r.source() == collection@,
    {
        let r = Query { collection, filters: Vec::new(), order: None, limit: None, index: None };
        assert(r@.filters =~= Seq::<FilterView>::empty());
        r
    }

    /// Caps the result at `k` records.
    pub fn limit(self, k: usize) -> (r: Query<'a>)
        ensures
            r@ == (QueryView { limit: Some(k as nat), ..self@ }),
            r.source() == self.source(),
    {
        Query { limit: Some(k), ..self }
    }

    /// Lets an index narrow the records down that have to be read.
    pub fn using_index(self, index: &'a Index) -> (r: Query<'a>)
        ensures
            r@ == (QueryView { index: Some(index@), ..self@ }),
            r.source() == self.source(),
    {
        Query { index: Some(index), ..self }
    }

    /// Begins a filter on a field.
    pub fn filter(self, field: &str) -> (r: FilterBuilder<'a>)
        ensures
            r.base() == self@,
            r.name() == field@,
            r.source() == self.source(),
    {
        FilterBuilder { query: self, field: field.to_string() }
    }

    /// Begins an order by a field.
    pub fn order_by(self, field: &str) -> (r: OrderBuilder<'a>)
        ensures
            r.base() == self@,
            r.name() == field@,
            r.source() == self.source(),
    {
        OrderBuilder { query: self, field: field.to_string() }
    }

    /// The collection that the query is about.
    pub fn collection(&self) -> (r: &'a Collection)
        ensures
            r@ == self.source(),
    {
        self.collection
    }

    /// The directory of the collection that the query is about.
    pub fn collection_root(&self) -> (r: &str)
        ensures
            r@ == self.source().root,
    {
        self.collection.root()
    }

    /// The name of the collection that the query is about.
    pub fn collection_name(&self) -> (r: &str)
        ensures
            r@ == self.source().schema.collection,
    {
        self.collection.name()
    }

    fn push(self, field: String, op: FilterOp) -> (r: Query<'a>)
        ensures
            r@ == self@.filtered(field@, op@),
            r.source() == self.source(),
    {
        let ghost before = self.filters@;
        let Query { collection, mut filters, order, limit, index } = self;
        let f = Filter { field, op };
        filters.push(f);
        assert(filter_views(filters@) =~= filter_views(before).push(f@));
        Query { collection, filters, order, limit, index }
    }
}

fn values_of<V: IntoValue>(values: &[V]) -> (r: Vec<Value>)
    ensures
        contents(r@) == values@.map_values(|v: V| v.value_view()),
{
    let mut out: Vec<Value> = Vec::new();
    for i in 0..values.len()
        invariant
            out@.len() == i,
            forall|j: int| 0 <= j < i ==> (#[trigger] out@[j])@ == values@[j].value_view(),
    {
        out.push(values[i].to_value());
    }
    assert(contents(out@) =~= values@.map_values(|v: V| v.value_view()));
    out
}

impl<'a> FilterBuilder<'a> {
    pub closed spec fn base(&self) -> QueryView {
        self.query@
    }

    pub closed spec fn name(&self) -> Seq<char> {
        self.field@
    }

    pub closed spec fn source(&self) -> CollectionView {
        self.query.source()
    }

    /// The field equals the value.
    pub fn eq<V: IntoValue>(self, value: V) -> (r: Query<'a>)
        ensures
            r@ == self.base().filtered(self.name(), OpView::Eq(value.value_view())),
            r.source() == self.source(),
    {
        let op = FilterOp::Eq(value.to_value());
        self.query.push(self.field, op)
    }

    /// The field does not equal the value.
    pub fn ne<V: IntoValue>(self, value: V) -> (r: Query<'a>)
        ensures
            r@ == self.base().filtered(self.name(), OpView::Ne(value.value_view())),
            r.source() == self.source(),
    {
        let op = FilterOp::Ne(value.to_value());
        self.query.push(self.field, op)
    }

    /// The field is less than the value.
    pub fn lt<V: IntoValue>(self, value: V) -> (r: Query<'a>)
        ensures
            r@ == self.base().filtered(self.name(), OpView::Lt(value.value_view())),
            r.source() == self.source(),
    {
        let op = FilterOp::Lt(value.to_value());
        self.query.push(self.field, op)
    }

    /// The field is less than the value or equals it.
    pub fn le<V: IntoValue>(self, value: V) -> (r: Query<'a>)
        ensures
            r@ == self.base().filtered(self.name(), OpView::Le(value.value_view())),
            r.source() == self.source(),
    {
        let op = FilterOp::Le(value.to_value());
        self.query.push(self.field, op)
    }

    /// The field is greater than the value.
    pub fn gt<V: IntoValue>(self, value: V) -> (r: Query<'a>)
        ensures
            r@ == self.base().filtered(self.name(), OpView::Gt(value.value_view())),
            r.source() == self.source(),
    {
        let op = FilterOp::Gt(value.to_value());
        self.query.push(self.field, op)
    }

    /// The field is greater than the value or equals it.
    pub fn ge<V: IntoValue>(self, value: V) -> (r: Query<'a>)
        ensures
            r@ == self.base().filtered(self.name(), OpView::Ge(value.value_view())),
            r.source() == self.source(),
    {
        let op = FilterOp::Ge(value.to_value());
        self.query.push(self.field, op)
    }

    /// The field is a sequence that contains the value, or equals it.
    pub fn contains<V: IntoValue>(self, value: V) -> (r: Query<'a>)
        ensures
            r@ == self.base().filtered(self.name(), OpView::Contains(value.value_view())),
            r.source() == self.source(),
    {
        let op = FilterOp::Contains(value.to_value());
        self.query.push(self.field, op)
    }

    /// The field contains at least one of the values.
    pub fn contains_any<V: IntoValue>(self, values: &[V]) -> (r: Query<'a>)
        ensures
            r@ == self.base().filtered(
                self.name(),
                OpView::ContainsAny(values@.map_values(|v: V| v.value_view())),
            ),
            r.source() == self.source(),
    {
        let op = FilterOp::ContainsAny(values_of(values));
        self.query.push(self.field, op)
    }

    /// The field contains every one of the values.
    pub fn contains_all<V: IntoValue>(self, values: &[V]) -> (r: Query<'a>)
        ensures
            r@ == self.base().filtered(
                self.name(),
                OpView::ContainsAll(values@.map_values(|v: V| v.value_view())),
            ),
            r.source() == self.source(),
    {
        let op = FilterOp::ContainsAll(values_of(values));
        self.query.push(self.field, op)
    }
}

impl<'a> OrderBuilder<'a> {
    pub closed spec fn base(&self) -> QueryView {
        self.query@
    }

    pub closed spec fn name(&self) -> Seq<char> {
        self.field@
    }

    pub closed spec fn source(&self) -> CollectionView {
        self.query.source()
    }

    /// From the lowest value to the highest.
    pub fn asc(self) -> (r: Query<'a>)
        ensures
            r@ == self.base().ordered(self.name(), SortDir::Asc),
            r.source() == self.source(),
    {
        let by = OrderBy { field: self.field, direction: SortDir::Asc };
        Query { order: Some(by), ..self.query }
    }

    /// From the highest value to the lowest.
    pub fn desc(self) -> (r: Query<'a>)
        ensures
            r@ == self.base().ordered(self.name(), SortDir::Desc),
            r.source() == self.source(),
    {
        let by = OrderBy { field: self.field, direction: SortDir::Desc };
        Query { order: Some(by), ..self.query }
    }
}

// ---------------------------------------------------------------------------
// Scanning
// ---------------------------------------------------------------------------

/// The records that match among some files, up to the first file that cannot be
/// read or parsed.
pub struct Scan {
    pub records: Vec<Record>,
    pub error: Option<RecordError>,
}

/// The content of a [`Scan`].
pub struct ScanView {
    pub records: Seq<RecordView>,
    pub error: Option<RecordErrorView>,
}

pub open spec fn error_view(e: Option<RecordError>) -> Option<RecordErrorView> {
    match e {
        Some(e) => Some(e@),
        None => None,
    }
}

impl View for Scan {
    type V = ScanView;

    open spec fn view(&self) -> ScanView {
        ScanView { records: record_views(self.records@), error: error_view(self.error) }
    }
}

pub open spec fn empty_scan() -> ScanView {
    ScanView { records: Seq::empty(), error: None }
}

/// A scan with one more file. With `lenient`, a file that cannot be read is passed
/// over: it was deleted since the index listed it.
pub open spec fn scan_file(
    before: ScanView,
    filters: Seq<FilterView>,
    f: FileView,
    lenient: bool,
) -> ScanView {
    match f.record() {
        Err(RecordErrorView::ReadFile { path, reason }) => if lenient {
            before
        } else {
            ScanView { error: Some(RecordErrorView::ReadFile { path, reason }), ..before }
        },
        Err(e) => ScanView { error: Some(e), ..before },
        Ok(record) => if all_accept(filters, record) {
            ScanView { records: before.records.push(record), ..before }
        } else {
            before
        },
    }
}

/// The scan of a list of files, in their order.
pub open spec fn scanned(
    filters: Seq<FilterView>,
    files: Seq<FileView>,
    lenient: bool,
) -> ScanView
    decreases files.len(),
{
    if files.len() == 0 {
        empty_scan()
    } else {
        let before = scanned(filters, files.drop_last(), lenient);
        if before.error is Some {
            before
        } else {
            scan_file(before, filters, files.last(), lenient)
        }
    }
}

proof fn lemma_scan_prefix(filters: Seq<FilterView>, files: Seq<FileView>, lenient: bool, k: int)
    requires
        0 <= k <= files.len(),
        scanned(filters, files.take(k), lenient).error is Some,
    ensures
        scanned(filters, files, lenient) == scanned(filters, files.take(k), lenient),
    decreases files.len() - k,
{
    if k == files.len() {
        assert(files.take(k) =~= files);
    } else {
        assert(files.take(k + 1).drop_last() =~= files.take(k));
        lemma_scan_prefix(filters, files, lenient, k + 1);
    }
}

/// Parses each file and keeps the records that meet every filter.
pub fn filter_files(filters: &[Filter], files: &[RecordFile], lenient: bool) -> (r: Scan)
    ensures
        r@ == scanned(filter_views(filters@), file_views(files@), lenient),
{
    let ghost all = file_views(files@);
    let ghost fs = filter_views(filters@);
    let mut kept: Vec<Record> = Vec::new();
    assert(record_views(kept@) =~= Seq::<RecordView>::empty());
    for i in 0..files.len()
        invariant
            all == file_views(files@),
            fs == filter_views(filters@),
            scanned(fs, all.take(i as int), lenient) == (ScanView {
                records: record_views(kept@),
                error: None,
            }),
    {
        let ghost before = kept@;
        proof {
            assert(all.take(i + 1).drop_last() =~= all.take(i as int));
            assert(all.take(i + 1).last() == files@[i as int]@);
            if scanned(fs, all.take(i + 1), lenient).error is Some {
                lemma_scan_prefix(fs, all, lenient, i + 1);
            }
        }
        match files[i].record() {
            Ok(record) => {
                if matches_all(filters, &record) {
                    kept.push(record);
                    assert(record_views(kept@) =~= record_views(before).push(record@));
                }
            },
            Err(e) => {
                let passed_over = lenient && matches!(e, RecordError::ReadFile { .. });
                if !passed_over {
                    return Scan { records: kept, error: Some(e) };
                }
            },
        }
    }
    assert(all.take(all.len() as int) =~= all);
    Scan { records: kept, error: None }
}

/// The content of a result.
pub open spec fn result_view(r: Result<Vec<Record>, RecordError>) -> Result<
    Seq<RecordView>,
    RecordErrorView,
> {
    match r {
        Ok(records) => Ok(record_views(records@)),
        Err(e) => Err(e@),
    }
}

/// Whether a scan found as many records as are wanted.
pub open spec fn limit_reached(scan: ScanView, limit: Option<nat>) -> bool {
    limit matches Some(k) && k <= scan.records.len()
}

/// The records of a scan, cut off at the limit. An error counts only where it
/// comes before the limit is reached.
pub open spec fn cut_off(scan: ScanView, limit: Option<nat>) -> Result<
    Seq<RecordView>,
    RecordErrorView,
> {
    if limit_reached(scan, limit) {
        Ok(scan.records.take(limit->Some_0 as int))
    } else {
        match scan.error {
            Some(e) => Err(e),
            None => Ok(scan.records),
        }
    }
}

pub open spec fn limit_or_all(limit: Option<nat>, scan: ScanView) -> nat {
    match limit {
        Some(k) => k,
        None => scan.records.len(),
    }
}

/// Whether `r` is the result for a relation and a limit, given what was found: the
/// error, or the first records.
pub open spec fn ranked(
    scan: ScanView,
    limit: Option<nat>,
    rel: spec_fn(RecordView, RecordView) -> bool,
    r: Result<Seq<RecordView>, RecordErrorView>,
) -> bool {
    match (r, scan.error) {
        (Ok(records), None) => best(
            records,
            scan.records.to_multiset(),
            limit_or_all(limit, scan),
            rel,
        ),
        (Err(e), Some(f)) => e == f,
        _ => false,
    }
}

/// Whether `r` is the result of a query by scanning. Without an order, it is what
/// was found, cut off at the limit. With an order, it is the first records in that
/// order, those without the field last, and without a limit what sorting makes of
/// all of them; a limit of nothing needs no reading.
pub open spec fn answers(
    q: QueryView,
    scan: ScanView,
    r: Result<Seq<RecordView>, RecordErrorView>,
) -> bool {
    match q.order {
        None => r == cut_off(scan, q.limit),
        Some(by) => if q.limit == Some(0nat) {
            r == Ok::<Seq<RecordView>, RecordErrorView>(Seq::empty())
        } else {
            ranked(scan, q.limit, by.relation(), r) && (r matches Ok(records) ==> missing_last(
                records,
                by.field,
            ) && (q.limit is None ==> records == by.arranged(scan.records)))
        },
    }
}

/// Whether `r` is the result of a query from an index's candidates: as by
/// scanning, and without an order in the order of the paths.
pub open spec fn answers_indexed(
    q: QueryView,
    scan: ScanView,
    r: Result<Seq<RecordView>, RecordErrorView>,
) -> bool {
    match q.order {
        None => ranked(scan, q.limit, by_path(), r),
        Some(by) => ranked(scan, q.limit, by.relation(), r) && (r matches Ok(records)
            ==> missing_last(records, by.field)),
    }
}

/// Whether `r` is what a query hands out, one record after the other: without an
/// order the records that were found, up to the limit or the error; with an order
/// the result, or nothing but the error.
pub open spec fn hands_out(q: QueryView, scan: ScanView, r: ScanView) -> bool {
    match q.order {
        None => if limit_reached(scan, q.limit) {
            r == (ScanView {
                records: scan.records.take(q.limit->Some_0 as int),
                error: None,
            })
        } else {
            r == scan
        },
        Some(_) => match r.error {
            Some(e) => r.records.len() == 0 && answers(q, scan, Err(e)),
            None => answers(q, scan, Ok(r.records)),
        },
    }
}

impl<'a> Query<'a> {
    /// Whether the query has no order, so that records can be handed out one by
    /// one as they are read.
    pub fn is_streaming(&self) -> (r: bool)
        ensures
            r == (self@.order is None),
    {
        self.order.is_none()
    }

    /// Turns what was found into the result.
    pub fn finish(&self, scan: Scan) -> (r: Result<Vec<Record>, RecordError>)
        ensures
            answers(self@, scan@, result_view(r)),
    {
        let Scan { mut records, error } = scan;
        let ghost found = record_views(records@);
        match &self.order {
            None => {
                if let Some(k) = self.limit {
                    if k <= records.len() {
                        records.truncate(k);
                        assert(record_views(records@) =~= found.take(k as int));
                        return Ok(records);
                    }
                }
                match error {
                    Some(e) => Err(e),
                    None => Ok(records),
                }
            },
            Some(by) => {
                if let Some(k) = self.limit {
                    if k == 0 {
                        let none: Vec<Record> = Vec::new();
                        assert(record_views(none@) =~= Seq::<RecordView>::empty());
                        return Ok(none);
                    }
                }
                match error {
                    Some(e) => Err(e),
                    None => {
                        let k = match self.limit {
                            Some(k) => k,
                            None => records.len(),
                        };
                        let r = topk_trim(records, by, k);
                        proof {
                            let all = by@.arranged(found);
                            lemma_arranged(by@, found);
                            assert(all.take(all.len() as int) =~= all);
                        }
                        Ok(r)
                    },
                }
            },
        }
    }

    /// Answers the query from the given files, in their order. With an order and a
    /// limit, no more than about twice as many records as the limit are held at a
    /// time.
    pub fn collect_par(&self, files: &[RecordFile]) -> (r: Result<Vec<Record>, RecordError>)
        ensures
            answers(
                self@,
                scanned(self@.filters, file_views(files@), false),
                result_view(r),
            ),
    {
        if let (Some(by), Some(k)) = (&self.order, self.limit) {
            if k == 0 {
                let none: Vec<Record> = Vec::new();
                assert(record_views(none@) =~= Seq::<RecordView>::empty());
                return Ok(none);
            }
            let own = OrderBy { field: by.field.clone(), direction: by.direction };
            let top = TopK::new(own, k);
            let (top, error) = worker_topk(top, self.filters.as_slice(), files);
            let ghost scan = scanned(self@.filters, file_views(files@), false);
            return match error {
                Some(e) => Err(e),
                None => {
                    assert(top.added() =~= scan.records.to_multiset());
                    Ok(top.finish())
                },
            };
        }
        let scan = filter_files(self.filters.as_slice(), files, false);
        self.finish(scan)
    }

    /// The records that the query hands out from the given files, one after the
    /// other, and the error at which it stops.
    pub fn run(&self, files: &[RecordFile]) -> (r: Scan)
        ensures
            hands_out(self@, scanned(self@.filters, file_views(files@), false), r@),
    {
        if self.order.is_some() {
            return match self.collect_par(files) {
                Ok(records) => Scan { records, error: None },
                Err(e) => {
                    let none: Vec<Record> = Vec::new();
                    assert(record_views(none@) =~= Seq::<RecordView>::empty());
                    Scan { records: none, error: Some(e) }
                },
            };
        }
        let Scan { mut records, error } = filter_files(self.filters.as_slice(), files, false);
        let ghost found = record_views(records@);
        if let Some(k) = self.limit {
            if k <= records.len() {
                records.truncate(k);
                assert(record_views(records@) =~= found.take(k as int));
                return Scan { records, error: None };
            }
        }
        Scan { records, error }
    }

    /// The filters of the query.
    pub fn filters(&self) -> (r: &Vec<Filter>)
        ensures
            filter_views(r@) == self@.filters,
    {
        &self.filters
    }

    /// The order and the limit, where the query has both: then it is enough to keep
    /// the first records while reading.
    pub fn top_k(&self) -> (r: Option<TopK>)
        ensures
            match r {
                Some(top) => self@.order == Some(top.order()) && self@.limit == Some(top.limit())
                    && top.added() == Multiset::<RecordView>::empty(),
                None => self@.order is None || self@.limit is None,
            },
    {
        match (&self.order, self.limit) {
            (Some(by), Some(k)) => Some(
                TopK::new(OrderBy { field: by.field.clone(), direction: by.direction }, k),
            ),
            _ => None,
        }
    }
}

/// Adds the matching records of some files, up to the first error.
pub fn worker_topk(top: TopK, filters: &[Filter], files: &[RecordFile]) -> (r: (
    TopK,
    Option<RecordError>,
))
    ensures
        ({
            let scan = scanned(filter_views(filters@), file_views(files@), false);
            &&& r.0.added() == top.added().add(scan.records.to_multiset())
            &&& r.0.order() == top.order()
            &&& r.0.limit() == top.limit()
            &&& error_view(r.1) == scan.error
        }),
{
    let ghost all = file_views(files@);
    let ghost fs = filter_views(filters@);
    let mut now = top;
    let ghost start = top.added();
    assert(scanned(fs, all.take(0), false) == empty_scan());
    assert(start.add(empty_scan().records.to_multiset()) =~= start);
    for i in 0..files.len()
        invariant
            all == file_views(files@),
            fs == filter_views(filters@),
            start == top.added(),
            scanned(fs, all.take(i as int), false).error is None,
            now.added() == start.add(scanned(fs, all.take(i as int), false).records.to_multiset()),
            now.order() == top.order(),
            now.limit() == top.limit(),
    {
        let ghost before = scanned(fs, all.take(i as int), false);
        let ghost after = scanned(fs, all.take(i + 1), false);
        proof {
            assert(all.take(i + 1).drop_last() =~= all.take(i as int));
            assert(all.take(i + 1).last() == files@[i as int]@);
            if after.error is Some {
                lemma_scan_prefix(fs, all, false, i + 1);
            }
        }
        match files[i].record() {
            Ok(record) => {
                if matches_all(filters, &record) {
                    now = now.add(record);
                    proof {
                        assert(after.records == before.records.push(record@));
                        assert(now.added() =~= start.add(after.records.to_multiset()));
                    }
                }
            },
            Err(e) => {
                assert(after.records == before.records);
                return (now, Some(e));
            },
        }
    }
    assert(all.take(all.len() as int) =~= all);
    (now, None)
}

// ---------------------------------------------------------------------------
// Answering from an index
// ---------------------------------------------------------------------------

/// The candidates of an index as a list.
pub open spec fn lists_candidates(
    paths: Seq<Seq<char>>,
    ix: IndexView,
    filters: Seq<FilterView>,
) -> bool {
    &&& ascending(paths)
    &&& forall|p: Seq<char>| #[trigger]
        paths.contains(p) <==> candidate_for_all(ix, filters, p)
}

/// Whether reading the candidates one by one is worth it: they are at most one in
/// sixteen records.
pub open spec fn selective(paths: Seq<Seq<char>>, ix: IndexView) -> bool {
    paths.len() * 16 <= ix.records.dom().len()
}

impl<'a> Query<'a> {
    /// The paths of the records that have to be read, where the query has an index
    /// that narrows them down far enough; else all records have to be.
    pub fn try_index(&self) -> (r: Option<Vec<String>>)
        ensures
            match (self@.index, r) {
                (Some(ix), Some(paths)) => some_serviceable(ix, self@.filters) && lists_candidates(
                    text_views(paths@),
                    ix,
                    self@.filters,
                ) && selective(text_views(paths@), ix),
                (Some(ix), None) => !some_serviceable(ix, self@.filters) || exists|
                    paths: Seq<Seq<char>>,
                |
                    lists_candidates(paths, ix, self@.filters) && !(#[trigger] selective(paths, ix)),
                (None, _) => r is None,
            },
    {
        let index = match self.index {
            Some(index) => index,
            None => {
                return None;
            },
        };
        let paths = match plan_candidates(index, self.filters.as_slice()) {
            Some(paths) => paths,
            None => {
                return None;
            },
        };
        let count: usize = index.record_count();
        assert(lists_candidates(text_views(paths@), index@, self@.filters));
        assert(text_views(paths@).len() == paths@.len());
        if paths.len() > count / 16 {
            assert(!selective(text_views(paths@), index@));
            return None;
        }
        Some(paths)
    }

    /// Answers the query from the files of an index's candidates. Every record is
    /// checked against all filters, so that a stale index never makes a record
    /// match; a file that is gone is passed over.
    pub fn collect_indexed(&self, files: &[RecordFile]) -> (r: Result<Vec<Record>, RecordError>)
        ensures
            answers_indexed(
                self@,
                scanned(self@.filters, file_views(files@), true),
                result_view(r),
            ),
    {
        let Scan { records, error } = filter_files(self.filters.as_slice(), files, true);
        if let Some(e) = error {
            return Err(e);
        }
        let ghost found = record_views(records@);
        let k: usize = match self.limit {
            Some(k) => k,
            None => records.len(),
        };
        match &self.order {
            Some(by) => Ok(topk_trim(records, by, k)),
            None => {
                let mut sorted = merge_sort(records, &ByRecordPath);
                let ghost s = record_views(sorted@);
                proof {
                    assert(views_of(sorted@) == s);
                    assert(views_of(records@) == found);
                    lemma_take_best(s, found.to_multiset(), k as nat, by_path());
                }
                if k < sorted.len() {
                    sorted.truncate(k);
                    assert(record_views(sorted@) =~= s.take(k as int));
                } else {
                    assert(s.take(s.len() as int) =~= s);
                }
                Ok(sorted)
            },
        }
    }
}

// ---------------------------------------------------------------------------
// Parallel scanning
// ---------------------------------------------------------------------------

/// With fewer records for each worker, starting it costs more than it saves.
pub const MIN_PER_WORKER: usize = 512;

/// The number of files that a worker takes at a time.
pub const STEAL_CHUNK: usize = 128;

/// How many workers to start for `n` files on a machine with `cores` processors.
pub fn worker_count(n: usize, cores: usize) -> (r: usize)
    requires
        cores >= 1,
    ensures
        r == if n / 512 < 1 {
            1
        } else if n / 512 > cores {
            cores
        } else {
            n / 512
        },
{
    let wanted: usize = n / MIN_PER_WORKER;
    if wanted < 1 {
        1
    } else if wanted > cores {
        cores
    } else {
        wanted
    }
}

/// Where the chunk ends that starts at `start`.
pub fn chunk_end(start: usize, n: usize) -> (r: usize)
    requires
        start < n,
    ensures
        start < r <= n,
        r == n || r == start + 128,
        r == n <==> n - start <= 128,
{
    if n - start <= STEAL_CHUNK {
        n
    } else {
        start + STEAL_CHUNK
    }
}

/// The scan of one chunk of the files, with the position of its first file.
pub struct Chunk {
    pub start: usize,
    pub scan: Scan,
}

/// The content of a [`Chunk`].
pub struct ChunkView {
    pub start: int,
    pub scan: ScanView,
}

impl View for Chunk {
    type V = ChunkView;

    open spec fn view(&self) -> ChunkView {
        ChunkView { start: self.start as int, scan: self.scan@ }
    }
}

/// Sorts chunks by the position of their first file.
pub struct ByStart;

pub open spec fn start_relation() -> spec_fn(ChunkView, ChunkView) -> bool {
    |a: ChunkView, b: ChunkView| a.start < b.start
}

impl Sorter<Chunk> for ByStart {
    open spec fn relation(&self) -> spec_fn(ChunkView, ChunkView) -> bool {
        start_relation()
    }

    fn less(&self, a: &Chunk, b: &Chunk) -> (r: bool) {
        a.start < b.start
    }
}

/// The scans one after the other, up to the first error.
pub open spec fn join_scans(chunks: Seq<ChunkView>) -> ScanView
    decreases chunks.len(),
{
    if chunks.len() == 0 {
        empty_scan()
    } else {
        join_two(join_scans(chunks.drop_last()), chunks.last().scan)
    }
}

pub open spec fn join_two(a: ScanView, b: ScanView) -> ScanView {
    if a.error is Some {
        a
    } else {
        ScanView { records: a.records + b.records, error: b.error }
    }
}

proof fn lemma_join_prefix(chunks: Seq<ChunkView>, k: int)
    requires
        0 <= k <= chunks.len(),
        join_scans(chunks.take(k)).error is Some,
    ensures
        join_scans(chunks) == join_scans(chunks.take(k)),
    decreases chunks.len() - k,
{
    if k == chunks.len() {
        assert(chunks.take(k) =~= chunks);
    } else {
        assert(chunks.take(k + 1).drop_last() =~= chunks.take(k));
        lemma_join_prefix(chunks, k + 1);
    }
}

/// Puts the scans of chunks together in the order of the files.
pub fn merge_chunks(chunks: Vec<Chunk>) -> (r: Scan)
    ensures
        exists|sorted: Seq<ChunkView>| #[trigger]
            sorting(sorted, views_of(chunks@), start_relation()) && r@ == join_scans(sorted),
{
    let sorted = merge_sort(chunks, &ByStart);
    let ghost list = sorted@;
    let ghost n = list.len();
    let ghost order = views_of(list);
    let mut rest = reversed(sorted);
    assert(list.skip(0) =~= list);
    assert(sorting(order, views_of(chunks@), start_relation()));
    let mut records: Vec<Record> = Vec::new();
    assert(record_views(records@) =~= Seq::<RecordView>::empty());
    assert(order.take(0) =~= Seq::<ChunkView>::empty());
    while rest.len() > 0
        invariant
            rest@.len() <= n,
            list.len() == n,
            order == views_of(list),
            rest@ == list.skip(n - rest@.len()).reverse(),
            sorting(order, views_of(chunks@), start_relation()),
            join_scans(order.take(n - rest@.len())) == (ScanView {
                records: record_views(records@),
                error: None,
            }),
        decreases rest@.len(),
    {
        let ghost i = n - rest@.len();
        let ghost before = records@;
        let ghost was = rest@;
        let chunk = rest.pop().unwrap();
        proof {
            assert(was.last() == list[i]);
            assert(order[i] == chunk@);
            assert(order.take(i + 1).drop_last() =~= order.take(i));
            assert(order.take(i + 1).last() == chunk@);
            assert(rest@ =~= list.skip(i + 1).reverse());
            if join_scans(order.take(i + 1)).error is Some {
                lemma_join_prefix(order, i + 1);
            }
        }
        let Scan { records: mut more, error } = chunk.scan;
        let ghost added = more@;
        records.append(&mut more);
        assert(record_views(records@) =~= record_views(before) + record_views(added));
        if let Some(e) = error {
            return Scan { records, error: Some(e) };
        }
    }
    assert(order.take(n as int) =~= order);
    Scan { records, error: None }
}

// ---------------------------------------------------------------------------
// Streaming
// ---------------------------------------------------------------------------

/// A query without order at work: it takes files one by one and hands out the
/// records that match.
pub struct Stream {
    filters: Vec<Filter>,
    remaining: Option<usize>,
    ended: bool,
}

/// The content of a [`Stream`].
pub struct StreamView {
    pub filters: Seq<FilterView>,
    pub remaining: Option<nat>,
    pub ended: bool,
}

impl View for Stream {
    type V = StreamView;

    closed spec fn view(&self) -> StreamView {
        StreamView {
            filters: filter_views(self.filters@),
            remaining: match self.remaining {
                Some(k) => Some(k as nat),
                None => None,
            },
            ended: self.ended,
        }
    }
}

/// What came of a file.
pub enum Offer {
    /// The stream is over; the file was not looked at.
    Over,
    /// The record does not match.
    Skipped,
    Found(Record),
    Failed(RecordError),
}

/// The content of an [`Offer`].
pub enum OfferView {
    Over,
    Skipped,
    Found(RecordView),
    Failed(RecordErrorView),
}

impl View for Offer {
    type V = OfferView;

    open spec fn view(&self) -> OfferView {
        match *self {
            Offer::Over => OfferView::Over,
            Offer::Skipped => OfferView::Skipped,
            Offer::Found(r) => OfferView::Found(r@),
            Offer::Failed(e) => OfferView::Failed(e@),
        }
    }
}

impl StreamView {
    /// Whether nothing more will come: after an error, or when the limit is
    /// reached.
    pub open spec fn is_over(self) -> bool {
        self.ended || self.remaining == Some(0nat)
    }

    /// What comes of a file, and the stream afterwards.
    pub open spec fn offered(self, f: FileView) -> (StreamView, OfferView) {
        if self.is_over() {
            (self, OfferView::Over)
        } else {
            match f.record() {
                Err(e) => (StreamView { ended: true, ..self }, OfferView::Failed(e)),
                Ok(record) => if all_accept(self.filters, record) {
                    (
                        StreamView {
                            remaining: match self.remaining {
                                Some(k) => Some((k - 1) as nat),
                                None => None,
                            },
                            ..self
                        },
                        OfferView::Found(record),
                    )
                } else {
                    (self, OfferView::Skipped)
                },
            }
        }
    }
}

impl<'a> Query<'a> {
    /// The query at work, file by file; a query with an order answers only when
    /// all files were read.
    pub fn stream(self) -> (r: Stream)
        ensures
            r@ == (StreamView {
                filters: self@.filters,
                remaining: self@.limit,
                ended: self@.order is Some,
            }),
    {
        let ended = self.order.is_some();
        Stream { filters: self.filters, remaining: self.limit, ended }
    }
}

impl Stream {
    /// Whether nothing more will come, so that no more files have to be read.
    pub fn is_over(&self) -> (r: bool)
        ensures
            r == self@.is_over(),
    {
        self.ended || matches!(self.remaining, Some(0))
    }

    /// Takes the next file.
    pub fn offer(&mut self, file: &RecordFile) -> (r: Offer)
        ensures
            (final(self)@, r@) == old(self)@.offered(file@),
    {
        if self.is_over() {
            return Offer::Over;
        }
        match file.record() {
            Err(e) => {
                self.ended = true;
                Offer::Failed(e)
            },
            Ok(record) => {
                if matches_all(self.filters.as_slice(), &record) {
                    if let Some(k) = self.remaining {
                        self.remaining = Some(k - 1);
                    }
                    Offer::Found(record)
                } else {
                    Offer::Skipped
                }
            },
        }
    }
}

} // verus!
