//! What holds of queries as a whole: streaming, scanning in chunks and answering
//! from an index give the same records; a limit gives the beginning of the
//! unlimited result; nothing is handed out that does not match.

use vstd::multiset::Multiset;
use vstd::prelude::*;
use vstd::seq_lib::group_to_multiset_ensures;

use crate::filter::{all_accept, FilterView};
use crate::index::{built, changed_paths, IndexView, IndexedView};
use crate::index_laws::{
    all_parse, describes, entry_of, held_at, law_build_describes_files, law_candidates_complete,
    lemma_built_succeeds, lemma_stock_of, stock_of, Stock,
};
use crate::query::{
    answers, answers_indexed, cut_off, empty_scan, hands_out, join_scans, join_two,
    lists_candidates, scanned, start_relation, ChunkView, OfferView, QueryView, ScanView,
    StreamView,
};
use crate::ranking::{
    best, by_path, comparable, law_best_of_best, law_best_unique,
    law_comparable_fields_are_ordered, law_distinct_paths_decide, lemma_arranged,
    lemma_by_path_lawful, lemma_take_best, OrderView, SortDir,
};
use crate::record::{FileView, RecordErrorView, RecordView};
use crate::sort::{decides, in_order, lawful, lemma_sorting_unique, sorting};
use crate::text::{path_lt, text_lt};

verus! {

broadcast use group_to_multiset_ensures;

/// Ordering twice keeps only the last order.
pub proof fn law_last_order_counts(
    q: QueryView,
    field: Seq<char>,
    direction: SortDir,
    other: Seq<char>,
    other_direction: SortDir,
)
    ensures
        q.ordered(other, other_direction).ordered(field, direction) == q.ordered(field, direction),
{
}

// ---------------------------------------------------------------------------
// Streaming
// ---------------------------------------------------------------------------

/// What a stream has handed out after some files.
pub struct Drained {
    pub stream: StreamView,
    pub found: Seq<RecordView>,
    pub error: Option<RecordErrorView>,
}

/// A stream after all of the files were offered to it, one by one.
pub open spec fn drained(stream: StreamView, files: Seq<FileView>) -> Drained
    decreases files.len(),
{
    if files.len() == 0 {
        Drained { stream, found: Seq::empty(), error: None }
    } else {
        let before = drained(stream, files.drop_last());
        let (after, offer) = before.stream.offered(files.last());
        Drained {
            stream: after,
            found: match offer {
                OfferView::Found(r) => before.found.push(r),
                _ => before.found,
            },
            error: match offer {
                OfferView::Failed(e) => Some(e),
                _ => before.error,
            },
        }
    }
}

/// The result of draining a stream into a list: its error, or what it found.
pub open spec fn drained_result(d: Drained) -> Result<Seq<RecordView>, RecordErrorView> {
    match d.error {
        Some(e) => Err(e),
        None => Ok(d.found),
    }
}

proof fn lemma_drained(filters: Seq<FilterView>, limit: Option<nat>, files: Seq<FileView>)
    ensures
        ({
            let d = drained(StreamView { filters, remaining: limit, ended: false }, files);
            let scan = scanned(filters, files, false);
            let n = scan.records.len();
            let reached = limit matches Some(k) && k <= n;
            &&& d.stream.filters == filters
            &&& d.stream.ended == (scan.error is Some && !reached)
            &&& d.error == if reached {
                None
            } else {
                scan.error
            }
            &&& d.stream.remaining == (match limit {
                Some(k) => Some(
                    if reached {
                        0
                    } else {
                        (k - n) as nat
                    },
                ),
                None => None,
            })
            &&& d.found == if reached {
                scan.records.take(limit->Some_0 as int)
            } else {
                scan.records
            }
        }),
    decreases files.len(),
{
    let start = StreamView { filters, remaining: limit, ended: false };
    if files.len() == 0 {
        if let Some(k) = limit {
            assert(empty_scan().records.take(0) =~= empty_scan().records);
        }
    } else {
        let front = files.drop_last();
        lemma_drained(filters, limit, front);
        let before = scanned(filters, front, false);
        let after = scanned(filters, files, false);
        if let Some(k) = limit {
            if k <= before.records.len() {
                assert(after.records.take(k as int) =~= before.records.take(k as int));
            } else if k <= after.records.len() {
                assert(after.records.take(k as int) =~= after.records);
            }
        }
    }
}

/// Draining a stream gives what collecting gives: the records that match, in the
/// order of the files, up to the limit or the first error before it.
pub proof fn law_stream_equals_collect(q: QueryView, files: Seq<FileView>)
    requires
        q.order is None,
    ensures
        answers(
            q,
            scanned(q.filters, files, false),
            drained_result(
                drained(
                    StreamView { filters: q.filters, remaining: q.limit, ended: false },
                    files,
                ),
            ),
        ),
{
    lemma_drained(q.filters, q.limit, files);
}

/// What is handed out one record after the other is what a stream hands out.
pub proof fn law_run_equals_stream(q: QueryView, files: Seq<FileView>, r: ScanView)
    requires
        q.order is None,
        hands_out(q, scanned(q.filters, files, false), r),
    ensures
        ({
            let d = drained(
                StreamView { filters: q.filters, remaining: q.limit, ended: false },
                files,
            );
            r.records == d.found && r.error == d.error
        }),
{
    lemma_drained(q.filters, q.limit, files);
}

/// A stream that is over stays over: it takes no more files and hands out nothing.
pub proof fn law_stream_stays_over(stream: StreamView, f: FileView)
    requires
        stream.is_over(),
    ensures
        stream.offered(f) == (stream, OfferView::Over),
{
}

// ---------------------------------------------------------------------------
// Scanning in chunks
// ---------------------------------------------------------------------------

/// The files of all chunks, one after the other.
pub open spec fn concatenated(chunks: Seq<Seq<FileView>>) -> Seq<FileView>
    decreases chunks.len(),
{
    if chunks.len() == 0 {
        Seq::empty()
    } else {
        concatenated(chunks.drop_last()) + chunks.last()
    }
}

proof fn lemma_scan_concat(filters: Seq<FilterView>, a: Seq<FileView>, b: Seq<FileView>)
    ensures
        scanned(filters, a + b, false) == join_two(
            scanned(filters, a, false),
            scanned(filters, b, false),
        ),
    decreases b.len(),
{
    if b.len() == 0 {
        assert(a + b =~= a);
        let s = scanned(filters, a, false);
        assert(s.records + Seq::<RecordView>::empty() =~= s.records);
    } else {
        let front = b.drop_last();
        lemma_scan_concat(filters, a, front);
        assert((a + b).drop_last() =~= a + front);
        assert((a + b).last() == b.last());
        let x = scanned(filters, a, false);
        let y = scanned(filters, front, false);
        if x.error is None && y.error is None {
            if let Ok(record) = b.last().record() {
                assert((x.records + y.records).push(record) =~= x.records + y.records.push(record));
            }
        }
    }
}

/// Scanning chunks of the files separately and putting the scans together in the
/// order of the files gives the scan of all files, whoever scanned which chunk.
pub proof fn law_chunks_equal_serial(
    filters: Seq<FilterView>,
    files: Seq<Seq<FileView>>,
    chunks: Seq<ChunkView>,
)
    requires
        files.len() == chunks.len(),
        forall|i: int|
            0 <= i < chunks.len() ==> (#[trigger] chunks[i]).scan == scanned(
                filters,
                files[i],
                false,
            ),
    ensures
        join_scans(chunks) == scanned(filters, concatenated(files), false),
    decreases chunks.len(),
{
    if chunks.len() > 0 {
        let f = files.drop_last();
        let c = chunks.drop_last();
        assert forall|i: int| 0 <= i < c.len() implies (#[trigger] c[i]).scan == scanned(
            filters,
            f[i],
            false,
        ) by {
            assert(c[i] == chunks[i]);
            assert(f[i] == files[i]);
        }
        law_chunks_equal_serial(filters, f, c);
        lemma_scan_concat(filters, concatenated(f), files.last());
        assert(chunks.last().scan == scanned(filters, files.last(), false));
    }
}

/// Whichever worker scanned which chunk, and in whatever order the chunks come in:
/// sorting them by their first file restores the order of the files.
pub proof fn law_merging_restores_file_order(
    chunks: Seq<ChunkView>,
    arrived: Seq<ChunkView>,
    sorted: Seq<ChunkView>,
)
    requires
        forall|i: int, j: int|
            0 <= i < j < chunks.len() ==> (#[trigger] chunks[i]).start < (#[trigger] chunks[j]).start,
        arrived.to_multiset() == chunks.to_multiset(),
        sorting(sorted, arrived, start_relation()),
    ensures
        sorted == chunks,
{
    let rel = start_relation();
    let m = chunks.to_multiset();
    assert(decides(rel, m)) by {
        assert forall|x: ChunkView, y: ChunkView|
            #![trigger m.contains(x), m.contains(y)]
            m.contains(x) && m.contains(y) && x != y implies rel(x, y) || rel(y, x) by {
            vstd::seq_lib::to_multiset_contains(chunks, x);
            vstd::seq_lib::to_multiset_contains(chunks, y);
            let i = choose|i: int| 0 <= i < chunks.len() && chunks[i] == x;
            let j = choose|j: int| 0 <= j < chunks.len() && chunks[j] == y;
            if i < j {
                assert(chunks[i].start < chunks[j].start);
            } else {
                assert(chunks[j].start < chunks[i].start);
            }
        }
    }
    assert(lawful(rel, m));
    lemma_sorting_unique(sorted, chunks, rel);
}

/// The values of all lists together.
pub open spec fn pooled(parts: Seq<Multiset<RecordView>>) -> Multiset<RecordView>
    decreases parts.len(),
{
    if parts.len() == 0 {
        Multiset::empty()
    } else {
        pooled(parts.drop_last()).add(parts.last())
    }
}

proof fn lemma_best_replace(
    kept: Seq<Seq<RecordView>>,
    parts: Seq<Multiset<RecordView>>,
    extra: Multiset<RecordView>,
    r: Seq<RecordView>,
    k: nat,
    rel: spec_fn(RecordView, RecordView) -> bool,
)
    requires
        kept.len() == parts.len(),
        forall|i: int| 0 <= i < kept.len() ==> best(#[trigger] kept[i], parts[i], k, rel),
        best(r, pooled(kept.map_values(|s: Seq<RecordView>| s.to_multiset())).add(extra), k, rel),
    ensures
        best(r, pooled(parts).add(extra), k, rel),
    decreases kept.len(),
{
    let sets = kept.map_values(|s: Seq<RecordView>| s.to_multiset());
    if kept.len() > 0 {
        let kf = kept.drop_last();
        let pf = parts.drop_last();
        let last = kept.last();
        let sf = kf.map_values(|s: Seq<RecordView>| s.to_multiset());
        assert(sets.drop_last() =~= sf);
        assert(sets.last() == last.to_multiset());
        let rest = pooled(sf).add(extra);
        assert(pooled(sets).add(extra) =~= last.to_multiset().add(rest));
        law_best_of_best(last, parts.last(), r, rest, k, rel);
        let more = extra.add(parts.last());
        assert(parts.last().add(rest) =~= pooled(sf).add(more));
        assert forall|i: int| 0 <= i < kf.len() implies best(#[trigger] kf[i], pf[i], k, rel) by {
            assert(kf[i] == kept[i]);
            assert(pf[i] == parts[i]);
        }
        lemma_best_replace(kf, pf, more, r, k, rel);
        assert(pooled(pf).add(more) =~= pooled(parts).add(extra));
    } else {
        assert(pooled(sets) =~= pooled(parts));
    }
}

/// Each worker keeping only the first `k` of its records loses nothing: the first
/// `k` of what the workers kept are the first `k` of all records.
pub proof fn law_worker_top_k_merges(
    kept: Seq<Seq<RecordView>>,
    parts: Seq<Multiset<RecordView>>,
    r: Seq<RecordView>,
    k: nat,
    rel: spec_fn(RecordView, RecordView) -> bool,
)
    requires
        kept.len() == parts.len(),
        forall|i: int| 0 <= i < kept.len() ==> best(#[trigger] kept[i], parts[i], k, rel),
        best(r, pooled(kept.map_values(|s: Seq<RecordView>| s.to_multiset())), k, rel),
    ensures
        best(r, pooled(parts), k, rel),
{
    let sets = kept.map_values(|s: Seq<RecordView>| s.to_multiset());
    assert(pooled(sets).add(Multiset::empty()) =~= pooled(sets));
    assert(pooled(parts).add(Multiset::empty()) =~= pooled(parts));
    lemma_best_replace(kept, parts, Multiset::empty(), r, k, rel);
}

// ---------------------------------------------------------------------------
// Limits
// ---------------------------------------------------------------------------

/// Without an order, a limit gives the beginning of the unlimited result.
pub proof fn law_limit_is_prefix(scan: ScanView, k: nat)
    requires
        scan.error is None,
    ensures
        cut_off(scan, Some(k)) == Ok::<Seq<RecordView>, RecordErrorView>(
            scan.records.take(
                if k < scan.records.len() {
                    k as int
                } else {
                    scan.records.len() as int
                },
            ),
        ),
{
    assert(scan.records.take(scan.records.len() as int) =~= scan.records);
}

/// Every path comes once.
pub open spec fn distinct_files(files: Seq<FileView>) -> bool {
    forall|i: int, j: int|
        0 <= i < j < files.len() ==> (#[trigger] files[i]).path != (#[trigger] files[j]).path
}

/// Different records have different paths.
pub open spec fn distinct_records(m: Multiset<RecordView>) -> bool {
    forall|p: RecordView, q: RecordView|
        #![trigger m.contains(p), m.contains(q)]
        m.contains(p) && m.contains(q) && p != q ==> p.path != q.path
}

/// Every record of a scan is the record of one of the files, and meets the filters.
proof fn lemma_scanned_from(
    filters: Seq<FilterView>,
    files: Seq<FileView>,
    lenient: bool,
    record: RecordView,
)
    requires
        scanned(filters, files, lenient).records.contains(record),
    ensures
        all_accept(filters, record),
        exists|i: int|
            0 <= i < files.len() && (#[trigger] files[i]).record() == Ok::<
                RecordView,
                RecordErrorView,
            >(record),
    decreases files.len(),
{
    let records = scanned(filters, files, lenient).records;
    if files.len() > 0 {
        let front = files.drop_last();
        let before = scanned(filters, front, lenient).records;
        let k = choose|k: int| 0 <= k < records.len() && records[k] == record;
        if k < before.len() {
            assert(before[k] == record);
            lemma_scanned_from(filters, front, lenient, record);
            let i = choose|i: int|
                0 <= i < front.len() && (#[trigger] front[i]).record() == Ok::<
                    RecordView,
                    RecordErrorView,
                >(record);
            assert(files[i] == front[i]);
        } else {
            assert(files[files.len() - 1].record() == Ok::<RecordView, RecordErrorView>(record));
        }
    }
}

/// The records of different files have different paths.
proof fn lemma_scanned_distinct(filters: Seq<FilterView>, files: Seq<FileView>, lenient: bool)
    requires
        distinct_files(files),
    ensures
        distinct_records(scanned(filters, files, lenient).records.to_multiset()),
{
    let records = scanned(filters, files, lenient).records;
    let m = records.to_multiset();
    assert forall|p: RecordView, q: RecordView|
        #![trigger m.contains(p), m.contains(q)]
        m.contains(p) && m.contains(q) && p != q implies p.path != q.path by {
        vstd::seq_lib::to_multiset_contains(records, p);
        vstd::seq_lib::to_multiset_contains(records, q);
        lemma_scanned_from(filters, files, lenient, p);
        lemma_scanned_from(filters, files, lenient, q);
        let i = choose|i: int|
            0 <= i < files.len() && (#[trigger] files[i]).record() == Ok::<
                RecordView,
                RecordErrorView,
            >(p);
        let j = choose|j: int|
            0 <= j < files.len() && (#[trigger] files[j]).record() == Ok::<
                RecordView,
                RecordErrorView,
            >(q);
        assert(files[i].path == p.path && files[j].path == q.path);
        if i < j {
            assert(files[i].path != files[j].path);
        } else if j < i {
            assert(files[j].path != files[i].path);
        }
    }
}

/// Whether a query has one result on the given files: always, except that with an
/// order and a limit the values of the field have to compare. (Otherwise which
/// records come first depends on how the work was divided.)
pub open spec fn settled(q: QueryView, files: Seq<FileView>) -> bool {
    match q.order {
        None => true,
        Some(by) => {
            ||| q.limit is None
            ||| q.limit == Some(0nat)
            ||| distinct_files(files) && comparable(
                by,
                scanned(q.filters, files, false).records.to_multiset(),
            )
        },
    }
}

/// A settled query has one result: any two answers from the same files are the same
/// records in the same order, or the same error.
pub proof fn law_answers_are_the_same(
    q: QueryView,
    files: Seq<FileView>,
    r: Result<Seq<RecordView>, RecordErrorView>,
    s: Result<Seq<RecordView>, RecordErrorView>,
)
    requires
        settled(q, files),
        answers(q, scanned(q.filters, files, false), r),
        answers(q, scanned(q.filters, files, false), s),
    ensures
        r == s,
{
    let scan = scanned(q.filters, files, false);
    if let Some(by) = q.order {
        if q.limit is Some && q.limit != Some(0nat) && scan.error is None {
            let m = scan.records.to_multiset();
            lemma_scanned_distinct(q.filters, files, false);
            law_comparable_fields_are_ordered(by, m);
            law_distinct_paths_decide(by, m);
            law_best_unique(r->Ok_0, s->Ok_0, m, q.limit->Some_0, by.relation());
        }
    }
}

/// Draining a query record by record gives what collecting gives, with or without
/// filters, an order and a limit: the same records in the same order, or the same
/// error.
pub proof fn law_draining_equals_collecting(
    q: QueryView,
    files: Seq<FileView>,
    handed_out: ScanView,
    collected: Result<Seq<RecordView>, RecordErrorView>,
)
    requires
        settled(q, files),
        hands_out(q, scanned(q.filters, files, false), handed_out),
        answers(q, scanned(q.filters, files, false), collected),
    ensures
        collected == match handed_out.error {
            Some(e) => Err(e),
            None => Ok(handed_out.records),
        },
{
    if q.order is Some {
        let drained: Result<Seq<RecordView>, RecordErrorView> = match handed_out.error {
            Some(e) => Err(e),
            None => Ok(handed_out.records),
        };
        law_answers_are_the_same(q, files, drained, collected);
    }
}

/// With an order, a limit gives the beginning of the unlimited result, also among
/// records that tie, wherever the values of the field compare: keeping the first `k`
/// is sorting everything and cutting off.
pub proof fn law_top_k_equals_sort_then_truncate(
    q: QueryView,
    k: nat,
    files: Seq<FileView>,
    all: Result<Seq<RecordView>, RecordErrorView>,
    first: Result<Seq<RecordView>, RecordErrorView>,
)
    requires
        q.order is Some,
        scanned(q.filters, files, false).error is None,
        distinct_files(files),
        comparable(q.order->Some_0, scanned(q.filters, files, false).records.to_multiset()),
        answers(
            QueryView { limit: None, ..q },
            scanned(q.filters, files, false),
            all,
        ),
        answers(
            QueryView { limit: Some(k), ..q },
            scanned(q.filters, files, false),
            first,
        ),
    ensures
        all is Ok,
        first == Ok::<Seq<RecordView>, RecordErrorView>(
            all->Ok_0.take(
                if k < all->Ok_0.len() {
                    k as int
                } else {
                    all->Ok_0.len() as int
                },
            ),
        ),
{
    let scan = scanned(q.filters, files, false);
    let by = q.order->Some_0;
    let m = scan.records.to_multiset();
    let s = all->Ok_0;
    lemma_arranged(by, scan.records);
    if k == 0 {
        assert(s.take(0) =~= Seq::<RecordView>::empty());
    } else {
        lemma_scanned_distinct(q.filters, files, false);
        law_comparable_fields_are_ordered(by, m);
        law_distinct_paths_decide(by, m);
        lemma_take_best(s, m, k, by.relation());
        law_best_unique(
            first->Ok_0,
            s.take(
                if k < s.len() {
                    k as int
                } else {
                    s.len() as int
                },
            ),
            m,
            k,
            by.relation(),
        );
    }
}

// ---------------------------------------------------------------------------
// Nothing that does not match
// ---------------------------------------------------------------------------

proof fn lemma_scanned_accept(filters: Seq<FilterView>, files: Seq<FileView>, lenient: bool)
    ensures
        forall|i: int|
            0 <= i < scanned(filters, files, lenient).records.len() ==> all_accept(
                filters,
                #[trigger] scanned(filters, files, lenient).records[i],
            ),
    decreases files.len(),
{
    if files.len() > 0 {
        lemma_scanned_accept(filters, files.drop_last(), lenient);
    }
}

proof fn lemma_best_from(
    r: Seq<RecordView>,
    all: Seq<RecordView>,
    k: nat,
    rel: spec_fn(RecordView, RecordView) -> bool,
)
    requires
        best(r, all.to_multiset(), k, rel),
    ensures
        forall|i: int| 0 <= i < r.len() ==> all.contains(#[trigger] r[i]),
{
    assert forall|i: int| 0 <= i < r.len() implies all.contains(#[trigger] r[i]) by {
        assert(r.contains(r[i]));
        vstd::seq_lib::to_multiset_contains(r, r[i]);
        assert(all.to_multiset().contains(r[i]));
        vstd::seq_lib::to_multiset_contains(all, r[i]);
    }
}

/// Every record that a query hands out meets all of its filters, by scanning and
/// from an index alike, however stale the index is.
pub proof fn law_results_match(
    q: QueryView,
    files: Seq<FileView>,
    indexed: bool,
    r: Result<Seq<RecordView>, RecordErrorView>,
)
    requires
        indexed ==> answers_indexed(q, scanned(q.filters, files, true), r),
        !indexed ==> answers(q, scanned(q.filters, files, false), r),
    ensures
        r matches Ok(records) ==> forall|i: int|
            0 <= i < records.len() ==> all_accept(q.filters, #[trigger] records[i]),
{
    let scan = scanned(q.filters, files, indexed);
    lemma_scanned_accept(q.filters, files, indexed);
    if let Ok(records) = r {
        if !indexed && (q.order is None || q.limit == Some(0nat)) {
            assert forall|i: int| 0 <= i < records.len() implies all_accept(
                q.filters,
                #[trigger] records[i],
            ) by {
                assert(records[i] == scan.records[i]);
            }
        } else {
            let k = crate::query::limit_or_all(q.limit, scan);
            let rel = match q.order {
                Some(by) => by.relation(),
                None => by_path(),
            };
            assert(best(records, scan.records.to_multiset(), k, rel));
            lemma_best_from(records, scan.records, k, rel);
            assert forall|i: int| 0 <= i < records.len() implies all_accept(
                q.filters,
                #[trigger] records[i],
            ) by {
                assert(scan.records.contains(records[i]));
                let j = choose|j: int| 0 <= j < scan.records.len() && scan.records[j] == records[i];
                assert(all_accept(q.filters, scan.records[j]));
            }
        }
    }
}

// ---------------------------------------------------------------------------
// Index and scan
// ---------------------------------------------------------------------------

/// The stock holds the record of every file.
pub open spec fn stocks(stock: Stock, files: Seq<FileView>) -> bool {
    forall|i: int| 0 <= i < files.len() ==> stocks_file(stock, #[trigger] files[i])
}

pub open spec fn stocks_file(stock: Stock, f: FileView) -> bool {
    &&& f.record() is Ok
    &&& stock.contains_key(f.path)
    &&& stock[f.path].1 == f.record()->Ok_0.frontmatter()
}

/// The files come in the order of their paths, each path once.
pub open spec fn in_path_order(files: Seq<FileView>) -> bool {
    forall|i: int, j: int|
        0 <= i < j < files.len() ==> path_lt((#[trigger] files[i]).path, (#[trigger] files[j]).path)
}

/// `read` is what reading the given paths gives, in their order: the file with that
/// path, or, where there is none, a file that cannot be read.
pub open spec fn reads(read: Seq<FileView>, paths: Seq<Seq<char>>, files: Seq<FileView>) -> bool {
    &&& read.len() == paths.len()
    &&& forall|i: int| 0 <= i < read.len() ==> (#[trigger] read[i]).path == paths[i]
    &&& forall|i: int|
        0 <= i < read.len() ==> files.contains(#[trigger] read[i]) || (read[i].content is Err
            && !has_path(files, read[i].path))
}

pub open spec fn has_path(files: Seq<FileView>, path: Seq<char>) -> bool {
    exists|i: int| 0 <= i < files.len() && (#[trigger] files[i]).path == path
}

proof fn lemma_path_order_distinct(files: Seq<FileView>)
    requires
        in_path_order(files),
    ensures
        distinct_files(files),
{
    assert forall|i: int, j: int| 0 <= i < j < files.len() implies (#[trigger] files[i]).path != (
    #[trigger] files[j]).path by {
        crate::text::lemma_ranked_total(files[i].path, files[i].path, true);
        assert(path_lt(files[i].path, files[j].path));
    }
}

/// A scan of files that are records, or that may be passed over, finds the records
/// that meet the filters, each as often as its file occurs.
proof fn lemma_scan_finds(filters: Seq<FilterView>, files: Seq<FileView>, lenient: bool)
    requires
        forall|i: int|
            0 <= i < files.len() ==> (#[trigger] files[i]).record() is Ok || (lenient
                && files[i].content is Err),
    ensures
        scanned(filters, files, lenient).error is None,
        forall|i: int|
            0 <= i < files.len() && (#[trigger] files[i]).record() is Ok && all_accept(
                filters,
                files[i].record()->Ok_0,
            ) ==> scanned(filters, files, lenient).records.contains(files[i].record()->Ok_0),
        distinct_files(files) ==> scanned(filters, files, lenient).records.no_duplicates(),
    decreases files.len(),
{
    if files.len() > 0 {
        let front = files.drop_last();
        let last = files[files.len() - 1];
        assert forall|i: int| 0 <= i < front.len() implies (#[trigger] front[i]).record() is Ok || (
        lenient && front[i].content is Err) by {
            assert(front[i] == files[i]);
        }
        lemma_scan_finds(filters, front, lenient);
        let before = scanned(filters, front, lenient).records;
        let records = scanned(filters, files, lenient).records;
        assert(last.record() is Ok || (lenient && last.content is Err));
        assert(records == before || records == before.push(last.record()->Ok_0));
        assert forall|i: int|
            0 <= i < files.len() && (#[trigger] files[i]).record() is Ok && all_accept(
                filters,
                files[i].record()->Ok_0,
            ) implies records.contains(files[i].record()->Ok_0) by {
            let record = files[i].record()->Ok_0;
            if i < front.len() {
                assert(front[i] == files[i]);
                assert(before.contains(record));
                let k = choose|k: int| 0 <= k < before.len() && before[k] == record;
                assert(records[k] == record);
            } else {
                assert(records[before.len() as int] == record);
            }
        }
        if distinct_files(files) {
            assert(distinct_files(front)) by {
                assert forall|i: int, j: int| 0 <= i < j < front.len() implies (
                #[trigger] front[i]).path != (#[trigger] front[j]).path by {
                    assert(front[i] == files[i] && front[j] == files[j]);
                }
            }
            if records != before {
                let record = last.record()->Ok_0;
                assert(!before.contains(record)) by {
                    if before.contains(record) {
                        lemma_scanned_from(filters, front, lenient, record);
                        let i = choose|i: int|
                            0 <= i < front.len() && (#[trigger] front[i]).record() == Ok::<
                                RecordView,
                                RecordErrorView,
                            >(record);
                        assert(front[i] == files[i]);
                        assert(files[i].path == record.path && last.path == record.path);
                        assert(files[i].path != files[files.len() - 1].path);
                    }
                }
            }
        }
    }
}

/// Lists without repetition that hold the same values hold them equally often.
proof fn lemma_same_values(a: Seq<RecordView>, b: Seq<RecordView>)
    requires
        a.no_duplicates(),
        b.no_duplicates(),
        forall|x: RecordView| #[trigger] a.contains(x) <==> b.contains(x),
    ensures
        a.to_multiset() == b.to_multiset(),
        a.len() == b.len(),
{
    a.lemma_multiset_has_no_duplicates();
    b.lemma_multiset_has_no_duplicates();
    assert forall|x: RecordView| a.to_multiset().count(x) == b.to_multiset().count(x) by {
        vstd::seq_lib::to_multiset_contains(a, x);
        vstd::seq_lib::to_multiset_contains(b, x);
        assert(a.contains(x) <==> b.contains(x));
        if a.contains(x) {
            assert(a.to_multiset().contains(x) && b.to_multiset().contains(x));
        }
    }
    assert(a.to_multiset() =~= b.to_multiset());
    assert(a.len() == a.to_multiset().len());
    assert(b.len() == b.to_multiset().len());
}

/// Reading only the paths that an index lists, in whatever order it lists them,
/// finds exactly the records that reading all files finds, where the index
/// describes the collection.
pub proof fn law_index_finds_what_a_scan_finds(
    ix: IndexView,
    stock: Stock,
    filters: Seq<FilterView>,
    files: Seq<FileView>,
    paths: Seq<Seq<char>>,
    read: Seq<FileView>,
)
    requires
        describes(ix, stock),
        stocks(stock, files),
        distinct_files(files),
        lists_candidates(paths, ix, filters),
        reads(read, paths, files),
    ensures
        scanned(filters, files, false).error is None,
        scanned(filters, read, true).error is None,
        scanned(filters, read, true).records.to_multiset() == scanned(
            filters,
            files,
            false,
        ).records.to_multiset(),
        scanned(filters, read, true).records.len() == scanned(filters, files, false).records.len(),
{
    let a = scanned(filters, read, true).records;
    let b = scanned(filters, files, false).records;
    assert forall|i: int| 0 <= i < files.len() implies (#[trigger] files[i]).record() is Ok by {
        assert(stocks_file(stock, files[i]));
    }
    assert forall|i: int| 0 <= i < read.len() implies (#[trigger] read[i]).record() is Ok
        || read[i].content is Err by {
        if files.contains(read[i]) {
            let k = choose|k: int| 0 <= k < files.len() && files[k] == read[i];
            assert(files[k].record() is Ok);
        }
    }
    assert(distinct_files(read)) by {
        assert forall|i: int, j: int| 0 <= i < j < read.len() implies (#[trigger] read[i]).path != (
        #[trigger] read[j]).path by {
            assert(text_lt(paths[i], paths[j]));
            crate::text::lemma_ranked_total(paths[i], paths[i], false);
        }
    }
    lemma_scan_finds(filters, files, false);
    lemma_scan_finds(filters, read, true);
    assert forall|x: RecordView| #[trigger] a.contains(x) <==> b.contains(x) by {
        if a.contains(x) {
            lemma_scanned_from(filters, read, true, x);
            let i = choose|i: int|
                0 <= i < read.len() && (#[trigger] read[i]).record() == Ok::<
                    RecordView,
                    RecordErrorView,
                >(x);
            assert(files.contains(read[i]));
            let k = choose|k: int| 0 <= k < files.len() && files[k] == read[i];
            assert(files[k].record()->Ok_0 == x);
        }
        if b.contains(x) {
            lemma_scanned_from(filters, files, false, x);
            let k = choose|k: int|
                0 <= k < files.len() && (#[trigger] files[k]).record() == Ok::<
                    RecordView,
                    RecordErrorView,
                >(x);
            assert(stocks_file(stock, files[k]));
            assert(x.path == files[k].path);
            law_candidates_complete(ix, stock, filters, x);
            assert(paths.contains(x.path));
            let i = choose|i: int| 0 <= i < paths.len() && paths[i] == x.path;
            assert(read[i].path == files[k].path);
            assert(has_path(files, read[i].path));
            assert(files.contains(read[i]));
            let n = choose|n: int| 0 <= n < files.len() && files[n] == read[i];
            if n < k {
                assert(files[n].path != files[k].path);
            } else if k < n {
                assert(files[k].path != files[n].path);
            }
            assert(read[i].record()->Ok_0 == x);
        }
    }
    lemma_same_values(a, b);
}

proof fn lemma_scanned_in_path_order(filters: Seq<FilterView>, files: Seq<FileView>)
    requires
        in_path_order(files),
    ensures
        ({
            let records = scanned(filters, files, false).records;
            &&& forall|i: int, j: int|
                0 <= i < j < records.len() ==> path_lt(
                    (#[trigger] records[i]).path,
                    (#[trigger] records[j]).path,
                )
            &&& forall|i: int|
                0 <= i < records.len() ==> has_path(files, (#[trigger] records[i]).path)
        }),
    decreases files.len(),
{
    if files.len() > 0 {
        let front = files.drop_last();
        assert forall|i: int, j: int| 0 <= i < j < front.len() implies path_lt(
            (#[trigger] front[i]).path,
            (#[trigger] front[j]).path,
        ) by {
            assert(front[i] == files[i] && front[j] == files[j]);
        }
        lemma_scanned_in_path_order(filters, front);
        let before = scanned(filters, front, false).records;
        let records = scanned(filters, files, false).records;
        let last = files.len() - 1;
        assert forall|i: int, j: int| 0 <= i < j < records.len() implies path_lt(
            (#[trigger] records[i]).path,
            (#[trigger] records[j]).path,
        ) by {
            assert(records[i] == before[i]);
            if j < before.len() {
                assert(records[j] == before[j]);
            } else {
                assert(has_path(front, before[i].path));
                let n = choose|n: int|
                    0 <= n < front.len() && (#[trigger] front[n]).path == before[i].path;
                assert(files[n] == front[n]);
                assert(records[j].path == files[last].path);
                assert(path_lt(files[n].path, files[last].path));
            }
        }
        assert forall|i: int| 0 <= i < records.len() implies has_path(
            files,
            (#[trigger] records[i]).path,
        ) by {
            if i < before.len() {
                assert(records[i] == before[i]);
                assert(has_path(front, before[i].path));
                let n = choose|n: int|
                    0 <= n < front.len() && (#[trigger] front[n]).path == before[i].path;
                assert(files[n] == front[n]);
            } else {
                assert(files[last].path == records[i].path);
            }
        }
    }
}

/// Answering from the paths that an index lists gives the very result that scanning
/// all files in the order of their paths gives, where the index describes the
/// collection; with an order, where the values of the field compare.
pub proof fn law_indexed_answer_equals_scan(
    ix: IndexView,
    stock: Stock,
    q: QueryView,
    files: Seq<FileView>,
    paths: Seq<Seq<char>>,
    read: Seq<FileView>,
    indexed: Result<Seq<RecordView>, RecordErrorView>,
    scan: Result<Seq<RecordView>, RecordErrorView>,
)
    requires
        describes(ix, stock),
        stocks(stock, files),
        in_path_order(files),
        lists_candidates(paths, ix, q.filters),
        reads(read, paths, files),
        q.order matches Some(by) ==> comparable(
            by,
            scanned(q.filters, files, false).records.to_multiset(),
        ),
        answers_indexed(q, scanned(q.filters, read, true), indexed),
        answers(q, scanned(q.filters, files, false), scan),
    ensures
        indexed is Ok,
        indexed == scan,
{
    lemma_path_order_distinct(files);
    law_index_finds_what_a_scan_finds(ix, stock, q.filters, files, paths, read);
    let found = scanned(q.filters, files, false);
    let s = found.records;
    let m = s.to_multiset();
    let k = crate::query::limit_or_all(q.limit, found);
    let n = if k < s.len() {
        k as int
    } else {
        s.len() as int
    };
    match q.order {
        None => {
            let rel = by_path();
            lemma_by_path_lawful(m);
            lemma_scanned_in_path_order(q.filters, files);
            assert(in_order(s, rel)) by {
                assert forall|i: int, j: int| 0 <= i < j < s.len() implies !rel(
                    #[trigger] s[j],
                    #[trigger] s[i],
                ) by {
                    crate::text::lemma_ranked_total(s[i].path, s[j].path, true);
                }
            }
            lemma_scanned_distinct(q.filters, files, false);
            law_distinct_paths_decide(
                OrderView { field: Seq::empty(), direction: SortDir::Asc },
                m,
            );
            lemma_take_best(s, m, k, rel);
            law_best_unique(indexed->Ok_0, s.take(n), m, k, rel);
            assert(s.take(s.len() as int) =~= s);
        },
        Some(by) => {
            lemma_scanned_distinct(q.filters, files, false);
            law_comparable_fields_are_ordered(by, m);
            law_distinct_paths_decide(by, m);
            if q.limit == Some(0nat) {
                assert(indexed->Ok_0 =~= Seq::<RecordView>::empty());
            } else {
                law_best_unique(indexed->Ok_0, scan->Ok_0, m, k, by.relation());
            }
        },
    }
}

/// The files of a list without their signatures.
pub open spec fn plain_files(files: Seq<IndexedView>) -> Seq<FileView> {
    files.map_values(|f: IndexedView| f.file)
}

/// An index that was built from the files as they are answers a query with the very
/// result that the query has without it: the same records in the same order.
pub proof fn law_built_index_answers_like_scan(
    built_from: Seq<IndexedView>,
    q: QueryView,
    paths: Seq<Seq<char>>,
    read: Seq<FileView>,
    indexed: Result<Seq<RecordView>, RecordErrorView>,
    scan: Result<Seq<RecordView>, RecordErrorView>,
)
    requires
        in_path_order(plain_files(built_from)),
        forall|i: int| 0 <= i < built_from.len() ==> (#[trigger] built_from[i]).signature is Some,
        all_parse(built_from),
        lists_candidates(paths, built(built_from)->Ok_0, q.filters),
        reads(read, paths, plain_files(built_from)),
        q.order matches Some(by) ==> comparable(
            by,
            scanned(q.filters, plain_files(built_from), false).records.to_multiset(),
        ),
        answers_indexed(q, scanned(q.filters, read, true), indexed),
        answers(q, scanned(q.filters, plain_files(built_from), false), scan),
    ensures
        built(built_from) is Ok,
        indexed is Ok,
        indexed == scan,
{
    let files = plain_files(built_from);
    let all = changed_paths(built_from);
    let stock = stock_of(built_from);
    lemma_path_order_distinct(files);
    assert(all.no_duplicates()) by {
        assert forall|i: int, j: int|
            0 <= i < all.len() && 0 <= j < all.len() && i != j implies all[i] != all[j] by {
            assert(files[i].path == all[i] && files[j].path == all[j]);
            if i < j {
                assert(files[i].path != files[j].path);
            } else {
                assert(files[j].path != files[i].path);
            }
        }
    }
    lemma_built_succeeds(built_from);
    law_build_describes_files(built_from);
    lemma_stock_of(built_from);
    assert(stocks(stock, files)) by {
        assert forall|i: int| 0 <= i < files.len() implies stocks_file(stock, #[trigger] files[i]) by {
            let f = built_from[i];
            assert(files[i] == f.file);
            assert(f.signature is Some);
            assert(f.file.record() is Ok);
            assert(held_at(stock, f.file.path) == entry_of(f));
        }
    }
    law_indexed_answer_equals_scan(
        built(built_from)->Ok_0,
        stock,
        q,
        files,
        paths,
        read,
        indexed,
        scan,
    );
}

} // verus!
