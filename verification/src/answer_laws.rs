//! What a query answers, stated on its files, on filters and on the order of values.

use vstd::multiset::Multiset;
use vstd::prelude::*;
use vstd::seq_lib::group_to_multiset_ensures;

use crate::filter::{all_accept, value_order, FilterView, OpView};
use crate::filter_laws::is_number;
use crate::index::{serviceable, IndexView};
use crate::query::{
    answers, answers_indexed, fresh_query, hands_out, scanned, selective, QueryView, ScanView,
};
use crate::ranking::{comparable, law_comparable_fields_are_ordered, OrderView, SortDir};
use crate::record::{FileView, RecordErrorView, RecordView};
use crate::sort::in_order;
use crate::text::Order;
use crate::text_laws::{comes_before, law_texts_compare_like_a_dictionary};
use crate::value::{NumberView, ValueView};
use crate::value_laws::{carries, lemma_carries, lemma_core, whole};

verus! {

broadcast use group_to_multiset_ensures;

// ---------------------------------------------------------------------------
// Building queries
// ---------------------------------------------------------------------------

/// Each step of building a query changes just its part: a filter is added behind the
/// others, an order replaces the one before, and a new query accepts every record, in
/// the order of the files.
pub proof fn law_building_a_query(
    q: QueryView,
    field: Seq<char>,
    op: OpView,
    direction: SortDir,
    record: RecordView,
)
    ensures
        q.filtered(field, op).filters == q.filters.push(FilterView { field, op }),
        q.filtered(field, op).order == q.order && q.filtered(field, op).limit == q.limit
            && q.filtered(field, op).index == q.index,
        q.ordered(field, direction).order == Some(OrderView { field, direction }),
        q.ordered(field, direction).filters == q.filters && q.ordered(field, direction).limit
            == q.limit && q.ordered(field, direction).index == q.index,
        all_accept(fresh_query().filters, record),
        fresh_query().order is None && fresh_query().limit is None && fresh_query().index is None,
{
}

// ---------------------------------------------------------------------------
// What is found
// ---------------------------------------------------------------------------

/// The records of files that can all be read.
pub open spec fn records_of(files: Seq<FileView>) -> Seq<RecordView> {
    Seq::new(files.len(), |i: int| files[i].record()->Ok_0)
}

/// Where all files can be read, what is found is the records that meet every filter,
/// in the order of the files.
pub proof fn law_scans_find_what_matches(
    filters: Seq<FilterView>,
    files: Seq<FileView>,
    lenient: bool,
)
    requires
        forall|i: int| 0 <= i < files.len() ==> (#[trigger] files[i]).record() is Ok,
    ensures
        scanned(filters, files, lenient).error is None,
        scanned(filters, files, lenient).records == records_of(files).filter(
            |r: RecordView| all_accept(filters, r),
        ),
    decreases files.len(),
{
    reveal(Seq::filter);
    let all = records_of(files);
    if files.len() > 0 {
        let front = files.drop_last();
        assert forall|i: int| 0 <= i < front.len() implies (#[trigger] front[i]).record() is Ok by {
            assert(front[i] == files[i]);
        }
        law_scans_find_what_matches(filters, front, lenient);
        assert(all.drop_last() =~= records_of(front));
        assert(files[files.len() - 1].record() is Ok);
        assert(all.last() == files.last().record()->Ok_0);
    } else {
        assert(scanned(filters, files, lenient).records =~= all.filter(
            |r: RecordView| all_accept(filters, r),
        ));
    }
}

/// A scan stops at the first file that cannot be read or parsed. Where an index listed
/// the files, one that cannot be read any more is passed over.
pub proof fn law_scans_stop_at_errors(
    filters: Seq<FilterView>,
    files: Seq<FileView>,
    f: FileView,
    lenient: bool,
)
    ensures
        ({
            let before = scanned(filters, files, lenient);
            let after = scanned(filters, files.push(f), lenient);
            &&& before.error is Some ==> after == before
            &&& before.error is None ==> {
                &&& f.content is Err && lenient ==> after == before
                &&& !(f.content is Err && lenient) && f.record() is Err ==> after.error == Some(
                    f.record()->Err_0,
                ) && after.records == before.records
                &&& f.record() is Ok && all_accept(filters, f.record()->Ok_0) ==> after.error is None
                    && after.records == before.records.push(f.record()->Ok_0)
                &&& f.record() is Ok && !all_accept(filters, f.record()->Ok_0) ==> after == before
            }
        }),
        scanned(filters, Seq::empty(), lenient).records.len() == 0,
        scanned(filters, Seq::empty(), lenient).error is None,
        f.content matches Ok(text) ==> f.record() == crate::record::read_content(f.path, text),
        f.content matches Err(reason) ==> f.record() == Err::<RecordView, RecordErrorView>(
            RecordErrorView::ReadFile { path: f.path, reason },
        ),
{
    assert(files.push(f).drop_last() =~= files);
}

// ---------------------------------------------------------------------------
// Limits
// ---------------------------------------------------------------------------

/// Without an order, a query answers with what was found, up to its limit; an error
/// counts only where fewer records were found before it than are wanted.
pub proof fn law_unordered_answers(
    q: QueryView,
    scan: ScanView,
    r: Result<Seq<RecordView>, RecordErrorView>,
)
    requires
        q.order is None,
        answers(q, scan, r),
    ensures
        q.limit is Some && q.limit->Some_0 <= scan.records.len() ==> r == Ok::<
            Seq<RecordView>,
            RecordErrorView,
        >(scan.records.take(q.limit->Some_0 as int)),
        !(q.limit is Some && q.limit->Some_0 <= scan.records.len()) ==> r == match scan.error {
            Some(e) => Err::<Seq<RecordView>, RecordErrorView>(e),
            None => Ok::<Seq<RecordView>, RecordErrorView>(scan.records),
        },
{
}

/// A query that hands records out one by one hands out what it would answer with, and
/// without an order also what comes before an error.
pub proof fn law_records_are_handed_out(q: QueryView, scan: ScanView, r: ScanView)
    requires
        hands_out(q, scan, r),
    ensures
        q.order is None && (q.limit is Some && q.limit->Some_0 <= scan.records.len()) ==> r.error is None
            && r.records == scan.records.take(q.limit->Some_0 as int),
        q.order is None && !(q.limit is Some && q.limit->Some_0 <= scan.records.len()) ==> r == scan,
        q.order is Some && r.error is None ==> answers(q, scan, Ok(r.records)),
        q.order is Some && r.error is Some ==> answers(q, scan, Err(r.error->Some_0))
            && r.records.len() == 0,
{
}

/// With an order, an error is the answer, but for a limit of nothing; without an error
/// the answer has as many of the records found as are wanted, or all of them.
pub proof fn law_ordered_answers_are_complete(
    q: QueryView,
    scan: ScanView,
    r: Result<Seq<RecordView>, RecordErrorView>,
)
    requires
        q.order is Some,
        answers(q, scan, r),
    ensures
        q.limit == Some(0nat) ==> r == Ok::<Seq<RecordView>, RecordErrorView>(Seq::empty()),
        q.limit != Some(0nat) && scan.error is Some ==> r == Err::<Seq<RecordView>, RecordErrorView>(
            scan.error->Some_0,
        ),
        scan.error is None ==> r is Ok && {
            let records = r->Ok_0;
            &&& records.to_multiset().subset_of(scan.records.to_multiset())
            &&& q.limit is None ==> records.to_multiset() == scan.records.to_multiset()
            &&& q.limit is Some && q.limit->Some_0 < scan.records.len() ==> records.len()
                == q.limit->Some_0
            &&& q.limit is Some && q.limit->Some_0 >= scan.records.len() ==> records.to_multiset()
                == scan.records.to_multiset()
        },
{
    if scan.error is None && q.limit != Some(0nat) {
        let records = r->Ok_0;
        assert(scan.records.to_multiset().len() == scan.records.len());
        if q.limit is None || q.limit->Some_0 >= scan.records.len() {
            lemma_full(records.to_multiset(), scan.records.to_multiset());
        }
    }
    if q.limit == Some(0nat) {
        let none = Seq::<RecordView>::empty();
        assert(none.to_multiset().len() == 0);
        assert(scan.records.to_multiset().len() == scan.records.len());
        assert(none.to_multiset() =~= Multiset::<RecordView>::empty());
        if scan.records.len() == 0 {
            assert(scan.records =~= none);
        }
    }
}

proof fn lemma_full(a: Multiset<RecordView>, b: Multiset<RecordView>)
    requires
        a.subset_of(b),
        a.len() == b.len(),
    ensures
        a == b,
{
    let rest = b.sub(a);
    assert(b =~= a.add(rest));
    assert(b.len() == a.len() + rest.len());
    assert(rest =~= Multiset::<RecordView>::empty());
    assert(a =~= b);
}

// ---------------------------------------------------------------------------
// Order
// ---------------------------------------------------------------------------

/// The values of the field are all of one kind, in which they can be compared: texts,
/// truth values, integers of the signed range, or doubles that are numbers.
pub open spec fn one_kind(records: Seq<RecordView>, field: Seq<char>) -> bool {
    ||| forall|i: int|
        0 <= i < records.len() ==> field_is_text((#[trigger] records[i]).field(field))
    ||| forall|i: int|
        0 <= i < records.len() ==> field_is_truth((#[trigger] records[i]).field(field))
    ||| forall|i: int|
        0 <= i < records.len() ==> field_is_integer((#[trigger] records[i]).field(field))
    ||| forall|i: int|
        0 <= i < records.len() ==> field_is_double((#[trigger] records[i]).field(field))
}

pub open spec fn field_is_text(v: Option<ValueView>) -> bool {
    v matches Some(x) ==> exists|s: Seq<char>| #[trigger] carries(x, ValueView::String(s))
}

pub open spec fn field_is_truth(v: Option<ValueView>) -> bool {
    v matches Some(x) ==> exists|b: bool| #[trigger] carries(x, ValueView::Bool(b))
}

pub open spec fn field_is_integer(v: Option<ValueView>) -> bool {
    v matches Some(x) ==> exists|n: NumberView| #[trigger]
        carries(x, ValueView::Number(n)) && (whole(n) matches Some(i) && i <= i64::MAX)
}

pub open spec fn field_is_double(v: Option<ValueView>) -> bool {
    v matches Some(x) ==> exists|n: NumberView| #[trigger]
        carries(x, ValueView::Number(n)) && whole(n) is None && is_number(n)
}

proof fn lemma_kind_of_field(v: ValueView)
    ensures
        field_is_text(Some(v)) ==> v.untagged() is String,
        field_is_truth(Some(v)) ==> v.untagged() is Bool,
        field_is_integer(Some(v)) ==> (v.untagged() matches ValueView::Number(n)
            && n.as_i64() is Some),
        field_is_double(Some(v)) ==> (v.untagged() matches ValueView::Number(n)
            && n.as_i64() is None && is_number(n) && n is Float),
{
    if field_is_text(Some(v)) {
        let s = choose|s: Seq<char>| #[trigger] carries(v, ValueView::String(s));
        lemma_carries(v, ValueView::String(s));
    }
    if field_is_truth(Some(v)) {
        let b = choose|b: bool| #[trigger] carries(v, ValueView::Bool(b));
        lemma_carries(v, ValueView::Bool(b));
    }
    if field_is_integer(Some(v)) {
        let n = choose|n: NumberView| #[trigger]
            carries(v, ValueView::Number(n)) && (whole(n) matches Some(i) && i <= i64::MAX);
        lemma_carries(v, ValueView::Number(n));
    }
    if field_is_double(Some(v)) {
        let n = choose|n: NumberView| #[trigger]
            carries(v, ValueView::Number(n)) && whole(n) is None && is_number(n);
        lemma_carries(v, ValueView::Number(n));
    }
}

proof fn lemma_one_kind_compares(a: ValueView, b: ValueView, c: ValueView)
    requires
        (field_is_text(Some(a)) && field_is_text(Some(b)) && field_is_text(Some(c))) || (
        field_is_truth(Some(a)) && field_is_truth(Some(b)) && field_is_truth(Some(c))) || (
        field_is_integer(Some(a)) && field_is_integer(Some(b)) && field_is_integer(Some(c))) || (
        field_is_double(Some(a)) && field_is_double(Some(b)) && field_is_double(Some(c))),
    ensures
        value_order(a, b) is Some,
        crate::ranking::equality_passes(a, b, c),
{
    lemma_kind_of_field(a);
    lemma_kind_of_field(b);
    lemma_kind_of_field(c);
    match (a.untagged(), b.untagged(), c.untagged()) {
        (ValueView::String(x), ValueView::String(y), ValueView::String(z)) => {
            law_texts_compare_like_a_dictionary(x, z);
            law_texts_compare_like_a_dictionary(y, z);
            law_texts_compare_like_a_dictionary(x, y);
        },
        (ValueView::Number(x), ValueView::Number(y), ValueView::Number(z)) => {
            crate::filter_laws::lemma_is_number(x);
            crate::filter_laws::lemma_is_number(y);
            crate::filter_laws::lemma_is_number(z);
        },
        _ => {},
    }
}

proof fn lemma_one_kind(by: OrderView, records: Seq<RecordView>)
    requires
        one_kind(records, by.field),
    ensures
        comparable(by, records.to_multiset()),
{
    let m = records.to_multiset();
    let f = by.field;
    assert forall|p: RecordView| #[trigger] m.contains(p) implies records.contains(p) by {}
    assert forall|p: RecordView, q: RecordView|
        #![trigger m.contains(p), m.contains(q)]
        m.contains(p) && m.contains(q) && p != q && p.field(f) is Some && q.field(
            f,
        ) is Some implies value_order(p.field(f)->Some_0, q.field(f)->Some_0) is Some by {
        assert(records.contains(p) && records.contains(q));
        let i = choose|i: int| 0 <= i < records.len() && records[i] == p;
        let j = choose|j: int| 0 <= j < records.len() && records[j] == q;
        assert(records[i].field(f) == p.field(f) && records[j].field(f) == q.field(f));
        lemma_one_kind_compares(p.field(f)->Some_0, q.field(f)->Some_0, p.field(f)->Some_0);
    }
    assert forall|p: RecordView, q: RecordView, r: RecordView|
        #![trigger m.contains(p), m.contains(q), m.contains(r)]
        m.contains(p) && m.contains(q) && m.contains(r) && p.field(f) is Some && q.field(f) is Some
            && r.field(f) is Some implies crate::ranking::equality_passes(
        p.field(f)->Some_0,
        q.field(f)->Some_0,
        r.field(f)->Some_0,
    ) by {
        assert(records.contains(p) && records.contains(q) && records.contains(r));
        let i = choose|i: int| 0 <= i < records.len() && records[i] == p;
        let j = choose|j: int| 0 <= j < records.len() && records[j] == q;
        let k = choose|k: int| 0 <= k < records.len() && records[k] == r;
        assert(records[i].field(f) == p.field(f) && records[j].field(f) == q.field(f)
            && records[k].field(f) == r.field(f));
        lemma_one_kind_compares(p.field(f)->Some_0, q.field(f)->Some_0, r.field(f)->Some_0);
    }
}

/// How two records compare by a field: by their values, in the direction that was asked
/// for, where these compare; a record with the field comes before one without; and all
/// others are equal. Equal records come in the order of their paths.
pub proof fn law_comparing_records(by: OrderView, a: RecordView, b: RecordView)
    ensures
        match (a.field(by.field), b.field(by.field)) {
            (Some(x), Some(y)) => {
                let first = (by.direction == SortDir::Asc && OpView::Lt(y).accepts(x)) || (
                by.direction == SortDir::Desc && OpView::Gt(y).accepts(x));
                let last = (by.direction == SortDir::Asc && OpView::Gt(y).accepts(x)) || (
                by.direction == SortDir::Desc && OpView::Lt(y).accepts(x));
                &&& by.field_order(a, b) == Order::Less <==> first
                &&& by.field_order(a, b) == Order::Greater <==> last
            },
            (Some(_), None) => by.field_order(a, b) == Order::Less,
            (None, Some(_)) => by.field_order(a, b) == Order::Greater,
            (None, None) => by.field_order(a, b) == Order::Equal,
        },
        by.precedes(a, b) <==> by.field_order(a, b) == Order::Less || (by.field_order(a, b)
            == Order::Equal && comes_before(a.path, b.path, true)),
{
    law_texts_compare_like_a_dictionary(a.path, b.path);
}

/// Whether the record may stand before the other one: it has the field or both have
/// not; where both have it, its value is not behind the other one for the direction;
/// and where the values are equal, or both records lack the field, its path does not
/// come behind the other one.
pub open spec fn may_stand_before(by: OrderView, a: RecordView, b: RecordView) -> bool {
    match (a.field(by.field), b.field(by.field)) {
        (Some(x), Some(y)) => {
            &&& by.direction == SortDir::Asc ==> !OpView::Gt(y).accepts(x)
            &&& by.direction == SortDir::Desc ==> !OpView::Lt(y).accepts(x)
            &&& OpView::Eq(y).accepts(x) ==> !comes_before(b.path, a.path, true)
        },
        (Some(_), None) => true,
        (None, Some(_)) => false,
        (None, None) => !comes_before(b.path, a.path, true),
    }
}

proof fn lemma_may_stand_before(by: OrderView, a: RecordView, b: RecordView)
    requires
        !by.precedes(b, a),
        (a.field(by.field) matches Some(x) && b.field(by.field) is Some) ==> value_order(
            a.field(by.field)->Some_0,
            b.field(by.field)->Some_0,
        ) is Some,
    ensures
        may_stand_before(by, a, b),
{
    law_texts_compare_like_a_dictionary(b.path, a.path);
    if let (Some(x), Some(y)) = (a.field(by.field), b.field(by.field)) {
        crate::filter::law_value_order_flips(x, y);
        assert(crate::filter::same_kind(x, y));
    }
}

/// The answer of an ordered query comes in its order: in the direction that was asked
/// for by the values of the field, equal values by path, and records without the field
/// last. With a limit, no record that was left out belongs before one that was not.
pub proof fn law_ordered_answers_come_in_order(
    q: QueryView,
    by: OrderView,
    scan: ScanView,
    records: Seq<RecordView>,
)
    requires
        q.order == Some(by),
        q.limit != Some(0nat),
        answers(q, scan, Ok(records)),
        one_kind(scan.records, by.field),
    ensures
        forall|i: int, j: int|
            0 <= i < j < records.len() ==> may_stand_before(
                by,
                #[trigger] records[i],
                #[trigger] records[j],
            ),
        forall|x: RecordView, y: RecordView|
            #![trigger scan.records.to_multiset().sub(records.to_multiset()).contains(x), records.contains(y)]
            scan.records.to_multiset().sub(records.to_multiset()).contains(x) && records.contains(y)
                ==> may_stand_before(by, y, x),
{
    let m = scan.records.to_multiset();
    lemma_one_kind(by, scan.records);
    law_comparable_fields_are_ordered(by, m);
    let rel = by.relation();
    assert(in_order(records, rel));
    assert forall|i: int, j: int| 0 <= i < j < records.len() implies may_stand_before(
        by,
        #[trigger] records[i],
        #[trigger] records[j],
    ) by {
        assert(!rel(records[j], records[i]));
        assert(records.to_multiset().contains(records[i])) by {
            assert(records.contains(records[i]));
        }
        assert(records.to_multiset().contains(records[j])) by {
            assert(records.contains(records[j]));
        }
        assert(m.contains(records[i]) && m.contains(records[j]));
        lemma_pair_compares(by, scan.records, records[i], records[j]);
        lemma_may_stand_before(by, records[i], records[j]);
    }
    assert forall|x: RecordView, y: RecordView|
        #![trigger m.sub(records.to_multiset()).contains(x), records.contains(y)]
        m.sub(records.to_multiset()).contains(x) && records.contains(y) implies may_stand_before(
        by,
        y,
        x,
    ) by {
        assert(records.to_multiset().contains(y));
        assert(!rel(x, y));
        assert(m.contains(x) && m.contains(y));
        lemma_pair_compares(by, scan.records, y, x);
        lemma_may_stand_before(by, y, x);
    }
}

proof fn lemma_pair_compares(
    by: OrderView,
    records: Seq<RecordView>,
    a: RecordView,
    b: RecordView,
)
    requires
        one_kind(records, by.field),
        records.to_multiset().contains(a),
        records.to_multiset().contains(b),
    ensures
        a.field(by.field) is Some && b.field(by.field) is Some ==> value_order(
            a.field(by.field)->Some_0,
            b.field(by.field)->Some_0,
        ) is Some,
{
    let f = by.field;
    assert(records.contains(a) && records.contains(b));
    let i = choose|i: int| 0 <= i < records.len() && records[i] == a;
    let j = choose|j: int| 0 <= j < records.len() && records[j] == b;
    assert(records[i].field(f) == a.field(f) && records[j].field(f) == b.field(f));
    if a.field(f) is Some && b.field(f) is Some {
        lemma_one_kind_compares(a.field(f)->Some_0, b.field(f)->Some_0, a.field(f)->Some_0);
    }
}

/// The value, where there is one, compares with nothing: it is neither a text, nor a truth
/// value, nor a number.
pub open spec fn field_is_other(v: Option<ValueView>) -> bool {
    v matches Some(x) ==> !is_plain(x)
}

proof fn lemma_other_field(x: ValueView, y: ValueView)
    requires
        field_is_other(Some(x)),
    ensures
        value_order(x, y) is None,
{
    lemma_core(x);
    match x.untagged() {
        ValueView::String(s) => {
            assert(carries(x, ValueView::String(s)));
        },
        ValueView::Bool(b) => {
            assert(carries(x, ValueView::Bool(b)));
        },
        ValueView::Number(n) => {
            assert(carries(x, ValueView::Number(n)));
        },
        _ => {},
    }
}

/// Where no value of the field compares with another one, the answer comes in the order
/// of the paths, in either direction: first the records with the field, then those
/// without.
pub proof fn law_values_that_do_not_compare_come_by_path(
    q: QueryView,
    by: OrderView,
    scan: ScanView,
    records: Seq<RecordView>,
)
    requires
        q.order == Some(by),
        q.limit != Some(0nat),
        answers(q, scan, Ok(records)),
        forall|i: int|
            0 <= i < scan.records.len() ==> field_is_other(
                (#[trigger] scan.records[i]).field(by.field),
            ),
    ensures
        forall|i: int, j: int|
            0 <= i < j < records.len() && ((#[trigger] records[i]).field(by.field) is Some) == ((
            #[trigger] records[j]).field(by.field) is Some) ==> !comes_before(
                records[j].path,
                records[i].path,
                true,
            ),
{
    let m = scan.records.to_multiset();
    let rel = by.relation();
    let f = by.field;
    assert forall|p: RecordView| #[trigger] m.contains(p) implies field_is_other(p.field(f)) by {
        assert(scan.records.contains(p));
        let i = choose|i: int| 0 <= i < scan.records.len() && scan.records[i] == p;
        assert(field_is_other(scan.records[i].field(f)));
    }
    assert forall|x: RecordView, y: RecordView|
        m.contains(x) && m.contains(y) implies #[trigger] rel(x, y) == ((x.field(f) is Some
        && y.field(f) is None) || ((x.field(f) is Some) == (y.field(f) is Some)
        && crate::text::path_lt(x.path, y.path))) by {
        if x.field(f) is Some && y.field(f) is Some {
            lemma_other_field(x.field(f)->Some_0, y.field(f)->Some_0);
        }
    }
    let paths = crate::ranking::by_path();
    crate::ranking::lemma_by_path_lawful(m);
    assert(crate::sort::lawful(rel, m)) by {
        assert forall|x: RecordView, y: RecordView|
            m.contains(x) && m.contains(y) && #[trigger] rel(x, y) implies !rel(y, x) by {
            assert(paths(x, y) == crate::text::path_lt(x.path, y.path));
            assert(paths(y, x) == crate::text::path_lt(y.path, x.path));
        }
        assert forall|x: RecordView, y: RecordView, z: RecordView|
            m.contains(x) && m.contains(y) && m.contains(z) && !(#[trigger] rel(y, x)) && !(
            #[trigger] rel(z, y)) implies !rel(z, x) by {
            assert(paths(y, x) == crate::text::path_lt(y.path, x.path));
            assert(paths(z, y) == crate::text::path_lt(z.path, y.path));
            assert(paths(z, x) == crate::text::path_lt(z.path, x.path));
        }
    }
    assert(in_order(records, rel));
    assert forall|i: int, j: int|
        0 <= i < j < records.len() && ((#[trigger] records[i]).field(f) is Some) == ((
        #[trigger] records[j]).field(f) is Some) implies !comes_before(
        records[j].path,
        records[i].path,
        true,
    ) by {
        assert(!rel(records[j], records[i]));
        assert(records.contains(records[i]) && records.contains(records[j]));
        assert(records.to_multiset().contains(records[i]));
        assert(records.to_multiset().contains(records[j]));
        assert(m.contains(records[i]) && m.contains(records[j]));
        law_texts_compare_like_a_dictionary(records[j].path, records[i].path);
    }
}

/// Records without the field of the order come last, whatever the values are.
pub proof fn law_records_without_the_field_come_last(
    q: QueryView,
    by: OrderView,
    scan: ScanView,
    records: Seq<RecordView>,
    i: int,
    j: int,
)
    requires
        q.order == Some(by),
        answers(q, scan, Ok(records)) || answers_indexed(q, scan, Ok(records)),
        0 <= i < j < records.len(),
        records[i].field(by.field) is None,
    ensures
        records[j].field(by.field) is None,
{
}

// ---------------------------------------------------------------------------
// Answers from an index
// ---------------------------------------------------------------------------

/// Without an order, an answer from an index comes in the order of the paths, cut off
/// at the limit.
pub proof fn law_indexed_answers_come_by_path(
    q: QueryView,
    scan: ScanView,
    records: Seq<RecordView>,
)
    requires
        q.order is None,
        answers_indexed(q, scan, Ok(records)),
    ensures
        scan.error is None,
        forall|i: int, j: int|
            0 <= i < j < records.len() ==> !comes_before(
                (#[trigger] records[j]).path,
                (#[trigger] records[i]).path,
                true,
            ),
        records.to_multiset().subset_of(scan.records.to_multiset()),
        q.limit is None ==> records.to_multiset() == scan.records.to_multiset(),
        q.limit is Some && q.limit->Some_0 <= scan.records.len() ==> records.len() == q.limit->Some_0,
{
    let m = scan.records.to_multiset();
    crate::ranking::lemma_by_path_lawful(m);
    assert(m.len() == scan.records.len());
    let rel = crate::ranking::by_path();
    assert forall|i: int, j: int| 0 <= i < j < records.len() implies !comes_before(
        (#[trigger] records[j]).path,
        (#[trigger] records[i]).path,
        true,
    ) by {
        assert(!rel(records[j], records[i]));
        law_texts_compare_like_a_dictionary(records[j].path, records[i].path);
    }
    if q.limit is None {
        lemma_full(records.to_multiset(), m);
    }
}

/// Reading the candidates one by one is worth it where there are at least sixteen times
/// as many records.
pub proof fn law_few_candidates_are_read(paths: Seq<Seq<char>>, ix: IndexView)
    ensures
        selective(paths, ix) <==> paths.len() <= ix.records.dom().len() / 16,
{
}

/// An index serves a filter exactly where it has the filter's field, and the filter
/// compares with, or looks for, a text, a truth value or a number.
pub proof fn law_what_an_index_serves(ix: IndexView, f: FilterView)
    ensures
        serviceable(ix, f) <==> ix.fields.contains_key(f.field) && match f.op {
            OpView::Eq(t) => is_plain(t),
            OpView::Contains(t) => is_plain(t),
            OpView::Lt(t) => is_plain(t),
            OpView::Le(t) => is_plain(t),
            OpView::Gt(t) => is_plain(t),
            OpView::Ge(t) => is_plain(t),
            _ => false,
        },
{
    match f.op {
        OpView::Eq(t) => lemma_plain(t),
        OpView::Contains(t) => lemma_plain(t),
        OpView::Lt(t) => lemma_plain(t),
        OpView::Le(t) => lemma_plain(t),
        OpView::Gt(t) => lemma_plain(t),
        OpView::Ge(t) => lemma_plain(t),
        _ => {},
    }
}

pub open spec fn is_plain(t: ValueView) -> bool {
    ||| exists|s: Seq<char>| #[trigger] carries(t, ValueView::String(s))
    ||| exists|b: bool| #[trigger] carries(t, ValueView::Bool(b))
    ||| exists|n: NumberView| #[trigger] carries(t, ValueView::Number(n))
}

proof fn lemma_plain(t: ValueView)
    ensures
        is_plain(t) <==> crate::key::key_of(t) is Some,
{
    lemma_core(t);
    match t.untagged() {
        ValueView::String(s) => {
            assert(carries(t, ValueView::String(s)));
        },
        ValueView::Bool(b) => {
            assert(carries(t, ValueView::Bool(b)));
        },
        ValueView::Number(n) => {
            assert(carries(t, ValueView::Number(n)));
        },
        _ => {},
    }
    if exists|s: Seq<char>| #[trigger] carries(t, ValueView::String(s)) {
        let s = choose|s: Seq<char>| #[trigger] carries(t, ValueView::String(s));
        lemma_carries(t, ValueView::String(s));
    }
    if exists|b: bool| #[trigger] carries(t, ValueView::Bool(b)) {
        let b = choose|b: bool| #[trigger] carries(t, ValueView::Bool(b));
        lemma_carries(t, ValueView::Bool(b));
    }
    if exists|n: NumberView| #[trigger] carries(t, ValueView::Number(n)) {
        let n = choose|n: NumberView| #[trigger] carries(t, ValueView::Number(n));
        lemma_carries(t, ValueView::Number(n));
    }
}

} // verus!
