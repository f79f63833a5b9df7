//! Ordering records by a field, and keeping only the first of them.

use vstd::multiset::Multiset;
use vstd::prelude::*;
use vstd::seq_lib::group_to_multiset_ensures;

use crate::double::{lemma_double_of_ordered, rank};
use crate::filter::{compare_values, law_value_order_flips, value_order};
use crate::record::{record_views, Record, RecordView};
use crate::sort::{
    decides, in_order, lawful, lemma_lawful_part, lemma_sorted_by, lemma_sorting_unique,
    merge_sort, reversed, sorted_by, sorting, views_of, Sorter,
};
use crate::text::{
    compare_paths, int_order, lemma_ranked_total, lemma_ranked_transitive, path_lt, text_order,
    Order,
};
use crate::value::{NumberView, ValueView};

verus! {

broadcast use group_to_multiset_ensures;

/// The direction of an order.
#[derive(Debug, Clone, Copy, PartialEq, Eq, Structural)]
pub enum SortDir {
    Asc,
    Desc,
}

/// An order of records by one field.
#[derive(Debug)]
pub struct OrderBy {
    pub field: String,
    pub direction: SortDir,
}

/// The content of an [`OrderBy`].
pub struct OrderView {
    pub field: Seq<char>,
    pub direction: SortDir,
}

impl View for OrderBy {
    type V = OrderView;

    open spec fn view(&self) -> OrderView {
        OrderView { field: self.field@, direction: self.direction }
    }
}

impl OrderView {
    /// How two records compare by the field alone: a record without the field
    /// comes last in either direction, values that do not compare count as equal.
    pub open spec fn field_order(self, a: RecordView, b: RecordView) -> Order {
        match (a.field(self.field), b.field(self.field)) {
            (Some(_), None) => Order::Less,
            (None, Some(_)) => Order::Greater,
            (None, None) => Order::Equal,
            (Some(x), Some(y)) => {
                let order = match value_order(x, y) {
                    Some(o) => o,
                    None => Order::Equal,
                };
                if self.direction == SortDir::Asc {
                    order
                } else {
                    order.flipped()
                }
            },
        }
    }

    /// Whether `a` has to stand before `b`: by the field, and by path where the
    /// field does not tell.
    pub open spec fn precedes(self, a: RecordView, b: RecordView) -> bool {
        match self.field_order(a, b) {
            Order::Less => true,
            Order::Equal => path_lt(a.path, b.path),
            Order::Greater => false,
        }
    }

    pub open spec fn relation(self) -> spec_fn(RecordView, RecordView) -> bool {
        |a: RecordView, b: RecordView| self.precedes(a, b)
    }
}

/// The order of records by path alone.
pub open spec fn by_path() -> spec_fn(RecordView, RecordView) -> bool {
    |a: RecordView, b: RecordView| path_lt(a.path, b.path)
}

/// How two records compare by the field of an order.
pub fn order_records(a: &Record, b: &Record, by: &OrderBy) -> (r: Order)
    ensures
        r == by@.field_order(a@, b@),
{
    match (a.field(&by.field), b.field(&by.field)) {
        (Some(_), None) => Order::Less,
        (None, Some(_)) => Order::Greater,
        (None, None) => Order::Equal,
        (Some(x), Some(y)) => {
            let order = match compare_values(x, y) {
                Some(o) => o,
                None => Order::Equal,
            };
            match by.direction {
                SortDir::Asc => order,
                SortDir::Desc => order.reverse(),
            }
        },
    }
}

impl Sorter<Record> for OrderBy {
    open spec fn relation(&self) -> spec_fn(RecordView, RecordView) -> bool {
        self@.relation()
    }

    fn less(&self, a: &Record, b: &Record) -> (r: bool) {
        match order_records(a, b, self) {
            Order::Less => true,
            Order::Equal => matches!(compare_paths(a.path(), b.path()), Order::Less),
            Order::Greater => false,
        }
    }
}

/// Sorts records by path.
pub struct ByRecordPath;

impl Sorter<Record> for ByRecordPath {
    open spec fn relation(&self) -> spec_fn(RecordView, RecordView) -> bool {
        by_path()
    }

    fn less(&self, a: &Record, b: &Record) -> (r: bool) {
        matches!(compare_paths(a.path(), b.path()), Order::Less)
    }
}

/// Records without the field stand behind all records with it.
pub open spec fn missing_last(records: Seq<RecordView>, field: Seq<char>) -> bool {
    forall|i: int, j: int|
        0 <= i < j < records.len() && (#[trigger] records[i]).field(field) is None ==> (
        #[trigger] records[j]).field(field) is None
}

/// `r` holds the first `k` of `m`: as many as there are up to `k`, in order, and
/// nothing that was left out precedes anything that was kept. Where the relation
/// does not order the records, any `k` of them qualify.
pub open spec fn best(
    r: Seq<RecordView>,
    m: Multiset<RecordView>,
    k: nat,
    rel: spec_fn(RecordView, RecordView) -> bool,
) -> bool {
    &&& r.to_multiset().subset_of(m)
    &&& r.len() == if k < m.len() {
        k
    } else {
        m.len()
    }
    &&& lawful(rel, m) ==> in_order(r, rel) && none_better(r.to_multiset(), m, rel)
}

/// Nothing of `m` outside `kept` precedes anything in `kept`.
pub open spec fn none_better(
    kept: Multiset<RecordView>,
    m: Multiset<RecordView>,
    rel: spec_fn(RecordView, RecordView) -> bool,
) -> bool {
    forall|x: RecordView, y: RecordView|
        m.sub(kept).contains(x) && kept.contains(y) ==> !(#[trigger] rel(x, y))
}

/// The records that have the field, or those that lack it, in their order.
pub open spec fn having(
    records: Seq<RecordView>,
    field: Seq<char>,
    present: bool,
) -> Seq<RecordView>
    decreases records.len(),
{
    if records.len() == 0 {
        Seq::empty()
    } else {
        let before = having(records.drop_last(), field, present);
        if (records.last().field(field) is Some) == present {
            before.push(records.last())
        } else {
            before
        }
    }
}

impl OrderView {
    /// The records as sorting arranges them: those with the field, then those
    /// without it, each part sorted.
    pub open spec fn arranged(self, records: Seq<RecordView>) -> Seq<RecordView> {
        sorted_by(having(records, self.field, true), self.relation()) + sorted_by(
            having(records, self.field, false),
            self.relation(),
        )
    }
}

/// The records with the field and those without it.
fn part_by_field(records: Vec<Record>, field: &str) -> (r: (Vec<Record>, Vec<Record>))
    ensures
        record_views(r.0@) == having(record_views(records@), field@, true),
        record_views(r.1@) == having(record_views(records@), field@, false),
{
    let ghost list = records@;
    let ghost all = record_views(list);
    let ghost n = list.len();
    let mut rest = reversed(records);
    let mut with: Vec<Record> = Vec::new();
    let mut lacking: Vec<Record> = Vec::new();
    proof {
        assert(list.skip(0) =~= list);
        assert(record_views(with@) =~= Seq::<RecordView>::empty());
        assert(record_views(lacking@) =~= Seq::<RecordView>::empty());
    }
    while rest.len() > 0
        invariant
            list.len() == n,
            all == record_views(list),
            rest@.len() <= n,
            rest@ == list.skip(n - rest@.len()).reverse(),
            record_views(with@) == having(all.take(n - rest@.len()), field@, true),
            record_views(lacking@) == having(all.take(n - rest@.len()), field@, false),
        decreases rest@.len(),
    {
        let ghost i = n - rest@.len();
        let ghost was = rest@;
        let ghost w = with@;
        let ghost l = lacking@;
        let record = rest.pop().unwrap();
        proof {
            assert(was.last() == list[i]);
            assert(all[i] == record@);
            assert(all.take(i + 1).drop_last() =~= all.take(i));
            assert(rest@ =~= list.skip(i + 1).reverse());
        }
        if record.field(field).is_some() {
            with.push(record);
            assert(record_views(with@) =~= record_views(w).push(record@));
        } else {
            lacking.push(record);
            assert(record_views(lacking@) =~= record_views(l).push(record@));
        }
    }
    assert(all.take(n as int) =~= all);
    (with, lacking)
}

proof fn lemma_having(records: Seq<RecordView>, field: Seq<char>)
    ensures
        having(records, field, true).to_multiset().add(
            having(records, field, false).to_multiset(),
        ) == records.to_multiset(),
        forall|i: int|
            0 <= i < having(records, field, true).len() ==> (#[trigger] having(
                records,
                field,
                true,
            )[i]).field(field) is Some,
        forall|i: int|
            0 <= i < having(records, field, false).len() ==> (#[trigger] having(
                records,
                field,
                false,
            )[i]).field(field) is None,
    decreases records.len(),
{
    let a = having(records, field, true).to_multiset();
    let b = having(records, field, false).to_multiset();
    if records.len() > 0 {
        let front = records.drop_last();
        lemma_having(front, field);
        assert(records =~= front.push(records.last()));
        assert(a.add(b) =~= front.to_multiset().insert(records.last()));
    } else {
        assert(records =~= Seq::<RecordView>::empty());
        assert(a.add(b) =~= records.to_multiset());
    }
}

proof fn lemma_members<V>(s: Seq<V>, t: Seq<V>)
    requires
        s.to_multiset() == t.to_multiset(),
    ensures
        s.len() == t.len(),
        forall|i: int| 0 <= i < s.len() ==> t.contains(#[trigger] s[i]),
{
    assert(s.len() == s.to_multiset().len());
    assert forall|i: int| 0 <= i < s.len() implies t.contains(#[trigger] s[i]) by {
        vstd::seq_lib::to_multiset_contains(s, s[i]);
        assert(s.contains(s[i]));
        vstd::seq_lib::to_multiset_contains(t, s[i]);
    }
}

/// The arranged list holds the same records, in order wherever the relation orders
/// them, and with the records that lack the field last in any case.
pub proof fn lemma_arranged(by: OrderView, records: Seq<RecordView>)
    ensures
        sorting(by.arranged(records), records, by.relation()),
        missing_last(by.arranged(records), by.field),
        by.arranged(records).len() == records.len(),
{
    let rel = by.relation();
    let a = having(records, by.field, true);
    let b = having(records, by.field, false);
    let x = sorted_by(a, rel);
    let y = sorted_by(b, rel);
    let r = by.arranged(records);
    lemma_having(records, by.field);
    lemma_sorted_by(a, rel);
    lemma_sorted_by(b, rel);
    lemma_members(x, a);
    lemma_members(y, b);
    assert forall|i: int| 0 <= i < x.len() implies (#[trigger] x[i]).field(by.field) is Some by {
        assert(a.contains(x[i]));
    }
    assert forall|i: int| 0 <= i < y.len() implies (#[trigger] y[i]).field(by.field) is None by {
        assert(b.contains(y[i]));
    }
    vstd::seq_lib::lemma_multiset_commutative(x, y);
    assert(r.to_multiset() =~= records.to_multiset());
    if lawful(rel, records.to_multiset()) {
        lemma_lawful_part(rel, records.to_multiset(), a.to_multiset());
        lemma_lawful_part(rel, records.to_multiset(), b.to_multiset());
        assert forall|i: int, j: int| 0 <= i < j < r.len() implies !rel(
            #[trigger] r[j],
            #[trigger] r[i],
        ) by {
            if j < x.len() {
                assert(!rel(x[j], x[i]));
            } else if i >= x.len() {
                assert(!rel(y[j - x.len()], y[i - x.len()]));
            } else {
                assert(x[i].field(by.field) is Some);
                assert(y[j - x.len()].field(by.field) is None);
            }
        }
    }
    assert forall|i: int, j: int|
        0 <= i < j < r.len() && (#[trigger] r[i]).field(by.field) is None implies (
    #[trigger] r[j]).field(by.field) is None by {
        if i < x.len() {
            assert(x[i].field(by.field) is Some);
        }
        assert(y[j - x.len()].field(by.field) is None);
    }
    assert(r.len() == r.to_multiset().len());
    assert(records.len() == records.to_multiset().len());
}

/// Sorts records: in order wherever the relation orders them, and with the
/// records that lack the field last in any case.
pub fn sort_records(records: Vec<Record>, by: &OrderBy) -> (r: Vec<Record>)
    ensures
        record_views(r@) == by@.arranged(record_views(records@)),
        sorting(record_views(r@), record_views(records@), by@.relation()),
        missing_last(record_views(r@), by@.field),
        r@.len() == records@.len(),
{
    let ghost all = record_views(records@);
    let (with, lacking) = part_by_field(records, &by.field);
    let mut out = merge_sort(with, by);
    let mut tail = merge_sort(lacking, by);
    let ghost x = record_views(out@);
    let ghost y = record_views(tail@);
    proof {
        assert(views_of(out@) == x && views_of(tail@) == y);
        assert(views_of(with@) == record_views(with@));
        assert(views_of(lacking@) == record_views(lacking@));
        lemma_arranged(by@, all);
    }
    out.append(&mut tail);
    assert(record_views(out@) =~= x + y);
    out
}

/// The first `k` of an ordered list are the best `k`.
pub proof fn lemma_take_best(
    s: Seq<RecordView>,
    m: Multiset<RecordView>,
    k: nat,
    rel: spec_fn(RecordView, RecordView) -> bool,
)
    requires
        s.to_multiset() == m,
        lawful(rel, m) ==> in_order(s, rel),
    ensures
        best(
            s.take(
                if k < s.len() {
                    k as int
                } else {
                    s.len() as int
                },
            ),
            m,
            k,
            rel,
        ),
{
    let n = if k < s.len() {
        k as int
    } else {
        s.len() as int
    };
    let r = s.take(n);
    let t = s.skip(n);
    assert(s =~= r + t);
    vstd::seq_lib::lemma_multiset_commutative(r, t);
    assert(s.len() == m.len());
    assert(m.sub(r.to_multiset()) =~= t.to_multiset());
    if lawful(rel, m) {
        assert forall|i: int, j: int| 0 <= i < j < r.len() implies !rel(
            #[trigger] r[j],
            #[trigger] r[i],
        ) by {
            assert(!rel(s[j], s[i]));
        }
        assert forall|x: RecordView, y: RecordView|
            m.sub(r.to_multiset()).contains(x) && r.to_multiset().contains(y) implies !(
        #[trigger] rel(x, y)) by {
            vstd::seq_lib::to_multiset_contains(t, x);
            vstd::seq_lib::to_multiset_contains(r, y);
            let i = choose|i: int| 0 <= i < t.len() && t[i] == x;
            let j = choose|j: int| 0 <= j < r.len() && r[j] == y;
            assert(s[n + i] == x && s[j] == y);
            assert(!rel(s[n + i], s[j]));
        }
    }
}

/// Choosing the best in two rounds is choosing the best at once: the best of the
/// best of one part together with another part are the best of both parts.
pub proof fn law_best_of_best(
    r1: Seq<RecordView>,
    m1: Multiset<RecordView>,
    r2: Seq<RecordView>,
    m2: Multiset<RecordView>,
    k: nat,
    rel: spec_fn(RecordView, RecordView) -> bool,
)
    requires
        best(r1, m1, k, rel),
        best(r2, r1.to_multiset().add(m2), k, rel),
    ensures
        best(r2, m1.add(m2), k, rel),
{
    let a = r1.to_multiset();
    let b = r2.to_multiset();
    let m = m1.add(m2);
    let n = a.add(m2);
    assert(r1.len() == a.len());
    assert(r2.len() == b.len());
    assert(b.subset_of(m)) by {
        assert forall|x: RecordView| b.count(x) <= #[trigger] m.count(x) by {
            assert(b.count(x) <= n.count(x));
            assert(a.count(x) <= m1.count(x));
        }
    }
    if lawful(rel, m) {
        lemma_lawful_part(rel, m, m1);
        assert(n.subset_of(m));
        lemma_lawful_part(rel, m, n);
        assert forall|x: RecordView, y: RecordView|
            m.sub(b).contains(x) && b.contains(y) implies !(#[trigger] rel(x, y)) by {
            if n.sub(b).contains(x) {
            } else {
                assert(n.count(x) == b.count(x)) by {
                    assert(b.count(x) <= n.count(x));
                }
                assert(m1.sub(a).contains(x));
                if a.contains(y) {
                } else {
                    assert(a.len() < m1.len()) by {
                        if a.len() == m1.len() {
                            lemma_subset_full(a, m1);
                        }
                    }
                    assert(a.len() == k && b.len() == k);
                    if a.subset_of(b) {
                        lemma_subset_full(a, b);
                        assert(false);
                    }
                    let z = choose|z: RecordView| a.count(z) > b.count(z);
                    assert(n.sub(b).contains(z));
                    assert(a.contains(z));
                    assert(!rel(z, y));
                    assert(!rel(x, z));
                    assert(m.contains(x) && m.contains(y) && m.contains(z));
                }
            }
        }
    }
}

/// A part that is as large as the whole is the whole.
proof fn lemma_subset_full(a: Multiset<RecordView>, b: Multiset<RecordView>)
    requires
        a.subset_of(b),
        a.len() == b.len(),
    ensures
        a == b,
{
    let c = b.sub(a);
    assert(a.add(c) =~= b);
    assert(c.len() == 0);
    assert(c =~= Multiset::empty());
}

/// Where the relation decides between any two records, there is only one list of
/// the best `k`.
pub proof fn law_best_unique(
    r: Seq<RecordView>,
    s: Seq<RecordView>,
    m: Multiset<RecordView>,
    k: nat,
    rel: spec_fn(RecordView, RecordView) -> bool,
)
    requires
        best(r, m, k, rel),
        best(s, m, k, rel),
        lawful(rel, m),
        decides(rel, m),
    ensures
        r == s,
{
    let a = r.to_multiset();
    let b = s.to_multiset();
    assert(r.len() == a.len());
    assert(s.len() == b.len());
    if a != b {
        if a.subset_of(b) {
            lemma_subset_full(a, b);
        }
        if b.subset_of(a) {
            lemma_subset_full(b, a);
        }
        let x = choose|x: RecordView| a.count(x) > b.count(x);
        let y = choose|y: RecordView| b.count(y) > a.count(y);
        assert(a.count(x) <= m.count(x));
        assert(b.count(y) <= m.count(y));
        assert(m.sub(b).contains(x));
        assert(m.sub(a).contains(y));
        assert(!rel(x, y));
        assert(!rel(y, x));
        assert(m.contains(x) && m.contains(y));
    }
    assert forall|x: RecordView, y: RecordView|
        #![trigger a.contains(x), a.contains(y)]
        a.contains(x) && a.contains(y) && x != y implies rel(x, y) || rel(y, x) by {
        assert(m.contains(x) && m.contains(y));
    }
    lemma_sorting_unique(r, s, rel);
}

// ---------------------------------------------------------------------------
// Keeping the first k
// ---------------------------------------------------------------------------

/// The first `k` of the records, in order.
pub fn topk_trim(records: Vec<Record>, by: &OrderBy, k: usize) -> (r: Vec<Record>)
    ensures
        record_views(r@) == by@.arranged(record_views(records@)).take(
            if k < records@.len() {
                k as int
            } else {
                records@.len() as int
            },
        ),
        best(record_views(r@), record_views(records@).to_multiset(), k as nat, by@.relation()),
        missing_last(record_views(r@), by@.field),
{
    let ghost m = record_views(records@).to_multiset();
    let mut out = sort_records(records, by);
    let ghost s = record_views(out@);
    proof {
        lemma_take_best(s, m, k as nat, by@.relation());
    }
    if out.len() > k {
        out.truncate(k);
        assert(record_views(out@) =~= s.take(k as int));
        assert(missing_last(s.take(k as int), by@.field));
    } else {
        assert(s.take(s.len() as int) =~= s);
    }
    out
}

/// Collects records and keeps no more than about twice `k` of them, such that the
/// first `k` of all records that were added can be told in the end.
pub struct TopK {
    by: OrderBy,
    k: usize,
    records: Vec<Record>,
    /// How many of the records were left by the last trim.
    trimmed: Ghost<nat>,
    /// The records that were added before the last trim.
    earlier: Ghost<Multiset<RecordView>>,
}

impl TopK {
    #[verifier::type_invariant]
    spec fn accounted(&self) -> bool {
        &&& self.trimmed@ <= self.records@.len()
        &&& best(
            record_views(self.records@).take(self.trimmed@ as int),
            self.earlier@,
            self.k as nat,
            self.by@.relation(),
        )
    }

    /// All records that were added.
    pub closed spec fn added(&self) -> Multiset<RecordView> {
        self.earlier@.add(record_views(self.records@).skip(self.trimmed@ as int).to_multiset())
    }

    /// The records that are held at present.
    pub closed spec fn held(&self) -> Seq<RecordView> {
        record_views(self.records@)
    }

    pub closed spec fn order(&self) -> OrderView {
        self.by@
    }

    pub closed spec fn limit(&self) -> nat {
        self.k as nat
    }

    /// Starts with no records.
    pub fn new(by: OrderBy, k: usize) -> (r: TopK)
        ensures
            r.added() == Multiset::<RecordView>::empty(),
            r.held() == Seq::<RecordView>::empty(),
            r.order() == by@,
            r.limit() == k,
    {
        let records: Vec<Record> = Vec::new();
        proof {
            let none = record_views(records@);
            assert(none =~= Seq::<RecordView>::empty());
            assert(none.take(0) =~= none);
            assert(none.skip(0) =~= none);
            assert(none.to_multiset() =~= Multiset::empty());
        }
        let r = TopK {
            by,
            k,
            records,
            trimmed: Ghost(0),
            earlier: Ghost(Multiset::empty()),
        };
        assert(r.added() =~= Multiset::empty());
        assert(r.held() =~= Seq::<RecordView>::empty());
        r
    }

    proof fn lemma_trimmed(&self, r: Seq<RecordView>)
        requires
            self.accounted(),
            best(r, record_views(self.records@).to_multiset(), self.k as nat, self.by@.relation()),
        ensures
            best(r, self.added(), self.k as nat, self.by@.relation()),
    {
        let all = record_views(self.records@);
        let a = all.take(self.trimmed@ as int);
        let b = all.skip(self.trimmed@ as int);
        assert(all =~= a + b);
        vstd::seq_lib::lemma_multiset_commutative(a, b);
        law_best_of_best(
            a,
            self.earlier@,
            r,
            b.to_multiset(),
            self.k as nat,
            self.by@.relation(),
        );
    }

    /// Adds a record. No more than twice `k` records are held afterwards.
    pub fn add(self, record: Record) -> (r: TopK)
        ensures
            r.added() == self.added().insert(record@),
            r.held().len() <= 2 * r.limit(),
            r.order() == self.order(),
            r.limit() == self.limit(),
    {
        proof {
            use_type_invariant(&self);
        }
        let ghost start = self.added();
        let ghost before = self.records@;
        let ghost cut = self.trimmed@ as int;
        let TopK { by, k, mut records, trimmed, earlier } = self;
        records.push(record);
        proof {
            let now = record_views(records@);
            let old_views = record_views(before);
            assert(now =~= old_views.push(record@));
            assert(now.take(cut) =~= old_views.take(cut));
            assert(now.skip(cut) =~= old_views.skip(cut).push(record@));
        }
        let grown = TopK { by, k, records, trimmed, earlier };
        assert(grown.added() =~= start.insert(record@));
        if grown.records.len() / 2 >= grown.k {
            grown.trim()
        } else {
            grown
        }
    }

    /// Lets go of all held records but the first `k`, which are then in order. What
    /// was added stays accounted for.
    fn trim(self) -> (r: TopK)
        ensures
            best(
                r.held(),
                self.held().to_multiset(),
                self.limit(),
                self.order().relation(),
            ),
            missing_last(r.held(), self.order().field),
            r.added() == self.added(),
            r.order() == self.order(),
            r.limit() == self.limit(),
    {
        proof {
            use_type_invariant(&self);
        }
        let ghost start = self;
        let TopK { by, k, records, trimmed, earlier } = self;
        let kept = topk_trim(records, &by, k);
        proof {
            start.lemma_trimmed(record_views(kept@));
            assert(record_views(kept@).take(kept@.len() as int) =~= record_views(kept@));
            assert(record_views(kept@).skip(kept@.len() as int) =~= Seq::<RecordView>::empty());
        }
        let r = TopK {
            by,
            k,
            records: kept,
            trimmed: Ghost(kept@.len()),
            earlier: Ghost(start.added()),
        };
        assert(r.added() =~= start.added());
        r
    }

    /// The first `k` of all records that were added, in order.
    pub fn finish(self) -> (r: Vec<Record>)
        ensures
            best(record_views(r@), self.added(), self.limit(), self.order().relation()),
            missing_last(record_views(r@), self.order().field),
    {
        proof {
            use_type_invariant(&self);
        }
        let ghost start = self;
        let TopK { by, k, records, trimmed, earlier } = self;
        let r = topk_trim(records, &by, k);
        proof {
            start.lemma_trimmed(record_views(r@));
        }
        r
    }
}

// ---------------------------------------------------------------------------
// When records are ordered
// ---------------------------------------------------------------------------

/// Whether the values of the field compare: those of any two different records do,
/// and values that are equal to the same value are equal to each other. The latter
/// fails only for different integers that are too large to tell apart as doubles,
/// beside a double that is equal to both.
pub open spec fn comparable(by: OrderView, m: Multiset<RecordView>) -> bool {
    &&& forall|p: RecordView, q: RecordView|
        #![trigger m.contains(p), m.contains(q)]
        m.contains(p) && m.contains(q) && p != q && p.field(by.field) is Some && q.field(
            by.field,
        ) is Some ==> value_order(p.field(by.field)->Some_0, q.field(by.field)->Some_0) is Some
    &&& forall|p: RecordView, q: RecordView, r: RecordView|
        #![trigger m.contains(p), m.contains(q), m.contains(r)]
        m.contains(p) && m.contains(q) && m.contains(r) && p.field(by.field) is Some && q.field(
            by.field,
        ) is Some && r.field(by.field) is Some ==> equality_passes(
            p.field(by.field)->Some_0,
            q.field(by.field)->Some_0,
            r.field(by.field)->Some_0,
        )
}

/// Where `a` and `b` are both equal to `c`, they are equal to each other.
pub open spec fn equality_passes(a: ValueView, b: ValueView, c: ValueView) -> bool {
    value_order(a, c) == Some(Order::Equal) && value_order(b, c) == Some(Order::Equal)
        ==> value_order(a, b) == Some(Order::Equal)
}

/// How the order of two numbers relates to the ranks of their doubles.
proof fn lemma_number_order(x: NumberView, y: NumberView)
    ensures
        ({
            let a = ValueView::Number(x);
            let b = ValueView::Number(y);
            let p = rank(x.double());
            let q = rank(y.double());
            &&& value_order(a, b) == Some(Order::Less) ==> p <= q
            &&& value_order(a, b) == Some(Order::Equal) ==> p == q
            &&& value_order(a, b) == Some(Order::Greater) ==> p >= q
            &&& value_order(a, b) is Some && p < q ==> value_order(a, b) == Some(Order::Less)
            &&& value_order(a, b) is Some && p > q ==> value_order(a, b) == Some(Order::Greater)
            &&& value_order(a, b) is Some && (x.as_i64() is None || y.as_i64() is None)
                ==> value_order(a, b) == Some(int_order(p, q))
        }),
{
    if let (Some(i), Some(j)) = (x.as_i64(), y.as_i64()) {
        if i <= j {
            lemma_double_of_ordered(i as int, j as int);
        } else {
            lemma_double_of_ordered(j as int, i as int);
        }
    }
}

/// Among three values that compare pairwise and between which equality passes, not
/// being greater is transitive, and equal values compare alike.
proof fn lemma_values_transitive(a: ValueView, b: ValueView, c: ValueView)
    requires
        value_order(a, b) is Some,
        value_order(b, c) is Some,
        value_order(a, c) is Some,
        equality_passes(a, b, c),
        equality_passes(a, c, b),
        equality_passes(b, c, a),
    ensures
        value_order(a, b) != Some(Order::Greater) && value_order(b, c) != Some(Order::Greater)
            ==> value_order(a, c) != Some(Order::Greater),
        value_order(a, b) == Some(Order::Equal) ==> value_order(a, c) == value_order(b, c),
        value_order(b, c) == Some(Order::Equal) ==> value_order(a, c) == value_order(a, b),
{
    law_value_order_flips(a, b);
    law_value_order_flips(b, c);
    law_value_order_flips(a, c);
    match (a.untagged(), b.untagged(), c.untagged()) {
        (ValueView::String(x), ValueView::String(y), ValueView::String(z)) => {
            lemma_ranked_total(x, y, false);
            lemma_ranked_total(y, z, false);
            lemma_ranked_total(x, z, false);
            if text_order(x, y) is Less && text_order(y, z) is Less {
                lemma_ranked_transitive(x, y, z, false);
            }
        },
        (ValueView::Number(x), ValueView::Number(y), ValueView::Number(z)) => {
            lemma_number_order(x, y);
            lemma_number_order(y, z);
            lemma_number_order(x, z);
        },
        _ => {},
    }
}

/// No value is less or greater than itself.
proof fn lemma_value_with_itself(v: ValueView)
    ensures
        value_order(v, v) is None || value_order(v, v) == Some(Order::Equal),
{
    if let ValueView::String(s) = v.untagged() {
        lemma_ranked_total(s, s, false);
    }
}

proof fn lemma_precedes_lawful(
    by: OrderView,
    m: Multiset<RecordView>,
    x: RecordView,
    y: RecordView,
    z: RecordView,
)
    requires
        comparable(by, m),
        m.contains(x),
        m.contains(y),
        m.contains(z),
    ensures
        by.precedes(x, y) ==> !by.precedes(y, x),
        !by.precedes(y, x) && !by.precedes(z, y) ==> !by.precedes(z, x),
{
    let f = by.field;
    lemma_ranked_total(x.path, y.path, true);
    lemma_ranked_total(y.path, z.path, true);
    lemma_ranked_total(x.path, z.path, true);
    if path_lt(x.path, y.path) && path_lt(y.path, z.path) {
        lemma_ranked_transitive(x.path, y.path, z.path, true);
    }
    if path_lt(z.path, y.path) && path_lt(y.path, x.path) {
        lemma_ranked_transitive(z.path, y.path, x.path, true);
    }
    if x.field(f) is Some {
        let a = x.field(f)->Some_0;
        lemma_value_with_itself(a);
        if y.field(f) is Some {
            let b = y.field(f)->Some_0;
            law_value_order_flips(a, b);
            if z.field(f) is Some && x != y && y != z && x != z {
                let c = z.field(f)->Some_0;
                law_value_order_flips(b, c);
                law_value_order_flips(a, c);
                assert(equality_passes(a, b, c) && equality_passes(a, c, b));
                assert(equality_passes(b, a, c) && equality_passes(b, c, a));
                assert(equality_passes(c, a, b) && equality_passes(c, b, a));
                lemma_values_transitive(a, b, c);
                lemma_values_transitive(c, b, a);
                lemma_values_transitive(b, a, c);
                lemma_values_transitive(b, c, a);
                lemma_values_transitive(a, c, b);
                lemma_values_transitive(c, a, b);
            }
        }
    }
}

/// Records are ordered wherever the values of the field compare.
pub proof fn law_comparable_fields_are_ordered(by: OrderView, m: Multiset<RecordView>)
    requires
        comparable(by, m),
    ensures
        lawful(by.relation(), m),
{
    let rel = by.relation();
    assert forall|x: RecordView, y: RecordView|
        m.contains(x) && m.contains(y) && #[trigger] rel(x, y) implies !rel(y, x) by {
        lemma_precedes_lawful(by, m, x, y, x);
    }
    assert forall|x: RecordView, y: RecordView, z: RecordView|
        m.contains(x) && m.contains(y) && m.contains(z) && !(#[trigger] rel(y, x)) && !(
        #[trigger] rel(z, y)) implies !rel(z, x) by {
        lemma_precedes_lawful(by, m, x, y, z);
    }
}

/// Records with different paths are never tied, so that there is one result.
pub proof fn law_distinct_paths_decide(by: OrderView, m: Multiset<RecordView>)
    requires
        forall|p: RecordView, q: RecordView|
            #![trigger m.contains(p), m.contains(q)]
            m.contains(p) && m.contains(q) && p != q ==> p.path != q.path,
    ensures
        decides(by.relation(), m),
        decides(by_path(), m),
{
    let rel = by.relation();
    let paths = by_path();
    assert forall|x: RecordView, y: RecordView|
        #![trigger m.contains(x), m.contains(y)]
        m.contains(x) && m.contains(y) && x != y implies (rel(x, y) || rel(y, x)) && (paths(x, y)
        || paths(y, x)) by {
        lemma_ranked_total(x.path, y.path, true);
        if x.field(by.field) is Some && y.field(by.field) is Some {
            law_value_order_flips(x.field(by.field)->Some_0, y.field(by.field)->Some_0);
        }
    }
}

/// Paths order all records.
pub proof fn lemma_by_path_lawful(m: Multiset<RecordView>)
    ensures
        lawful(by_path(), m),
{
    let rel = by_path();
    assert forall|x: RecordView, y: RecordView|
        m.contains(x) && m.contains(y) && #[trigger] rel(x, y) implies !rel(y, x) by {
        lemma_ranked_total(x.path, y.path, true);
    }
    assert forall|x: RecordView, y: RecordView, z: RecordView|
        m.contains(x) && m.contains(y) && m.contains(z) && !(#[trigger] rel(y, x)) && !(
        #[trigger] rel(z, y)) implies !rel(z, x) by {
        lemma_ranked_total(x.path, y.path, true);
        lemma_ranked_total(y.path, z.path, true);
        lemma_ranked_total(x.path, z.path, true);
        if path_lt(x.path, y.path) && path_lt(y.path, z.path) {
            lemma_ranked_transitive(x.path, y.path, z.path, true);
        }
    }
}

} // verus!
