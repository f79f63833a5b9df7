//! Comparing values, and the filters that queries are made of.

use vstd::prelude::*;

use crate::double::{compare_doubles, double_order};
use crate::record::{Record, RecordView};
use crate::text::{compare_text, int_order, lemma_ranked_total, text_order, Order};
use crate::value::{contents, same_value, Value, ValueView};

verus! {

// ---------------------------------------------------------------------------
// Comparing values
// ---------------------------------------------------------------------------

pub open spec fn bool_rank(b: bool) -> int {
    if b {
        1
    } else {
        0
    }
}

/// How two values compare: integers as integers, other numbers as doubles, texts
/// by character code, truth values with false first. Values of different kinds
/// do not compare.
pub open spec fn value_order(a: ValueView, b: ValueView) -> Option<Order> {
    match (a.untagged(), b.untagged()) {
        (ValueView::Number(x), ValueView::Number(y)) => match (x.as_i64(), y.as_i64()) {
            (Some(i), Some(j)) => Some(int_order(i as int, j as int)),
            _ => double_order(x.double(), y.double()),
        },
        (ValueView::String(x), ValueView::String(y)) => Some(text_order(x, y)),
        (ValueView::Bool(x), ValueView::Bool(y)) => Some(int_order(bool_rank(x), bool_rank(y))),
        _ => None,
    }
}

/// Whether two values both are numbers, both texts or both truth values.
pub open spec fn same_kind(a: ValueView, b: ValueView) -> bool {
    match (a.untagged(), b.untagged()) {
        (ValueView::Number(_), ValueView::Number(_)) => true,
        (ValueView::String(_), ValueView::String(_)) => true,
        (ValueView::Bool(_), ValueView::Bool(_)) => true,
        _ => false,
    }
}

/// Whether two values are equal to a filter: by comparison where they are of one
/// kind, else by structure.
pub open spec fn equal_values(a: ValueView, b: ValueView) -> bool {
    if same_kind(a, b) {
        value_order(a, b) == Some(Order::Equal)
    } else {
        same_value(a, b)
    }
}

/// Whether some item is equal to the target.
pub open spec fn some_equal(items: Seq<ValueView>, target: ValueView) -> bool {
    exists|i: int| 0 <= i < items.len() && equal_values(#[trigger] items[i], target)
}

/// Whether a value is, or as a sequence holds, something equal to the target.
pub open spec fn holds_value(v: ValueView, target: ValueView) -> bool {
    match v.as_sequence() {
        Some(items) => some_equal(items, target),
        None => equal_values(v, target),
    }
}

/// How two values compare.
pub fn compare_values(a: &Value, b: &Value) -> (r: Option<Order>)
    ensures
        r == value_order(a@, b@),
{
    if let (Some(x), Some(y)) = (a.as_i64(), b.as_i64()) {
        return Some(
            if x < y {
                Order::Less
            } else if x == y {
                Order::Equal
            } else {
                Order::Greater
            },
        );
    }
    if let (Some(x), Some(y)) = (a.as_double(), b.as_double()) {
        return compare_doubles(x, y);
    }
    if let (Some(x), Some(y)) = (a.as_str(), b.as_str()) {
        return Some(compare_text(x, y));
    }
    if let (Some(x), Some(y)) = (a.as_bool(), b.as_bool()) {
        return Some(
            if x == y {
                Order::Equal
            } else if y {
                Order::Less
            } else {
                Order::Greater
            },
        );
    }
    None
}

fn of_one_kind(a: &Value, b: &Value) -> (r: bool)
    ensures
        r == same_kind(a@, b@),
{
    match (a.untagged(), b.untagged()) {
        (Value::Number(_), Value::Number(_)) => true,
        (Value::String(_), Value::String(_)) => true,
        (Value::Bool(_), Value::Bool(_)) => true,
        _ => false,
    }
}

/// Whether two values are equal to a filter.
pub fn values_equal(a: &Value, b: &Value) -> (r: bool)
    ensures
        r == equal_values(a@, b@),
{
    if of_one_kind(a, b) {
        matches!(compare_values(a, b), Some(Order::Equal))
    } else {
        a.same(b)
    }
}

/// Whether a value is, or as a sequence holds, something equal to the target.
pub fn value_in_collection(value: &Value, target: &Value) -> (r: bool)
    ensures
        r == holds_value(value@, target@),
{
    if let Some(items) = value.as_sequence() {
        let ghost all = contents(items@);
        for i in 0..items.len()
            invariant
                all == contents(items@),
                value@.as_sequence() == Some(all),
                forall|j: int| 0 <= j < i ==> !equal_values(#[trigger] all[j], target@),
        {
            assert(all[i as int] == items@[i as int]@);
            if values_equal(&items[i], target) {
                return true;
            }
        }
        return false;
    }
    values_equal(value, target)
}

// ---------------------------------------------------------------------------
// Filters
// ---------------------------------------------------------------------------

/// What a filter asks of a field's value.
#[derive(Debug, Clone)]
pub enum FilterOp {
    Eq(Value),
    Ne(Value),
    Lt(Value),
    Le(Value),
    Gt(Value),
    Ge(Value),
    Contains(Value),
    ContainsAny(Vec<Value>),
    ContainsAll(Vec<Value>),
}

/// The content of a [`FilterOp`].
pub enum OpView {
    Eq(ValueView),
    Ne(ValueView),
    Lt(ValueView),
    Le(ValueView),
    Gt(ValueView),
    Ge(ValueView),
    Contains(ValueView),
    ContainsAny(Seq<ValueView>),
    ContainsAll(Seq<ValueView>),
}

impl View for FilterOp {
    type V = OpView;

    open spec fn view(&self) -> OpView {
        match *self {
            FilterOp::Eq(v) => OpView::Eq(v@),
            FilterOp::Ne(v) => OpView::Ne(v@),
            FilterOp::Lt(v) => OpView::Lt(v@),
            FilterOp::Le(v) => OpView::Le(v@),
            FilterOp::Gt(v) => OpView::Gt(v@),
            FilterOp::Ge(v) => OpView::Ge(v@),
            FilterOp::Contains(v) => OpView::Contains(v@),
            FilterOp::ContainsAny(vs) => OpView::ContainsAny(contents(vs@)),
            FilterOp::ContainsAll(vs) => OpView::ContainsAll(contents(vs@)),
        }
    }
}

/// A condition on one field.
#[derive(Debug, Clone)]
pub struct Filter {
    pub field: String,
    pub op: FilterOp,
}

/// The content of a [`Filter`].
pub struct FilterView {
    pub field: Seq<char>,
    pub op: OpView,
}

impl View for Filter {
    type V = FilterView;

    open spec fn view(&self) -> FilterView {
        FilterView { field: self.field@, op: self.op@ }
    }
}

pub open spec fn filter_views(list: Seq<Filter>) -> Seq<FilterView> {
    list.map_values(|f: Filter| f@)
}

/// Whether a value holds at least one of the targets.
pub open spec fn holds_any(v: ValueView, ts: Seq<ValueView>) -> bool {
    exists|i: int| 0 <= i < ts.len() && holds_value(v, #[trigger] ts[i])
}

/// Whether a value holds every one of the targets.
pub open spec fn holds_all(v: ValueView, ts: Seq<ValueView>) -> bool {
    forall|i: int| 0 <= i < ts.len() ==> holds_value(v, #[trigger] ts[i])
}

impl OpView {
    /// Whether a field's value meets the condition.
    pub open spec fn accepts(self, v: ValueView) -> bool {
        match self {
            OpView::Eq(t) => equal_values(v, t),
            OpView::Ne(t) => !equal_values(v, t),
            OpView::Lt(t) => value_order(v, t) == Some(Order::Less),
            OpView::Le(t) => value_order(v, t) == Some(Order::Less) || value_order(v, t) == Some(
                Order::Equal,
            ),
            OpView::Gt(t) => value_order(v, t) == Some(Order::Greater),
            OpView::Ge(t) => value_order(v, t) == Some(Order::Greater) || value_order(v, t) == Some(
                Order::Equal,
            ),
            OpView::Contains(t) => holds_value(v, t),
            OpView::ContainsAny(ts) => holds_any(v, ts),
            OpView::ContainsAll(ts) => holds_all(v, ts),
        }
    }
}

impl FilterView {
    /// Whether a record meets the condition; one without the field never does.
    pub open spec fn accepts(self, record: RecordView) -> bool {
        match record.field(self.field) {
            Some(v) => self.op.accepts(v),
            None => false,
        }
    }
}

/// Whether a record meets every condition.
pub open spec fn all_accept(filters: Seq<FilterView>, record: RecordView) -> bool {
    forall|i: int| 0 <= i < filters.len() ==> (#[trigger] filters[i]).accepts(record)
}

impl FilterOp {
    /// Whether a field's value meets the condition.
    pub fn matches(&self, v: &Value) -> (r: bool)
        ensures
            r == self@.accepts(v@),
    {
        match self {
            FilterOp::Eq(t) => values_equal(v, t),
            FilterOp::Ne(t) => !values_equal(v, t),
            FilterOp::Lt(t) => matches!(compare_values(v, t), Some(Order::Less)),
            FilterOp::Le(t) => matches!(compare_values(v, t), Some(Order::Less | Order::Equal)),
            FilterOp::Gt(t) => matches!(compare_values(v, t), Some(Order::Greater)),
            FilterOp::Ge(t) => matches!(compare_values(v, t), Some(Order::Greater | Order::Equal)),
            FilterOp::Contains(t) => value_in_collection(v, t),
            FilterOp::ContainsAny(ts) => {
                let ghost all = contents(ts@);
                for i in 0..ts.len()
                    invariant
                        self@ == OpView::ContainsAny(all),
                        all == contents(ts@),
                        forall|j: int| 0 <= j < i ==> !holds_value(v@, #[trigger] all[j]),
                {
                    assert(all[i as int] == ts@[i as int]@);
                    if value_in_collection(v, &ts[i]) {
                        return true;
                    }
                }
                false
            },
            FilterOp::ContainsAll(ts) => {
                let ghost all = contents(ts@);
                for i in 0..ts.len()
                    invariant
                        self@ == OpView::ContainsAll(all),
                        all == contents(ts@),
                        forall|j: int| 0 <= j < i ==> holds_value(v@, #[trigger] all[j]),
                {
                    assert(all[i as int] == ts@[i as int]@);
                    if !value_in_collection(v, &ts[i]) {
                        return false;
                    }
                }
                true
            },
        }
    }
}

impl Filter {
    /// Whether a record meets the condition.
    pub fn matches(&self, record: &Record) -> (r: bool)
        ensures
            r == self@.accepts(record@),
    {
        match record.field(&self.field) {
            Some(v) => self.op.matches(v),
            None => false,
        }
    }
}

/// Whether a record meets every condition.
pub fn matches_all(filters: &[Filter], record: &Record) -> (r: bool)
    ensures
        r == all_accept(filter_views(filters@), record@),
{
    let ghost all = filter_views(filters@);
    for i in 0..filters.len()
        invariant
            all == filter_views(filters@),
            forall|j: int| 0 <= j < i ==> (#[trigger] all[j]).accepts(record@),
    {
        assert(all[i as int] == filters@[i as int]@);
        if !filters[i].matches(record) {
            return false;
        }
    }
    true
}

// ---------------------------------------------------------------------------
// Laws
// ---------------------------------------------------------------------------

/// A record without the field meets no condition on it.
pub proof fn law_missing_field_never_matches(f: FilterView, record: RecordView)
    requires
        record.field(f.field) is None,
    ensures
        !f.accepts(record),
{
}

/// Containing any of nothing holds of no record; containing all of nothing holds
/// of every record that has the field.
pub proof fn law_empty_contains(field: Seq<char>, record: RecordView)
    ensures
        !(FilterView { field, op: OpView::ContainsAny(Seq::empty()) }).accepts(record),
        (FilterView { field, op: OpView::ContainsAll(Seq::empty()) }).accepts(record)
            <==> record.field(field) is Some,
{
}

/// On records with the field, `ne` accepts exactly what `eq` does not.
pub proof fn law_ne_is_not_eq(field: Seq<char>, t: ValueView, record: RecordView)
    requires
        record.field(field) is Some,
    ensures
        (FilterView { field, op: OpView::Ne(t) }).accepts(record) <==> !(FilterView {
            field,
            op: OpView::Eq(t),
        }).accepts(record),
{
}

/// Comparing the other way round gives the opposite outcome.
pub proof fn law_value_order_flips(a: ValueView, b: ValueView)
    ensures
        value_order(b, a) == match value_order(a, b) {
            Some(o) => Some(o.flipped()),
            None => None,
        },
{
    if let (ValueView::String(x), ValueView::String(y)) = (a.untagged(), b.untagged()) {
        lemma_ranked_total(x, y, false);
    }
}

/// Two integers compare as integers, however large they are.
pub proof fn law_integers_compare_exactly(i: i64, j: i64)
    ensures
        value_order(crate::value::integer_view(i as int), crate::value::integer_view(j as int))
            == Some(int_order(i as int, j as int)),
{
}

} // verus!
