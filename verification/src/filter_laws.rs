//! What filters accept, stated on how values are built.

use vstd::prelude::*;

use crate::double::double_of;
use crate::double_laws::{
    is_finite_pattern, law_doubles_compare_by_meaning, law_special_patterns, meaning,
};
use crate::filter::{all_accept, FilterOp, FilterView, OpView};
use crate::record::RecordView;
use crate::text_laws::{comes_before, law_texts_compare_like_a_dictionary};
use crate::value::{NumberView, Value, ValueView};
use crate::value_laws::{carries, first_under, lemma_carries, lemma_core, whole};

verus! {

/// A filter on texts: `lt` accepts exactly the texts that come before the target in a
/// dictionary, `gt` those that come behind it, `eq` the same text.
pub proof fn law_texts_are_filtered_like_a_dictionary(
    v: ValueView,
    t: ValueView,
    a: Seq<char>,
    b: Seq<char>,
)
    requires
        carries(v, ValueView::String(a)),
        carries(t, ValueView::String(b)),
    ensures
        OpView::Lt(t).accepts(v) <==> comes_before(a, b, false),
        OpView::Le(t).accepts(v) <==> comes_before(a, b, false) || a == b,
        OpView::Gt(t).accepts(v) <==> comes_before(b, a, false),
        OpView::Ge(t).accepts(v) <==> comes_before(b, a, false) || a == b,
        OpView::Eq(t).accepts(v) <==> a == b,
        OpView::Ne(t).accepts(v) <==> a != b,
{
    lemma_carries(v, ValueView::String(a));
    lemma_carries(t, ValueView::String(b));
    law_texts_compare_like_a_dictionary(a, b);
}

/// A filter on integers of the signed range goes by their exact values.
pub proof fn law_integers_are_filtered_exactly(
    v: ValueView,
    t: ValueView,
    x: NumberView,
    y: NumberView,
    i: int,
    j: int,
)
    requires
        carries(v, ValueView::Number(x)),
        carries(t, ValueView::Number(y)),
        whole(x) == Some(i),
        whole(y) == Some(j),
        i <= i64::MAX,
        j <= i64::MAX,
    ensures
        OpView::Lt(t).accepts(v) <==> i < j,
        OpView::Le(t).accepts(v) <==> i <= j,
        OpView::Gt(t).accepts(v) <==> i > j,
        OpView::Ge(t).accepts(v) <==> i >= j,
        OpView::Eq(t).accepts(v) <==> i == j,
        OpView::Ne(t).accepts(v) <==> i != j,
{
    lemma_carries(v, ValueView::Number(x));
    lemma_carries(t, ValueView::Number(y));
}

/// The pattern of the double that a number is or becomes.
pub open spec fn pattern_of(n: NumberView) -> u64 {
    match n {
        NumberView::PosInt(k) => double_of(k as int) as u64,
        NumberView::NegInt(k) => double_of(k as int) as u64,
        NumberView::Float { bits, .. } => bits,
    }
}

/// A filter on two numbers that are not both integers of the signed range goes by the
/// numbers that their doubles mean. What is no number is equal to nothing.
pub proof fn law_other_numbers_are_filtered_as_doubles(
    v: ValueView,
    t: ValueView,
    x: NumberView,
    y: NumberView,
)
    requires
        carries(v, ValueView::Number(x)),
        carries(t, ValueView::Number(y)),
        !(whole(x) matches Some(i) && i <= i64::MAX) || !(whole(y) matches Some(j) && j <= i64::MAX),
    ensures
        is_finite_pattern(pattern_of(x)) && is_finite_pattern(pattern_of(y)) ==> {
            let p = meaning(pattern_of(x));
            let q = meaning(pattern_of(y));
            &&& OpView::Lt(t).accepts(v) <==> p < q
            &&& OpView::Le(t).accepts(v) <==> p <= q
            &&& OpView::Gt(t).accepts(v) <==> p > q
            &&& OpView::Ge(t).accepts(v) <==> p >= q
            &&& OpView::Eq(t).accepts(v) <==> p == q
            &&& OpView::Ne(t).accepts(v) <==> p != q
        },
        !is_number(x) || !is_number(y) ==> !OpView::Eq(t).accepts(v) && OpView::Ne(t).accepts(v),
        pattern_of(x) == 0x7ff0_0000_0000_0000 && is_finite_pattern(pattern_of(y))
            ==> OpView::Gt(t).accepts(v),
        pattern_of(x) == 0xfff0_0000_0000_0000 && is_finite_pattern(pattern_of(y))
            ==> OpView::Lt(t).accepts(v),
        pattern_of(y) == 0x7ff0_0000_0000_0000 && is_finite_pattern(pattern_of(x))
            ==> OpView::Lt(t).accepts(v),
        pattern_of(y) == 0xfff0_0000_0000_0000 && is_finite_pattern(pattern_of(x))
            ==> OpView::Gt(t).accepts(v),
{
    lemma_carries(v, ValueView::Number(x));
    lemma_carries(t, ValueView::Number(y));
    lemma_is_number(x);
    lemma_is_number(y);
    let p = pattern_of(x);
    let q = pattern_of(y);
    if is_finite_pattern(p) && is_finite_pattern(q) {
        law_doubles_compare_by_meaning(p, q);
    }
    law_special_patterns(p, q);
    law_special_patterns(q, p);
}

/// A filter on truth values: false comes before true.
pub proof fn law_truth_values_are_filtered(v: ValueView, t: ValueView, a: bool, b: bool)
    requires
        carries(v, ValueView::Bool(a)),
        carries(t, ValueView::Bool(b)),
    ensures
        OpView::Lt(t).accepts(v) <==> !a && b,
        OpView::Le(t).accepts(v) <==> !a || b,
        OpView::Gt(t).accepts(v) <==> a && !b,
        OpView::Ge(t).accepts(v) <==> a || !b,
        OpView::Eq(t).accepts(v) <==> a == b,
        OpView::Ne(t).accepts(v) <==> a != b,
{
    lemma_carries(v, ValueView::Bool(a));
    lemma_carries(t, ValueView::Bool(b));
}

/// Whether two values can be told to come before or behind each other: two texts, two
/// truth values, or two numbers that both are numbers.
pub open spec fn can_compare(v: ValueView, t: ValueView) -> bool {
    ||| exists|a: Seq<char>, b: Seq<char>|
        #![trigger carries(v, ValueView::String(a)), carries(t, ValueView::String(b))]
        carries(v, ValueView::String(a)) && carries(t, ValueView::String(b))
    ||| exists|a: bool, b: bool|
        #![trigger carries(v, ValueView::Bool(a)), carries(t, ValueView::Bool(b))]
        carries(v, ValueView::Bool(a)) && carries(t, ValueView::Bool(b))
    ||| exists|x: NumberView, y: NumberView|
        #![trigger carries(v, ValueView::Number(x)), carries(t, ValueView::Number(y))]
        carries(v, ValueView::Number(x)) && carries(t, ValueView::Number(y)) && is_number(x)
            && is_number(y)
}

/// Whether a number is one: a double whose exponent has all bits set and whose
/// fraction is not zero is none.
pub open spec fn is_number(n: NumberView) -> bool {
    n matches NumberView::Float { bits, .. } ==> {
        let magnitude = bits as int % 0x8000_0000_0000_0000;
        !(magnitude / 0x10_0000_0000_0000 == 0x7ff && magnitude % 0x10_0000_0000_0000 != 0)
    }
}

/// Where two values compare, exactly one of `lt`, `eq` and `gt` accepts; `le` is `lt`
/// or `eq`, `ge` is `gt` or `eq`. Where they do not, none of `lt`, `le`, `gt` and `ge`
/// does. `ne` accepts exactly what `eq` does not.
pub proof fn law_one_of_less_equal_greater(v: ValueView, t: ValueView)
    ensures
        ({
            let lt = OpView::Lt(t).accepts(v);
            let eq = OpView::Eq(t).accepts(v);
            let gt = OpView::Gt(t).accepts(v);
            let le = OpView::Le(t).accepts(v);
            let ge = OpView::Ge(t).accepts(v);
            &&& can_compare(v, t) ==> (lt || eq || gt) && !(lt && eq) && !(lt && gt) && !(eq && gt)
            &&& can_compare(v, t) ==> (le <==> lt || eq) && (ge <==> gt || eq)
            &&& !can_compare(v, t) ==> !lt && !le && !gt && !ge
            &&& OpView::Ne(t).accepts(v) <==> !eq
        }),
{
    lemma_core(v);
    lemma_core(t);
    match (v.untagged(), t.untagged()) {
        (ValueView::String(a), ValueView::String(b)) => {
            assert(carries(v, ValueView::String(a)) && carries(t, ValueView::String(b)));
            law_texts_are_filtered_like_a_dictionary(v, t, a, b);
            crate::text_laws::law_dictionary_order_is_total(a, b, false);
        },
        (ValueView::Bool(a), ValueView::Bool(b)) => {
            assert(carries(v, ValueView::Bool(a)) && carries(t, ValueView::Bool(b)));
        },
        (ValueView::Number(x), ValueView::Number(y)) => {
            assert(carries(v, ValueView::Number(x)) && carries(t, ValueView::Number(y)));
            lemma_is_number(x);
            lemma_is_number(y);
            if can_compare(v, t) && !(is_number(x) && is_number(y)) {
                lemma_kinds(v, t);
            }
        },
        _ => {
            if can_compare(v, t) {
                lemma_kinds(v, t);
            }
        },
    }
}

pub proof fn lemma_is_number(n: NumberView)
    ensures
        is_number(n) <==> !crate::double::is_nan(n.double()),
{
    match n {
        NumberView::PosInt(k) => {
            crate::double::lemma_double_of_ordered(k as int, k as int);
        },
        NumberView::NegInt(k) => {
            crate::double::lemma_double_of_ordered(k as int, k as int);
        },
        NumberView::Float { bits, .. } => {
            let m = bits as int % 0x8000_0000_0000_0000;
            assert(m == bits % crate::double::SIGN);
            assert(m / 0x10_0000_0000_0000 == 0x7ff && m % 0x10_0000_0000_0000 != 0 <==> m
                > 0x7ff0_0000_0000_0000) by (nonlinear_arith)
                requires
                    0 <= m < 0x8000_0000_0000_0000,
            ;
        },
    }
}

proof fn lemma_kinds(v: ValueView, t: ValueView)
    requires
        can_compare(v, t),
    ensures
        match (v.untagged(), t.untagged()) {
            (ValueView::String(_), ValueView::String(_)) => true,
            (ValueView::Bool(_), ValueView::Bool(_)) => true,
            (ValueView::Number(x), ValueView::Number(y)) => is_number(x) && is_number(y),
            _ => false,
        },
{
    if exists|a: Seq<char>, b: Seq<char>|
        #![trigger carries(v, ValueView::String(a)), carries(t, ValueView::String(b))]
        carries(v, ValueView::String(a)) && carries(t, ValueView::String(b)) {
        let (a, b) = choose|a: Seq<char>, b: Seq<char>|
            #![trigger carries(v, ValueView::String(a)), carries(t, ValueView::String(b))]
            carries(v, ValueView::String(a)) && carries(t, ValueView::String(b));
        lemma_carries(v, ValueView::String(a));
        lemma_carries(t, ValueView::String(b));
    } else if exists|a: bool, b: bool|
        #![trigger carries(v, ValueView::Bool(a)), carries(t, ValueView::Bool(b))]
        carries(v, ValueView::Bool(a)) && carries(t, ValueView::Bool(b)) {
        let (a, b) = choose|a: bool, b: bool|
            #![trigger carries(v, ValueView::Bool(a)), carries(t, ValueView::Bool(b))]
            carries(v, ValueView::Bool(a)) && carries(t, ValueView::Bool(b));
        lemma_carries(v, ValueView::Bool(a));
        lemma_carries(t, ValueView::Bool(b));
    } else {
        let (x, y) = choose|x: NumberView, y: NumberView|
            #![trigger carries(v, ValueView::Number(x)), carries(t, ValueView::Number(y))]
            carries(v, ValueView::Number(x)) && carries(t, ValueView::Number(y)) && is_number(x)
                && is_number(y);
        lemma_carries(v, ValueView::Number(x));
        lemma_carries(t, ValueView::Number(y));
    }
}

/// What is neither two texts, two truth values nor two numbers is equal where it is the
/// same in structure.
pub proof fn law_other_kinds_are_equal_by_structure(v: ValueView, t: ValueView)
    requires
        !(exists|a: Seq<char>, b: Seq<char>|
            #![trigger carries(v, ValueView::String(a)), carries(t, ValueView::String(b))]
            carries(v, ValueView::String(a)) && carries(t, ValueView::String(b))),
        !(exists|a: bool, b: bool|
            #![trigger carries(v, ValueView::Bool(a)), carries(t, ValueView::Bool(b))]
            carries(v, ValueView::Bool(a)) && carries(t, ValueView::Bool(b))),
        !(exists|x: NumberView, y: NumberView|
            #![trigger carries(v, ValueView::Number(x)), carries(t, ValueView::Number(y))]
            carries(v, ValueView::Number(x)) && carries(t, ValueView::Number(y))),
    ensures
        OpView::Eq(t).accepts(v) <==> crate::value::same_value(v, t),
{
    lemma_core(v);
    lemma_core(t);
    match (v.untagged(), t.untagged()) {
        (ValueView::String(a), ValueView::String(b)) => {
            assert(carries(v, ValueView::String(a)) && carries(t, ValueView::String(b)));
        },
        (ValueView::Bool(a), ValueView::Bool(b)) => {
            assert(carries(v, ValueView::Bool(a)) && carries(t, ValueView::Bool(b)));
        },
        (ValueView::Number(a), ValueView::Number(b)) => {
            assert(carries(v, ValueView::Number(a)) && carries(t, ValueView::Number(b)));
        },
        _ => {},
    }
}

/// Values of different kinds are never equal.
pub proof fn law_kinds_are_never_equal(v: ValueView, t: ValueView)
    ensures
        OpView::Eq(t).accepts(v) ==> {
            &&& v.as_str() is Some <==> t.as_str() is Some
            &&& v.as_bool() is Some <==> t.as_bool() is Some
            &&& v.as_number() is Some <==> t.as_number() is Some
            &&& v.as_sequence() is Some <==> t.as_sequence() is Some
            &&& v.as_mapping() is Some <==> t.as_mapping() is Some
            &&& v.is_null() <==> t.is_null()
        },
{
    if OpView::Eq(t).accepts(v) && !crate::filter::same_kind(v, t) {
        lemma_same_core(v, t);
    }
}

proof fn lemma_same_core(v: ValueView, t: ValueView)
    requires
        crate::value::same_value(v, t),
    ensures
        crate::value::same_value(v.untagged(), t.untagged()),
    decreases v,
{
    if let (ValueView::Tagged(_, x), ValueView::Tagged(_, y)) = (v, t) {
        lemma_same_core(*x, *y);
    }
}

/// `contains` accepts a sequence exactly where it has an item equal to the target, and
/// any other value exactly where that is equal to it.
pub proof fn law_contains_looks_at_items(v: ValueView, t: ValueView)
    ensures
        forall|items: Seq<ValueView>| #[trigger]
            carries(v, ValueView::Sequence(items)) ==> (OpView::Contains(t).accepts(v) <==> exists|
                i: int,
            |
                0 <= i < items.len() && OpView::Eq(t).accepts(#[trigger] items[i])),
        !(exists|items: Seq<ValueView>| #[trigger] carries(v, ValueView::Sequence(items))) ==> (
        OpView::Contains(t).accepts(v) <==> OpView::Eq(t).accepts(v)),
{
    lemma_core(v);
    assert forall|items: Seq<ValueView>| #[trigger]
        carries(v, ValueView::Sequence(items)) implies (OpView::Contains(t).accepts(v) <==> exists|
        i: int,
    |
        0 <= i < items.len() && OpView::Eq(t).accepts(#[trigger] items[i])) by {
        lemma_carries(v, ValueView::Sequence(items));
        if OpView::Contains(t).accepts(v) {
            let i = choose|i: int|
                0 <= i < items.len() && crate::filter::equal_values(#[trigger] items[i], t);
            assert(OpView::Eq(t).accepts(items[i]));
        }
        if exists|i: int| 0 <= i < items.len() && OpView::Eq(t).accepts(#[trigger] items[i]) {
            let i = choose|i: int| 0 <= i < items.len() && OpView::Eq(t).accepts(#[trigger] items[i]);
            assert(crate::filter::equal_values(items[i], t));
        }
    }
    if let ValueView::Sequence(items) = v.untagged() {
        assert(carries(v, ValueView::Sequence(items)));
    }
}

/// Containing any of some targets is containing one of them; containing all of them is
/// containing each.
pub proof fn law_any_and_all(v: ValueView, ts: Seq<ValueView>)
    ensures
        OpView::ContainsAny(ts).accepts(v) <==> exists|i: int|
            0 <= i < ts.len() && OpView::Contains(#[trigger] ts[i]).accepts(v),
        OpView::ContainsAll(ts).accepts(v) <==> forall|i: int|
            0 <= i < ts.len() ==> OpView::Contains(#[trigger] ts[i]).accepts(v),
{
    let any = exists|i: int| 0 <= i < ts.len() && OpView::Contains(#[trigger] ts[i]).accepts(v);
    if OpView::ContainsAny(ts).accepts(v) {
        let i = choose|i: int|
            0 <= i < ts.len() && crate::filter::holds_value(v, #[trigger] ts[i]);
        assert(OpView::Contains(ts[i]).accepts(v));
    }
    if any {
        let i = choose|i: int| 0 <= i < ts.len() && OpView::Contains(#[trigger] ts[i]).accepts(v);
        assert(crate::filter::holds_value(v, ts[i]));
    }
    if OpView::ContainsAll(ts).accepts(v) {
        assert forall|i: int| 0 <= i < ts.len() implies OpView::Contains(#[trigger] ts[i]).accepts(
            v,
        ) by {
            assert(crate::filter::holds_value(v, ts[i]));
        }
    }
    if forall|i: int| 0 <= i < ts.len() ==> OpView::Contains(#[trigger] ts[i]).accepts(v) {
        assert forall|i: int| 0 <= i < ts.len() implies crate::filter::holds_value(
            v,
            #[trigger] ts[i],
        ) by {
            assert(OpView::Contains(ts[i]).accepts(v));
        }
    }
}

/// A record is accepted exactly where its frontmatter is a mapping that has the field,
/// and the value of the first entry for it meets the condition.
pub proof fn law_records_are_filtered_by_their_field(
    field: Seq<char>,
    op: OpView,
    record: RecordView,
)
    ensures
        (FilterView { field, op }).accepts(record) <==> exists|
            entries: Seq<(ValueView, ValueView)>,
            v: ValueView,
        |
            #![trigger first_under(entries, field, v)]
            carries(record.frontmatter(), ValueView::Mapping(entries)) && first_under(
                entries,
                field,
                v,
            ) && op.accepts(v),
{
    let f = FilterView { field, op };
    let front = record.frontmatter();
    if let Some(v) = record.field(field) {
        crate::value_laws::law_lookup_finds_the_first_entry(front, field, v);
        let entries = choose|entries: Seq<(ValueView, ValueView)>| #[trigger]
            carries(front, ValueView::Mapping(entries)) && first_under(entries, field, v);
        assert(first_under(entries, field, v));
    }
    if exists|entries: Seq<(ValueView, ValueView)>, v: ValueView|
        #![trigger first_under(entries, field, v)]
        carries(front, ValueView::Mapping(entries)) && first_under(entries, field, v) && op.accepts(
            v,
        ) {
        let (entries, v) = choose|entries: Seq<(ValueView, ValueView)>, v: ValueView|
            #![trigger first_under(entries, field, v)]
            carries(front, ValueView::Mapping(entries)) && first_under(entries, field, v)
                && op.accepts(v);
        crate::value_laws::law_lookup_finds_the_first_entry(front, field, v);
    }
}

/// Every filter counts: one more filter leaves the records that it accepts as well, and
/// without filters every record is left.
pub proof fn law_every_filter_counts(filters: Seq<FilterView>, f: FilterView, record: RecordView)
    ensures
        all_accept(Seq::empty(), record),
        all_accept(filters.push(f), record) <==> all_accept(filters, record) && f.accepts(record),
{
    let more = filters.push(f);
    if all_accept(more, record) {
        assert(more[filters.len() as int].accepts(record));
        assert forall|i: int| 0 <= i < filters.len() implies (#[trigger] filters[i]).accepts(
            record,
        ) by {
            assert(more[i].accepts(record));
        }
    }
    if all_accept(filters, record) && f.accepts(record) {
        assert forall|i: int| 0 <= i < more.len() implies (#[trigger] more[i]).accepts(record) by {
            if i < filters.len() {
                assert(filters[i].accepts(record));
            }
        }
    }
}

/// Each kind of filter asks what its name says.
pub proof fn law_filters_ask_what_they_say(t: Value, ts: Vec<Value>)
    ensures
        FilterOp::Eq(t)@ == OpView::Eq(t@),
        FilterOp::Ne(t)@ == OpView::Ne(t@),
        FilterOp::Lt(t)@ == OpView::Lt(t@),
        FilterOp::Le(t)@ == OpView::Le(t@),
        FilterOp::Gt(t)@ == OpView::Gt(t@),
        FilterOp::Ge(t)@ == OpView::Ge(t@),
        FilterOp::Contains(t)@ == OpView::Contains(t@),
        FilterOp::ContainsAny(ts)@ matches OpView::ContainsAny(all) && all.len() == ts@.len()
            && forall|i: int| 0 <= i < all.len() ==> #[trigger] all[i] == ts@[i]@,
        FilterOp::ContainsAll(ts)@ matches OpView::ContainsAll(all) && all.len() == ts@.len()
            && forall|i: int| 0 <= i < all.len() ==> #[trigger] all[i] == ts@[i]@,
{
}

} // verus!
