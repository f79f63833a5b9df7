//! What a value is read as: laws on access to values, stated on how values are built.

use vstd::prelude::*;

use crate::double_laws::{
    fraction_field, is_finite_pattern, law_doubles_compare_by_meaning, law_special_patterns,
    meaning,
};
use crate::value::{
    integer_view, lookup_from, same_value, IntoValue, NumberView, Value, ValueView,
};

verus! {

/// `v` is `core`, inside any number of tags.
pub open spec fn carries(v: ValueView, core: ValueView) -> bool
    decreases v,
{
    v == core || match v {
        ValueView::Tagged(_, inner) => carries(*inner, core),
        _ => false,
    }
}

/// The integer that a number is, where it is one.
pub open spec fn whole(n: NumberView) -> Option<int> {
    match n {
        NumberView::PosInt(k) => Some(k as int),
        NumberView::NegInt(k) => Some(k as int),
        NumberView::Float { .. } => None,
    }
}

pub proof fn lemma_carries(v: ValueView, core: ValueView)
    requires
        !(core is Tagged),
    ensures
        carries(v, core) <==> v.untagged() == core,
    decreases v,
{
    if let ValueView::Tagged(_, inner) = v {
        lemma_carries(*inner, core);
    }
}

/// Every value carries exactly one value that is not tagged.
pub proof fn lemma_core(v: ValueView)
    ensures
        !(v.untagged() is Tagged),
        carries(v, v.untagged()),
    decreases v,
{
    if let ValueView::Tagged(_, inner) = v {
        lemma_core(*inner);
    }
}

/// A value is read as a text, a truth value, a number, a sequence, a mapping or null
/// exactly where it is one inside its tags, and then as just that one.
pub proof fn law_values_are_read_as_they_are(v: ValueView)
    ensures
        v.is_null() <==> carries(v, ValueView::Null),
        forall|b: bool| v.as_bool() == Some(b) <==> #[trigger] carries(v, ValueView::Bool(b)),
        forall|s: Seq<char>| v.as_str() == Some(s) <==> #[trigger] carries(v, ValueView::String(s)),
        forall|n: NumberView|
            v.as_number() == Some(n) <==> #[trigger] carries(v, ValueView::Number(n)),
        forall|items: Seq<ValueView>|
            v.as_sequence() == Some(items) <==> #[trigger] carries(v, ValueView::Sequence(items)),
        forall|entries: Seq<(ValueView, ValueView)>|
            v.as_mapping() == Some(entries) <==> #[trigger] carries(v, ValueView::Mapping(entries)),
{
    lemma_carries(v, ValueView::Null);
    assert forall|b: bool| v.as_bool() == Some(b) <==> #[trigger] carries(
        v,
        ValueView::Bool(b),
    ) by {
        lemma_carries(v, ValueView::Bool(b));
    }
    assert forall|s: Seq<char>| v.as_str() == Some(s) <==> #[trigger] carries(
        v,
        ValueView::String(s),
    ) by {
        lemma_carries(v, ValueView::String(s));
    }
    assert forall|n: NumberView| v.as_number() == Some(n) <==> #[trigger] carries(
        v,
        ValueView::Number(n),
    ) by {
        lemma_carries(v, ValueView::Number(n));
    }
    assert forall|items: Seq<ValueView>| v.as_sequence() == Some(items) <==> #[trigger] carries(
        v,
        ValueView::Sequence(items),
    ) by {
        lemma_carries(v, ValueView::Sequence(items));
    }
    assert forall|entries: Seq<(ValueView, ValueView)>|
        v.as_mapping() == Some(entries) <==> #[trigger] carries(v, ValueView::Mapping(entries)) by {
        lemma_carries(v, ValueView::Mapping(entries));
    }
}

/// A value is read as a signed integer exactly where it is an integer of that size,
/// however it is written; a double never is.
pub proof fn law_integers_are_read_exactly(v: ValueView, i: int)
    requires
        i64::MIN <= i <= i64::MAX,
    ensures
        v.as_i64() == Some(i as i64) <==> exists|n: NumberView| #[trigger]
            carries(v, ValueView::Number(n)) && whole(n) == Some(i),
        integer_view(i).as_i64() == Some(i as i64),
{
    lemma_core(v);
    if v.as_i64() == Some(i as i64) {
        let n = v.untagged()->Number_0;
        assert(carries(v, ValueView::Number(n)));
        assert(whole(n) == Some(i));
    }
    if exists|n: NumberView| #[trigger] carries(v, ValueView::Number(n)) && whole(n) == Some(i) {
        let n = choose|n: NumberView| #[trigger]
            carries(v, ValueView::Number(n)) && whole(n) == Some(i);
        lemma_carries(v, ValueView::Number(n));
    }
}

/// No value is read as an integer outside the signed range.
pub proof fn law_larger_integers_are_not_read(v: ValueView, n: NumberView)
    requires
        carries(v, ValueView::Number(n)),
        whole(n) matches Some(k) ==> !(i64::MIN <= k <= i64::MAX),
    ensures
        v.as_i64() is None,
        v.as_double() is Some,
        v.as_number() is Some,
{
    lemma_carries(v, ValueView::Number(n));
}

/// Whether the value stands in the mapping's first entry with that text as its key.
pub open spec fn first_under(
    entries: Seq<(ValueView, ValueView)>,
    name: Seq<char>,
    value: ValueView,
) -> bool {
    exists|i: int|
        #![trigger entries[i]]
        0 <= i < entries.len() && entries[i] == (ValueView::String(name), value) && forall|j: int|
            0 <= j < i ==> (#[trigger] entries[j]).0 != ValueView::String(name)
}

proof fn lemma_lookup_first(entries: Seq<(ValueView, ValueView)>, name: Seq<char>, from: int)
    requires
        0 <= from <= entries.len(),
    ensures
        match lookup_from(entries, name, from) {
            Some(v) => exists|i: int|
                #![trigger entries[i]]
                from <= i < entries.len() && entries[i] == (ValueView::String(name), v) && forall|
                    j: int,
                |
                    from <= j < i ==> (#[trigger] entries[j]).0 != ValueView::String(name),
            None => forall|j: int|
                from <= j < entries.len() ==> (#[trigger] entries[j]).0 != ValueView::String(name),
        },
    decreases entries.len() - from,
{
    if from < entries.len() {
        if entries[from].0 == ValueView::String(name) {
            assert(entries[from] == (ValueView::String(name), entries[from].1));
        } else {
            lemma_lookup_first(entries, name, from + 1);
            if let Some(v) = lookup_from(entries, name, from + 1) {
                let i = choose|i: int|
                    #![trigger entries[i]]
                    from + 1 <= i < entries.len() && entries[i] == (ValueView::String(name), v)
                        && forall|j: int|
                        from + 1 <= j < i ==> (#[trigger] entries[j]).0 != ValueView::String(name);
                assert(entries[i] == (ValueView::String(name), v));
            }
        }
    }
}

/// The value under a name is that of the first entry whose key is the name as a text;
/// only mappings have one.
pub proof fn law_lookup_finds_the_first_entry(v: ValueView, name: Seq<char>, value: ValueView)
    ensures
        v.get(name) == Some(value) <==> exists|entries: Seq<(ValueView, ValueView)>| #[trigger]
            carries(v, ValueView::Mapping(entries)) && first_under(entries, name, value),
{
    lemma_core(v);
    if let ValueView::Mapping(entries) = v.untagged() {
        lemma_lookup_first(entries, name, 0);
        assert(carries(v, ValueView::Mapping(entries)));
        if v.get(name) == Some(value) {
            let i = choose|i: int|
                #![trigger entries[i]]
                0 <= i < entries.len() && entries[i] == (ValueView::String(name), value) && forall|
                    j: int,
                |
                    0 <= j < i ==> (#[trigger] entries[j]).0 != ValueView::String(name);
            assert(entries[i] == (ValueView::String(name), value));
            assert(first_under(entries, name, value));
        }
        if exists|es: Seq<(ValueView, ValueView)>| #[trigger]
            carries(v, ValueView::Mapping(es)) && first_under(es, name, value) {
            let es = choose|es: Seq<(ValueView, ValueView)>| #[trigger]
                carries(v, ValueView::Mapping(es)) && first_under(es, name, value);
            lemma_carries(v, ValueView::Mapping(es));
            assert(es == entries);
            let i = choose|i: int|
                #![trigger entries[i]]
                0 <= i < entries.len() && entries[i] == (ValueView::String(name), value) && forall|
                    j: int,
                |
                    0 <= j < i ==> (#[trigger] entries[j]).0 != ValueView::String(name);
            match v.get(name) {
                Some(w) => {
                    let k = choose|k: int|
                        #![trigger entries[k]]
                        0 <= k < entries.len() && entries[k] == (ValueView::String(name), w)
                            && forall|j: int|
                            0 <= j < k ==> (#[trigger] entries[j]).0 != ValueView::String(name);
                    assert(entries[k].0 == ValueView::String(name));
                    assert(entries[i].0 == ValueView::String(name));
                    assert(i == k);
                },
                None => {
                    assert(entries[i].0 == ValueView::String(name));
                },
            }
        }
    } else {
        if exists|es: Seq<(ValueView, ValueView)>| #[trigger]
            carries(v, ValueView::Mapping(es)) && first_under(es, name, value) {
            let es = choose|es: Seq<(ValueView, ValueView)>| #[trigger]
                carries(v, ValueView::Mapping(es)) && first_under(es, name, value);
            lemma_carries(v, ValueView::Mapping(es));
        }
    }
}

/// Every value is the same as itself.
pub proof fn law_same_is_reflexive(v: ValueView)
    ensures
        same_value(v, v),
    decreases v,
{
    match v {
        ValueView::Sequence(x) => {
            assert forall|i: int| 0 <= i < x.len() implies same_value(#[trigger] x[i], x[i]) by {
                law_same_is_reflexive(x[i]);
            }
        },
        ValueView::Mapping(x) => {
            assert forall|i: int| 0 <= i < x.len() implies crate::value::has_counterpart(
                #[trigger] x[i],
                x,
            ) by {
                law_same_is_reflexive(x[i].0);
                law_same_is_reflexive(x[i].1);
            }
        },
        ValueView::Tagged(_, x) => {
            law_same_is_reflexive(*x);
        },
        _ => {},
    }
}

/// What is the same in structure: texts, truth values and integers where they are
/// equal, sequences item by item, tagged values with one tag and the same content;
/// an integer is never the same as a double, and no kind the same as another.
pub proof fn law_same_by_structure(a: ValueView, b: ValueView)
    ensures
        a is Null ==> (same_value(a, b) <==> b is Null),
        a is Bool ==> (same_value(a, b) <==> b == a),
        a is String ==> (same_value(a, b) <==> b == a),
        a matches ValueView::Number(n) && whole(n) is Some ==> (same_value(a, b) <==> b == a),
        a matches ValueView::Sequence(x) ==> (same_value(a, b) <==> (b matches ValueView::Sequence(
            y,
        ) && x.len() == y.len() && forall|i: int|
            0 <= i < x.len() ==> same_value(#[trigger] x[i], y[i]))),
        a matches ValueView::Tagged(s, x) ==> (same_value(a, b) <==> (b matches ValueView::Tagged(
            t,
            y,
        ) && s == t && same_value(*x, *y))),
{
}

/// Integers, truth values and texts stand for the values that they are in filters.
pub proof fn law_rust_values(i: i32, j: i64, b: bool, s: &str, t: String, v: Value)
    ensures
        i.value_view() matches ValueView::Number(n) && whole(n) == Some(i as int),
        j.value_view() matches ValueView::Number(n) && whole(n) == Some(j as int),
        b.value_view() == ValueView::Bool(b),
        s.value_view() == ValueView::String(s@),
        t.value_view() == ValueView::String(t@),
        v.value_view() == v@,
{
}

/// Two mappings are the same where they have as many entries, and each entry of the
/// first has one of the second with the same key and value. Two doubles are the same
/// where they mean the same number, or both are none.
pub proof fn law_same_mappings_and_doubles(
    x: Seq<(ValueView, ValueView)>,
    y: Seq<(ValueView, ValueView)>,
    a: u64,
    b: u64,
    s: Seq<char>,
    t: Seq<char>,
)
    ensures
        same_value(ValueView::Mapping(x), ValueView::Mapping(y)) <==> x.len() == y.len() && forall|
            i: int,
        |
            0 <= i < x.len() ==> found_in(#[trigger] x[i], y),
        ({
            let p = ValueView::Number(NumberView::Float { bits: a, text: s });
            let q = ValueView::Number(NumberView::Float { bits: b, text: t });
            &&& is_finite_pattern(a) && is_finite_pattern(b) ==> (same_value(p, q) <==> meaning(a)
                == meaning(b))
            &&& !is_finite_pattern(a) && !is_finite_pattern(b) ==> (same_value(p, q) <==> a == b || (
            fraction_field(a) != 0 && fraction_field(b) != 0))
            &&& is_finite_pattern(a) != is_finite_pattern(b) ==> !same_value(p, q)
        }),
{
    law_special_patterns(a, b);
    law_special_patterns(b, a);
    if is_finite_pattern(a) && is_finite_pattern(b) {
        law_doubles_compare_by_meaning(a, b);
        law_doubles_compare_by_meaning(b, a);
    }
    lemma_not_finite(a);
    lemma_not_finite(b);
    let m = ValueView::Mapping(x);
    let n = ValueView::Mapping(y);
    if same_value(m, n) {
        assert forall|i: int| 0 <= i < x.len() implies found_in(#[trigger] x[i], y) by {
            assert(crate::value::has_counterpart(x[i], y));
            let j = choose|j: int|
                #![trigger y[j]]
                0 <= j < y.len() && same_value(x[i].0, y[j].0) && same_value(x[i].1, y[j].1);
            assert(same_value(x[i].0, y[j].0));
        }
    }
    if x.len() == y.len() && forall|i: int| 0 <= i < x.len() ==> found_in(#[trigger] x[i], y) {
        assert forall|i: int| 0 <= i < x.len() implies crate::value::has_counterpart(
            #[trigger] x[i],
            y,
        ) by {
            assert(found_in(x[i], y));
            let j = choose|j: int|
                #![trigger y[j]]
                0 <= j < y.len() && same_value(x[i].0, y[j].0) && same_value(x[i].1, y[j].1);
            assert(same_value(x[i].0, y[j].0));
        }
    }
}

/// Some entry has the same key and the same value.
pub open spec fn found_in(entry: (ValueView, ValueView), y: Seq<(ValueView, ValueView)>) -> bool {
    exists|j: int|
        #![trigger y[j]]
        0 <= j < y.len() && same_value(entry.0, y[j].0) && same_value(entry.1, y[j].1)
}

proof fn lemma_not_finite(a: u64)
    ensures
        !is_finite_pattern(a) && fraction_field(a) == 0 ==> a == 0x7ff0_0000_0000_0000 || a
            == 0xfff0_0000_0000_0000,
        !is_finite_pattern(a) ==> crate::double_laws::exponent_field(a) == 0x7ff,
        is_finite_pattern(a) ==> crate::double::rank(a) != crate::double::rank(
            0x7ff0_0000_0000_0000,
        ) && crate::double::rank(a) != crate::double::rank(0xfff0_0000_0000_0000),
{
    let m = a as int % 0x8000_0000_0000_0000;
    assert(m % 0x10_0000_0000_0000 == a as int % 0x10_0000_0000_0000) by (nonlinear_arith)
        requires
            m == a as int % 0x8000_0000_0000_0000,
            0 <= a <= 0xffff_ffff_ffff_ffff,
    ;
}

/// The double of a value is that of the number it is, and only numbers have one.
pub proof fn law_doubles_of_values(v: ValueView, n: NumberView)
    ensures
        carries(v, ValueView::Number(n)) ==> v.as_double() == Some(
            match n {
                NumberView::PosInt(k) => crate::double::double_of(k as int) as u64,
                NumberView::NegInt(k) => crate::double::double_of(k as int) as u64,
                NumberView::Float { bits, .. } => bits,
            },
        ),
        v.as_double() is Some <==> v.as_number() is Some,
{
    lemma_carries(v, ValueView::Number(n));
}

} // verus!
