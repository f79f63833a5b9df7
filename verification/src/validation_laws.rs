//! What validation reports, stated on how values and texts are built.

use vstd::prelude::*;

use crate::double_laws::{
    is_finite_pattern, law_doubles_compare_by_meaning, law_special_patterns, meaning,
};
use crate::filter_laws::pattern_of;
use crate::path::within;
use crate::path_laws::{has_component, law_safe_paths};
use crate::record::RecordView;
use crate::schema::{FieldView, TypeView};
use crate::text::{decimal, starts_with};
use crate::validation::{
    digits_end, field_problem, fraction_end, is_finite, iso_date, iso_datetime, item_problem,
    item_refs, range_problem, record_problems, record_refs, ref_problems, starts_with_date,
    target_at, type_word, value_problem, value_refs, ProblemView, RefView, Severity,
};
use crate::value::{NumberView, ValueView};
use crate::value_laws::{carries, lemma_carries, lemma_core, whole};

verus! {

// ---------------------------------------------------------------------------
// Scalars
// ---------------------------------------------------------------------------

/// A value is valid for a scalar type exactly where it is a value of that kind: any
/// text for `string`, any integer of the signed range for `integer`, any number for
/// `float`, either truth value for `boolean`.
pub proof fn law_scalar_types_take_their_kind(v: ValueView)
    ensures
        value_problem(v, TypeView::String) is None <==> exists|s: Seq<char>| #[trigger]
            carries(v, ValueView::String(s)),
        value_problem(v, TypeView::Integer) is None <==> exists|n: NumberView| #[trigger]
            carries(v, ValueView::Number(n)) && (whole(n) matches Some(i) && i <= i64::MAX),
        value_problem(v, TypeView::Float) is None <==> exists|n: NumberView| #[trigger]
            carries(v, ValueView::Number(n)),
        value_problem(v, TypeView::Boolean) is None <==> carries(v, ValueView::Bool(true))
            || carries(v, ValueView::Bool(false)),
{
    lemma_core(v);
    let core = v.untagged();
    lemma_carries(v, ValueView::Bool(true));
    lemma_carries(v, ValueView::Bool(false));
    if exists|s: Seq<char>| #[trigger] carries(v, ValueView::String(s)) {
        let s = choose|s: Seq<char>| #[trigger] carries(v, ValueView::String(s));
        lemma_carries(v, ValueView::String(s));
    }
    if exists|n: NumberView| #[trigger]
        carries(v, ValueView::Number(n)) && (whole(n) matches Some(i) && i <= i64::MAX) {
        let n = choose|n: NumberView| #[trigger]
            carries(v, ValueView::Number(n)) && (whole(n) matches Some(i) && i <= i64::MAX);
        lemma_carries(v, ValueView::Number(n));
    }
    if exists|n: NumberView| #[trigger] carries(v, ValueView::Number(n)) {
        let n = choose|n: NumberView| #[trigger] carries(v, ValueView::Number(n));
        lemma_carries(v, ValueView::Number(n));
    }
    match core {
        ValueView::String(s) => {
            assert(carries(v, ValueView::String(s)));
        },
        ValueView::Number(n) => {
            assert(carries(v, ValueView::Number(n)));
        },
        _ => {},
    }
}

/// A value is valid for an enumeration exactly where it is one of its texts.
pub proof fn law_enumerations_take_their_texts(v: ValueView, variants: Seq<Seq<char>>)
    ensures
        value_problem(v, TypeView::Enum(variants)) is None <==> exists|i: int|
            0 <= i < variants.len() && carries(v, ValueView::String(#[trigger] variants[i])),
{
    lemma_core(v);
    if let ValueView::String(s) = v.untagged() {
        if variants.contains(s) {
            let i = choose|i: int| 0 <= i < variants.len() && variants[i] == s;
            assert(carries(v, ValueView::String(variants[i])));
        }
    }
    if exists|i: int|
        0 <= i < variants.len() && carries(v, ValueView::String(#[trigger] variants[i])) {
        let i = choose|i: int|
            0 <= i < variants.len() && carries(v, ValueView::String(#[trigger] variants[i]));
        lemma_carries(v, ValueView::String(variants[i]));
        assert(variants.contains(variants[i]));
    }
}

/// A value is valid for a reference exactly where it is a text that goes on from the
/// collection's name behind a separator, does not start at the root, holds no
/// backslash and leads nowhere up.
pub proof fn law_references_stay_in_their_collection(v: ValueView, target: Seq<char>)
    ensures
        value_problem(v, TypeView::Ref(target)) is None <==> exists|rest: Seq<char>| #[trigger]
            carries(v, ValueView::String(target + seq!['/'] + rest)) && is_inner_path(
                target + seq!['/'] + rest,
            ),
{
    reveal_strlit("/");
    assert("/"@ =~= seq!['/']);
    let prefix = target + seq!['/'];
    lemma_core(v);
    if let ValueView::String(s) = v.untagged() {
        law_safe_paths(s);
        if starts_with(s, prefix) {
            let rest = s.skip(prefix.len() as int);
            assert(s =~= s.take(prefix.len() as int) + rest);
            assert(s == target + seq!['/'] + rest);
            assert(carries(v, ValueView::String(target + seq!['/'] + rest)));
        }
    }
    if exists|rest: Seq<char>| #[trigger]
        carries(v, ValueView::String(target + seq!['/'] + rest)) && is_inner_path(
            target + seq!['/'] + rest,
        ) {
        let rest = choose|rest: Seq<char>| #[trigger]
            carries(v, ValueView::String(target + seq!['/'] + rest)) && is_inner_path(
                target + seq!['/'] + rest,
            );
        let s = target + seq!['/'] + rest;
        lemma_carries(v, ValueView::String(s));
        law_safe_paths(s);
        assert(s.take(prefix.len() as int) =~= prefix);
    }
}

/// A path that neither starts at the root, nor holds a backslash, nor leads up.
pub open spec fn is_inner_path(s: Seq<char>) -> bool {
    s[0] != '/' && !s.contains('\\') && !has_component(s, seq!['.', '.'])
}

/// A value is valid for an array exactly where it is a sequence whose items all are
/// valid; else the problem is that of the first item that is not, with its position.
pub proof fn law_arrays_take_valid_items(v: ValueView, inner: TypeView)
    ensures
        value_problem(v, TypeView::Array(Box::new(inner))) is None <==> exists|
            items: Seq<ValueView>,
        | #[trigger]
            carries(v, ValueView::Sequence(items)) && forall|i: int|
                0 <= i < items.len() ==> value_problem(#[trigger] items[i], inner) is None,
        forall|items: Seq<ValueView>, i: int|
            #![trigger carries(v, ValueView::Sequence(items)), items[i]]
            carries(v, ValueView::Sequence(items)) && 0 <= i < items.len() && value_problem(
                items[i],
                inner,
            ) is Some && (forall|j: int|
                0 <= j < i ==> value_problem(#[trigger] items[j], inner) is None) ==> value_problem(
                v,
                TypeView::Array(Box::new(inner)),
            ) == Some("["@ + decimal(i as nat) + "]: "@ + value_problem(items[i], inner)->Some_0),
{
    lemma_core(v);
    let t = TypeView::Array(Box::new(inner));
    crate::validation::law_array_valid_iff_items_valid(v, inner);
    if let ValueView::Sequence(items) = v.untagged() {
        assert(carries(v, ValueView::Sequence(items)));
    }
    if exists|items: Seq<ValueView>| #[trigger]
        carries(v, ValueView::Sequence(items)) && forall|i: int|
            0 <= i < items.len() ==> value_problem(#[trigger] items[i], inner) is None {
        let items = choose|items: Seq<ValueView>| #[trigger]
            carries(v, ValueView::Sequence(items)) && forall|i: int|
                0 <= i < items.len() ==> value_problem(#[trigger] items[i], inner) is None;
        lemma_carries(v, ValueView::Sequence(items));
    }
    assert forall|items: Seq<ValueView>, i: int|
        #![trigger carries(v, ValueView::Sequence(items)), items[i]]
        carries(v, ValueView::Sequence(items)) && 0 <= i < items.len() && value_problem(
            items[i],
            inner,
        ) is Some && (forall|j: int|
            0 <= j < i ==> value_problem(#[trigger] items[j], inner) is None) implies value_problem(
        v,
        t,
    ) == Some("["@ + decimal(i as nat) + "]: "@ + value_problem(items[i], inner)->Some_0) by {
        lemma_carries(v, ValueView::Sequence(items));
        assert(value_problem(v, t) == item_problem(items, inner, 0));
        lemma_first_item(items, inner, 0, i as nat);
    }
}

proof fn lemma_first_item(items: Seq<ValueView>, t: TypeView, from: nat, i: nat)
    requires
        from <= i < items.len(),
        value_problem(items[i as int], t) is Some,
        forall|j: int| from <= j < i ==> value_problem(#[trigger] items[j], t) is None,
    ensures
        item_problem(items, t, from) == Some(
            "["@ + decimal(i) + "]: "@ + value_problem(items[i as int], t)->Some_0,
        ),
    decreases i - from,
{
    if from < i {
        assert(value_problem(items[from as int], t) is None);
        lemma_first_item(items, t, from + 1, i);
    }
}

/// What is said of a value of the wrong kind names the type as schemas write it, and the
/// kind of the value.
pub proof fn law_mismatches_name_type_and_kind(v: ValueView, t: TypeView)
    requires
        t is String || t is Integer || t is Float || t is Boolean,
    ensures
        value_problem(v, t) matches Some(m) ==> m == "expected "@ + crate::schema::type_text(t)
            + ", got "@ + type_word(v),
        type_word(ValueView::Null) == "null"@,
        v is Bool ==> type_word(v) == "boolean"@,
        v is Number ==> type_word(v) == "number"@,
        v is String ==> type_word(v) == "string"@,
        v is Sequence ==> type_word(v) == "array"@,
        v is Mapping ==> type_word(v) == "object"@,
        v is Tagged ==> type_word(v) == "other"@,
{
    reveal_strlit("expected ");
    reveal_strlit(", got ");
    reveal_strlit("string");
    reveal_strlit("integer");
    reveal_strlit("float");
    reveal_strlit("boolean");
    reveal_strlit("expected string, got ");
    reveal_strlit("expected integer, got ");
    reveal_strlit("expected float, got ");
    reveal_strlit("expected boolean, got ");
    assert("expected string, got "@ =~= "expected "@ + "string"@ + ", got "@);
    assert("expected integer, got "@ =~= "expected "@ + "integer"@ + ", got "@);
    assert("expected float, got "@ =~= "expected "@ + "float"@ + ", got "@);
    assert("expected boolean, got "@ =~= "expected "@ + "boolean"@ + ", got "@);
}

// ---------------------------------------------------------------------------
// Dates
// ---------------------------------------------------------------------------

/// A number below a hundred with two digits.
pub open spec fn two(n: int) -> Seq<char> {
    seq![(n / 10 + 48) as char, (n % 10 + 48) as char]
}

/// The lengths of the months in an ordinary year.
pub open spec fn month_lengths() -> Seq<int> {
    seq![31, 28, 31, 30, 31, 30, 31, 31, 30, 31, 30, 31]
}

/// Every fourth year has one more day, of the full centuries only every fourth.
pub open spec fn has_leap_day(year: int) -> bool {
    if year % 100 == 0 {
        year / 100 % 4 == 0
    } else {
        year % 4 == 0
    }
}

/// Whether the day exists.
pub open spec fn is_day(year: int, month: int, day: int) -> bool {
    &&& 0 <= year <= 9999
    &&& 1 <= month <= 12
    &&& 1 <= day <= month_lengths()[month - 1] || (month == 2 && day == 29 && has_leap_day(year))
}

/// A day as a text.
pub open spec fn day_text(year: int, month: int, day: int) -> Seq<char> {
    two(year / 100) + two(year % 100) + seq!['-'] + two(month) + seq!['-'] + two(day)
}

/// Whether the text is that of a day that exists.
pub open spec fn is_day_text(s: Seq<char>) -> bool {
    exists|year: int, month: int, day: int| #[trigger]
        is_day(year, month, day) && s == day_text(year, month, day)
}

proof fn lemma_two(s: Seq<char>, i: int)
    requires
        0 <= i,
        i + 1 < s.len(),
        crate::validation::digits_at(s, i, i + 2),
    ensures
        0 <= crate::validation::two_digits(s, i) <= 99,
        s.subrange(i, i + 2) == two(crate::validation::two_digits(s, i)),
{
    assert(crate::text::is_digit(s[i]) && crate::text::is_digit(s[i + 1]));
    let a = s[i] as u32 - 48;
    let b = s[i + 1] as u32 - 48;
    let n = a * 10 + b;
    assert(n / 10 == a && n % 10 == b);
    assert(s.subrange(i, i + 2) =~= two(n));
}

proof fn lemma_two_digits(n: int)
    requires
        0 <= n <= 99,
    ensures
        ({
            let s = two(n);
            &&& s.len() == 2
            &&& crate::text::is_digit(s[0]) && crate::text::is_digit(s[1])
            &&& (s[0] as u32 - 48) * 10 + (s[1] as u32 - 48) == n
        }),
{
    let a = (n / 10 + 48) as char;
    let b = (n % 10 + 48) as char;
    assert(a as u32 == n / 10 + 48);
    assert(b as u32 == n % 10 + 48);
}

proof fn lemma_month_lengths(year: int, month: int, day: int)
    requires
        0 <= year <= 9999,
        1 <= month <= 12,
    ensures
        is_day(year, month, day) <==> 1 <= day <= crate::validation::days_in_month(year, month),
{
    assert(has_leap_day(year) <==> crate::validation::is_leap_year(year)) by {
        if year % 100 == 0 {
            assert(year % 4 == 0);
            assert(year / 100 % 4 == 0 <==> year % 400 == 0);
        }
    }
    let m = month_lengths();
    assert(m.len() == 12);
    if month == 1 {
        assert(m[0] == 31);
    } else if month == 2 {
        assert(m[1] == 28);
    } else if month == 3 {
        assert(m[2] == 31);
    } else if month == 4 {
        assert(m[3] == 30);
    } else if month == 5 {
        assert(m[4] == 31);
    } else if month == 6 {
        assert(m[5] == 30);
    } else if month == 7 {
        assert(m[6] == 31);
    } else if month == 8 {
        assert(m[7] == 31);
    } else if month == 9 {
        assert(m[8] == 30);
    } else if month == 10 {
        assert(m[9] == 31);
    } else if month == 11 {
        assert(m[10] == 30);
    } else {
        assert(m[11] == 31);
    }
}

proof fn lemma_starts_with_date(s: Seq<char>)
    requires
        s.len() >= 10,
    ensures
        starts_with_date(s) <==> is_day_text(s.take(10)),
{
    let t = s.take(10);
    if starts_with_date(s) {
        assert(crate::validation::digits_at(s, 0, 2) && crate::validation::digits_at(s, 2, 4));
        lemma_two(s, 0);
        lemma_two(s, 2);
        lemma_two(s, 5);
        lemma_two(s, 8);
        let a = crate::validation::two_digits(s, 0);
        let b = crate::validation::two_digits(s, 2);
        let year = crate::validation::year_of(s);
        let month = crate::validation::two_digits(s, 5);
        let day = crate::validation::two_digits(s, 8);
        assert(year / 100 == a && year % 100 == b);
        lemma_month_lengths(year, month, day);
        let d = day_text(year, month, day);
        assert(d.len() == 10);
        assert(t =~= s.subrange(0, 2) + s.subrange(2, 4) + seq!['-'] + s.subrange(5, 7) + seq!['-']
            + s.subrange(8, 10));
        assert(is_day(year, month, day));
    }
    if is_day_text(t) {
        let (year, month, day) = choose|year: int, month: int, day: int| #[trigger]
            is_day(year, month, day) && t == day_text(year, month, day);
        lemma_month_lengths(year, month, day);
        assert(day <= 31);
        lemma_two_digits(year / 100);
        lemma_two_digits(year % 100);
        lemma_two_digits(month);
        lemma_two_digits(day);
        assert forall|i: int| 0 <= i < 10 implies s[i] == #[trigger] t[i] by {}
        assert(s[0] == t[0] && s[1] == t[1] && s[2] == t[2] && s[3] == t[3] && s[4] == t[4]);
        assert(s[5] == t[5] && s[6] == t[6] && s[7] == t[7] && s[8] == t[8] && s[9] == t[9]);
        assert(t[0] == two(year / 100)[0] && t[1] == two(year / 100)[1]);
        assert(t[2] == two(year % 100)[0] && t[3] == two(year % 100)[1]);
        assert(t[5] == two(month)[0] && t[6] == two(month)[1]);
        assert(t[8] == two(day)[0] && t[9] == two(day)[1]);
        assert(crate::validation::year_of(s) == year);
    }
}

/// A value is valid for a date exactly where it is the text of a day that exists.
pub proof fn law_dates_are_days(v: ValueView)
    ensures
        value_problem(v, TypeView::Date) is None <==> exists|s: Seq<char>| #[trigger]
            carries(v, ValueView::String(s)) && is_day_text(s),
{
    lemma_core(v);
    if let ValueView::String(s) = v.untagged() {
        assert(carries(v, ValueView::String(s)));
        lemma_date(s);
    }
    if exists|s: Seq<char>| #[trigger] carries(v, ValueView::String(s)) && is_day_text(s) {
        let s = choose|s: Seq<char>| #[trigger]
            carries(v, ValueView::String(s)) && is_day_text(s);
        lemma_carries(v, ValueView::String(s));
        lemma_date(s);
    }
}

proof fn lemma_date(s: Seq<char>)
    ensures
        iso_date(s) <==> is_day_text(s),
{
    if s.len() == 10 {
        lemma_starts_with_date(s);
        assert(s.take(10) =~= s);
    } else if is_day_text(s) {
        let (year, month, day) = choose|year: int, month: int, day: int| #[trigger]
            is_day(year, month, day) && s == day_text(year, month, day);
        assert(day_text(year, month, day).len() == 10);
    }
}

/// A time of day as a text; the last second of a day may be a leap second.
pub open spec fn is_time_text(s: Seq<char>) -> bool {
    exists|hour: int, minute: int, second: int| #[trigger]
        is_time(hour, minute, second) && s == two(hour) + seq![':'] + two(minute) + seq![':'] + two(
            second,
        )
}

pub open spec fn is_time(hour: int, minute: int, second: int) -> bool {
    0 <= hour < 24 && 0 <= minute < 60 && 0 <= second <= 60
}

/// Nothing, or a point and at least one digit.
pub open spec fn is_fraction_text(s: Seq<char>) -> bool {
    s.len() == 0 || (s.len() >= 2 && s[0] == '.' && forall|i: int|
        1 <= i < s.len() ==> '0' <= #[trigger] s[i] <= '9')
}

/// `Z`, or a sign, hours and minutes.
pub open spec fn is_zone_text(s: Seq<char>) -> bool {
    ||| s == seq!['Z'] || s == seq!['z']
    ||| exists|hour: int, minute: int| #[trigger]
        is_time(hour, minute, 0) && (s == seq!['+'] + two(hour) + seq![':'] + two(minute) || s
            == seq!['-'] + two(hour) + seq![':'] + two(minute))
}

/// The parts of a date with a time.
pub open spec fn is_moment(
    s: Seq<char>,
    day: Seq<char>,
    between: char,
    time: Seq<char>,
    fraction: Seq<char>,
    zone: Seq<char>,
) -> bool {
    &&& s == day + seq![between] + time + fraction + zone
    &&& is_day_text(day)
    &&& between == 'T' || between == 't' || between == ' '
    &&& is_time_text(time)
    &&& is_fraction_text(fraction)
    &&& is_zone_text(zone)
}

proof fn lemma_digits_end(s: Seq<char>, from: int, to: int)
    requires
        0 <= from <= to <= s.len(),
        forall|i: int| from <= i < to ==> crate::text::is_digit(#[trigger] s[i]),
        to < s.len() ==> !crate::text::is_digit(s[to]),
    ensures
        digits_end(s, from) == to,
    decreases to - from,
{
    if from < to {
        assert(crate::text::is_digit(s[from]));
        lemma_digits_end(s, from + 1, to);
    }
}

proof fn lemma_digits_end_digits(s: Seq<char>, from: int)
    requires
        0 <= from <= s.len(),
    ensures
        from <= digits_end(s, from) <= s.len(),
        forall|i: int| from <= i < digits_end(s, from) ==> crate::text::is_digit(#[trigger] s[i]),
    decreases s.len() - from,
{
    if from < s.len() && crate::text::is_digit(s[from]) {
        lemma_digits_end_digits(s, from + 1);
    }
}

proof fn lemma_time(s: Seq<char>)
    requires
        s.len() == 8,
    ensures
        is_time_text(s) <==> {
            &&& s[2] == ':' && s[5] == ':'
            &&& crate::validation::digits_at(s, 0, 2) && crate::validation::digits_at(s, 3, 5)
                && crate::validation::digits_at(s, 6, 8)
            &&& crate::validation::two_digits(s, 0) <= 23
            &&& crate::validation::two_digits(s, 3) <= 59
            &&& crate::validation::two_digits(s, 6) <= 60
        },
{
    if is_time_text(s) {
        let (h, m, x) = choose|hour: int, minute: int, second: int| #[trigger]
            is_time(hour, minute, second) && s == two(hour) + seq![':'] + two(minute) + seq![':']
                + two(second);
        lemma_two_digits(h);
        lemma_two_digits(m);
        lemma_two_digits(x);
        assert(s[0] == two(h)[0] && s[1] == two(h)[1]);
        assert(s[3] == two(m)[0] && s[4] == two(m)[1]);
        assert(s[6] == two(x)[0] && s[7] == two(x)[1]);
    }
    if s[2] == ':' && s[5] == ':' && crate::validation::digits_at(s, 0, 2)
        && crate::validation::digits_at(s, 3, 5) && crate::validation::digits_at(s, 6, 8)
        && crate::validation::two_digits(s, 0) <= 23 && crate::validation::two_digits(s, 3) <= 59
        && crate::validation::two_digits(s, 6) <= 60 {
        lemma_two(s, 0);
        lemma_two(s, 3);
        lemma_two(s, 6);
        let h = crate::validation::two_digits(s, 0);
        let m = crate::validation::two_digits(s, 3);
        let x = crate::validation::two_digits(s, 6);
        assert(s =~= s.subrange(0, 2) + seq![':'] + s.subrange(3, 5) + seq![':'] + s.subrange(6, 8));
        assert(is_time(h, m, x));
    }
}

proof fn lemma_zone(s: Seq<char>)
    ensures
        is_zone_text(s) <==> crate::validation::is_offset(s, 0),
        is_zone_text(s) ==> s.len() > 0 && !crate::text::is_digit(s[0]) && s[0] != '.',
{
    if is_zone_text(s) {
        if s == seq!['Z'] || s == seq!['z'] {
        } else {
            let (h, m) = choose|hour: int, minute: int| #[trigger]
                is_time(hour, minute, 0) && (s == seq!['+'] + two(hour) + seq![':'] + two(minute)
                    || s == seq!['-'] + two(hour) + seq![':'] + two(minute));
            lemma_two_digits(h);
            lemma_two_digits(m);
            assert(s.len() == 6);
            assert(s[1] == two(h)[0] && s[2] == two(h)[1]);
            assert(s[4] == two(m)[0] && s[5] == two(m)[1]);
        }
    }
    if crate::validation::is_offset(s, 0) {
        if s.len() == 1 {
            assert(s =~= seq!['Z'] || s =~= seq!['z']);
        } else {
            lemma_two(s, 1);
            lemma_two(s, 4);
            let h = crate::validation::two_digits(s, 1);
            let m = crate::validation::two_digits(s, 4);
            assert(s =~= seq![s[0]] + s.subrange(1, 3) + seq![':'] + s.subrange(4, 6));
            assert(is_time(h, m, 0));
        }
    }
}

proof fn lemma_offset_shift(s: Seq<char>, at: int)
    requires
        0 <= at <= s.len(),
    ensures
        crate::validation::is_offset(s, at) <==> crate::validation::is_offset(s.skip(at), 0),
{
    let z = s.skip(at);
    if z.len() == 6 {
        assert(z[0] == s[at] && z[1] == s[at + 1] && z[2] == s[at + 2] && z[3] == s[at + 3] && z[4]
            == s[at + 4] && z[5] == s[at + 5]);
        assert(crate::validation::digits_at(s, at + 1, at + 3) <==> crate::validation::digits_at(
            z,
            1,
            3,
        )) by {
            if crate::validation::digits_at(s, at + 1, at + 3) {
                assert forall|i: int| 1 <= i < 3 implies crate::text::is_digit(#[trigger] z[i]) by {
                    assert(s[at + i] == z[i]);
                }
            }
            if crate::validation::digits_at(z, 1, 3) {
                assert forall|i: int| at + 1 <= i < at + 3 implies crate::text::is_digit(
                    #[trigger] s[i],
                ) by {
                    assert(z[i - at] == s[i]);
                }
            }
        }
        assert(crate::validation::digits_at(s, at + 4, at + 6) <==> crate::validation::digits_at(
            z,
            4,
            6,
        )) by {
            if crate::validation::digits_at(s, at + 4, at + 6) {
                assert forall|i: int| 4 <= i < 6 implies crate::text::is_digit(#[trigger] z[i]) by {
                    assert(s[at + i] == z[i]);
                }
            }
            if crate::validation::digits_at(z, 4, 6) {
                assert forall|i: int| at + 4 <= i < at + 6 implies crate::text::is_digit(
                    #[trigger] s[i],
                ) by {
                    assert(z[i - at] == s[i]);
                }
            }
        }
    }
}

proof fn lemma_time_shift(s: Seq<char>)
    requires
        s.len() >= 19,
    ensures
        is_time_text(s.subrange(11, 19)) <==> {
            &&& s[13] == ':' && s[16] == ':'
            &&& crate::validation::digits_at(s, 11, 13) && crate::validation::digits_at(s, 14, 16)
                && crate::validation::digits_at(s, 17, 19)
            &&& crate::validation::two_digits(s, 11) <= 23
            &&& crate::validation::two_digits(s, 14) <= 59
            &&& crate::validation::two_digits(s, 17) <= 60
        },
{
    let t = s.subrange(11, 19);
    lemma_time(t);
    assert(t[0] == s[11] && t[1] == s[12] && t[2] == s[13] && t[3] == s[14] && t[4] == s[15] && t[5]
        == s[16] && t[6] == s[17] && t[7] == s[18]);
    assert(crate::validation::digits_at(t, 0, 2) <==> crate::text::is_digit(t[0])
        && crate::text::is_digit(t[1]));
    assert(crate::validation::digits_at(t, 3, 5) <==> crate::text::is_digit(t[3])
        && crate::text::is_digit(t[4]));
    assert(crate::validation::digits_at(t, 6, 8) <==> crate::text::is_digit(t[6])
        && crate::text::is_digit(t[7]));
    assert(crate::validation::digits_at(s, 11, 13) <==> crate::text::is_digit(s[11])
        && crate::text::is_digit(s[12]));
    assert(crate::validation::digits_at(s, 14, 16) <==> crate::text::is_digit(s[14])
        && crate::text::is_digit(s[15]));
    assert(crate::validation::digits_at(s, 17, 19) <==> crate::text::is_digit(s[17])
        && crate::text::is_digit(s[18]));
}

proof fn lemma_datetime(s: Seq<char>)
    ensures
        iso_datetime(s) <==> exists|
            day: Seq<char>,
            between: char,
            time: Seq<char>,
            fraction: Seq<char>,
            zone: Seq<char>,
        | #[trigger]
            is_moment(s, day, between, time, fraction, zone),
{
    if iso_datetime(s) {
        let at = fraction_end(s, 19);
        lemma_starts_with_date(s);
        lemma_time_shift(s);
        lemma_digits_end_digits(s, 20);
        let fraction = s.subrange(19, at);
        let zone = s.skip(at);
        lemma_offset_shift(s, at);
        lemma_zone(zone);
        assert(is_fraction_text(fraction)) by {
            if at > 19 {
                assert(s[19] == '.' && crate::text::is_digit(s[20]));
                assert(at >= 21) by {
                    assert(digits_end(s, 20) == digits_end(s, 21));
                    lemma_digits_end_digits(s, 21);
                }
                assert forall|i: int| 1 <= i < fraction.len() implies '0' <= #[trigger] fraction[i]
                    <= '9' by {
                    assert(fraction[i] == s[19 + i]);
                    assert(crate::text::is_digit(s[19 + i]));
                }
            }
        }
        assert(s =~= s.take(10) + seq![s[10]] + s.subrange(11, 19) + fraction + zone);
        assert(is_moment(s, s.take(10), s[10], s.subrange(11, 19), fraction, zone));
    }
    if exists|
        day: Seq<char>,
        between: char,
        time: Seq<char>,
        fraction: Seq<char>,
        zone: Seq<char>,
    | #[trigger]
        is_moment(s, day, between, time, fraction, zone) {
        let (day, between, time, fraction, zone) = choose|
            day: Seq<char>,
            between: char,
            time: Seq<char>,
            fraction: Seq<char>,
            zone: Seq<char>,
        | #[trigger]
            is_moment(s, day, between, time, fraction, zone);
        let (y, m, d) = choose|year: int, month: int, day_: int| #[trigger]
            is_day(year, month, day_) && day == day_text(year, month, day_);
        assert(day.len() == 10);
        let (h, n, x) = choose|hour: int, minute: int, second: int| #[trigger]
            is_time(hour, minute, second) && time == two(hour) + seq![':'] + two(minute) + seq![':']
                + two(second);
        assert(time.len() == 8);
        lemma_zone(zone);
        assert(s.take(10) =~= day);
        assert(s[10] == between);
        assert(s.subrange(11, 19) =~= time);
        lemma_starts_with_date(s);
        lemma_time_shift(s);
        let at = 19 + fraction.len();
        assert(s.skip(at as int) =~= zone);
        assert(s[at as int] == zone[0]);
        lemma_offset_shift(s, at as int);
        assert(fraction_end(s, 19) == at) by {
            if fraction.len() > 0 {
                assert(s[19] == fraction[0]);
                assert(s[20] == fraction[1]);
                assert('0' <= fraction[1] <= '9');
                assert forall|i: int| 20 <= i < at implies crate::text::is_digit(#[trigger] s[i]) by {
                    assert(s[i] == fraction[i - 19]);
                    assert('0' <= fraction[i - 19] <= '9');
                }
                lemma_digits_end(s, 20, at as int);
            } else {
                assert(s[19] == zone[0]);
            }
        }
    }
}

/// A value is valid for a date with time exactly where it is the text of a day, `T` or
/// a blank, a time, perhaps a fraction of a second, and an offset.
pub proof fn law_datetimes_are_moments(v: ValueView)
    ensures
        value_problem(v, TypeView::DateTime) is None <==> exists|
            s: Seq<char>,
            day: Seq<char>,
            between: char,
            time: Seq<char>,
            fraction: Seq<char>,
            zone: Seq<char>,
        |
            #![trigger carries(v, ValueView::String(s)), is_moment(s, day, between, time, fraction, zone)]
            carries(v, ValueView::String(s)) && is_moment(s, day, between, time, fraction, zone),
{
    lemma_core(v);
    if let ValueView::String(s) = v.untagged() {
        assert(carries(v, ValueView::String(s)));
        lemma_datetime(s);
        if iso_datetime(s) {
            let (day, between, time, fraction, zone) = choose|
                day: Seq<char>,
                between: char,
                time: Seq<char>,
                fraction: Seq<char>,
                zone: Seq<char>,
            | #[trigger]
                is_moment(s, day, between, time, fraction, zone);
            assert(carries(v, ValueView::String(s)) && is_moment(
                s,
                day,
                between,
                time,
                fraction,
                zone,
            ));
        }
    }
    if exists|
        s: Seq<char>,
        day: Seq<char>,
        between: char,
        time: Seq<char>,
        fraction: Seq<char>,
        zone: Seq<char>,
    |
        #![trigger carries(v, ValueView::String(s)), is_moment(s, day, between, time, fraction, zone)]
        carries(v, ValueView::String(s)) && is_moment(s, day, between, time, fraction, zone) {
        let (s, day, between, time, fraction, zone) = choose|
            s: Seq<char>,
            day: Seq<char>,
            between: char,
            time: Seq<char>,
            fraction: Seq<char>,
            zone: Seq<char>,
        |
            #![trigger carries(v, ValueView::String(s)), is_moment(s, day, between, time, fraction, zone)]
            carries(v, ValueView::String(s)) && is_moment(s, day, between, time, fraction, zone);
        lemma_carries(v, ValueView::String(s));
        lemma_datetime(s);
    }
}

// ---------------------------------------------------------------------------
// Ranges, fields and records
// ---------------------------------------------------------------------------

/// A finite number is outside a range exactly where it is below its lower or above its
/// upper bound; a number that is not finite always is, and what is no number too.
pub proof fn law_numbers_outside_their_range(
    v: ValueView,
    n: NumberView,
    low: NumberView,
    high: NumberView,
)
    requires
        carries(v, ValueView::Number(n)),
        is_finite_pattern(pattern_of(low)),
        is_finite_pattern(pattern_of(high)),
    ensures
        is_finite_pattern(pattern_of(n)) ==> (range_problem(v, low, high) is Some <==> meaning(
            pattern_of(n),
        ) < meaning(pattern_of(low)) || meaning(pattern_of(n)) > meaning(pattern_of(high))),
        !is_finite_pattern(pattern_of(n)) ==> range_problem(v, low, high) is Some,
{
    lemma_carries(v, ValueView::Number(n));
    lemma_finite(pattern_of(n));
    if is_finite_pattern(pattern_of(n)) {
        law_doubles_compare_by_meaning(pattern_of(n), pattern_of(low));
        law_doubles_compare_by_meaning(pattern_of(n), pattern_of(high));
    }
}

proof fn lemma_finite(bits: u64)
    ensures
        is_finite(bits) <==> is_finite_pattern(bits),
{
    law_special_patterns(bits, bits);
    let m = bits as int % 0x8000_0000_0000_0000;
    assert(m == bits % crate::double::SIGN);
    assert(m / 0x10_0000_0000_0000 < 0x7ff <==> m < 0x7ff0_0000_0000_0000) by (nonlinear_arith)
        requires
            0 <= m < 0x8000_0000_0000_0000,
    ;
}

/// What a field holds is right exactly where it is missing or null and the field is not
/// required, or it is a valid value of the field's type and inside its range, where it
/// has one. What is wrong with the type is said first.
pub proof fn law_fields_are_right(v: Option<ValueView>, def: FieldView)
    ensures
        v is None || v == Some(ValueView::Null) ==> (field_problem(v, def) is None
            <==> !def.required),
        v is Some && !(v->Some_0 is Null) ==> {
            let x = v->Some_0;
            &&& value_problem(x, def.field_type) is Some ==> field_problem(v, def) == value_problem(
                x,
                def.field_type,
            )
            &&& value_problem(x, def.field_type) is None && def.range is None ==> field_problem(
                v,
                def,
            ) is None
            &&& value_problem(x, def.field_type) is None && def.range is Some ==> field_problem(
                v,
                def,
            ) == range_problem(x, def.range->Some_0.0, def.range->Some_0.1)
        },
{
}

/// The problem of a record in one field.
pub open spec fn problem_in(record: RecordView, def: FieldView, p: ProblemView) -> bool {
    &&& field_problem(record.field(def.name), def) == Some(p.message)
    &&& p.field == def.name
    &&& p.record_path == record.path
    &&& p.severity == Severity::Error
}

/// A record has exactly the problems that its fields have: each field that has one is
/// reported once, as an error, in the order of the definitions, and nothing else is.
pub proof fn law_records_have_their_fields_problems(
    record: RecordView,
    fields: Seq<FieldView>,
    def: FieldView,
)
    ensures
        record_problems(record, Seq::empty()) == Seq::<ProblemView>::empty(),
        field_problem(record.field(def.name), def) is None ==> record_problems(
            record,
            fields.push(def),
        ) == record_problems(record, fields),
        forall|p: ProblemView|
            problem_in(record, def, p) ==> #[trigger] record_problems(record, fields).push(p)
                == record_problems(record, fields.push(def)),
        forall|p: ProblemView| #[trigger]
            record_problems(record, fields).contains(p) <==> exists|i: int|
                0 <= i < fields.len() && problem_in(record, #[trigger] fields[i], p),
    decreases fields.len(),
{
    assert(fields.push(def).drop_last() =~= fields);
    let all = record_problems(record, fields);
    assert forall|p: ProblemView|
        problem_in(record, def, p) implies #[trigger] record_problems(record, fields).push(p)
        == record_problems(record, fields.push(def)) by {}
    if fields.len() > 0 {
        let front = fields.drop_last();
        let last = fields.last();
        law_records_have_their_fields_problems(record, front, last);
        let before = record_problems(record, front);
        assert(front.push(last) =~= fields);
        assert forall|p: ProblemView| #[trigger] all.contains(p) <==> exists|i: int|
            0 <= i < fields.len() && problem_in(record, #[trigger] fields[i], p) by {
            if all.contains(p) {
                let k = choose|k: int| 0 <= k < all.len() && all[k] == p;
                if k < before.len() {
                    assert(before[k] == p);
                    assert(before.contains(p));
                    let i = choose|i: int|
                        0 <= i < front.len() && problem_in(record, #[trigger] front[i], p);
                    assert(problem_in(record, fields[i], p));
                } else {
                    assert(problem_in(record, fields[fields.len() - 1], p));
                }
            }
            if exists|i: int| 0 <= i < fields.len() && problem_in(record, #[trigger] fields[i], p) {
                let i = choose|i: int|
                    0 <= i < fields.len() && problem_in(record, #[trigger] fields[i], p);
                if i < front.len() {
                    assert(problem_in(record, front[i], p));
                    assert(before.contains(p));
                    let k = choose|k: int| 0 <= k < before.len() && before[k] == p;
                    assert(all[k] == p);
                } else {
                    assert(all == before.push(p));
                    assert(all[all.len() - 1] == p);
                }
            }
        }
    }
}

/// A record that holds a value other than null in a scalar field has no problem there
/// exactly where the value is of the field's kind: true or false for `boolean`, a text
/// for `string`, an integer of the signed range for `integer`, a number for `float`.
pub proof fn law_records_with_values_of_the_right_kind(
    record: RecordView,
    def: FieldView,
    v: ValueView,
)
    requires
        record.field(def.name) == Some(v),
        !(v is Null),
        def.range is None,
    ensures
        ({
            let fine = record_problems(record, seq![def]).len() == 0;
            &&& def.field_type is Boolean ==> (fine <==> carries(v, ValueView::Bool(true)) || carries(
                v,
                ValueView::Bool(false),
            ))
            &&& def.field_type is String ==> (fine <==> exists|s: Seq<char>| #[trigger]
                carries(v, ValueView::String(s)))
            &&& def.field_type is Integer ==> (fine <==> exists|n: NumberView| #[trigger]
                carries(v, ValueView::Number(n)) && (whole(n) matches Some(i) && i <= i64::MAX))
            &&& def.field_type is Float ==> (fine <==> exists|n: NumberView| #[trigger]
                carries(v, ValueView::Number(n)))
        }),
{
    law_scalar_types_take_their_kind(v);
    law_fields_are_right(Some(v), def);
    let none = Seq::<FieldView>::empty();
    law_records_have_their_fields_problems(record, none, def);
    assert(none.push(def) =~= seq![def]);
    if let Some(m) = field_problem(Some(v), def) {
        let p = ProblemView {
            record_path: record.path,
            field: def.name,
            message: m,
            severity: Severity::Error,
        };
        assert(problem_in(record, def, p));
        assert(record_problems(record, none).push(p) == record_problems(record, seq![def]));
    }
}

// ---------------------------------------------------------------------------
// References
// ---------------------------------------------------------------------------

/// The references in a value: a valid reference is one, an array has those of its
/// items, in their order, and a value of another type has none.
pub proof fn law_references_of_values(
    field: Seq<char>,
    v: ValueView,
    target: Seq<char>,
    inner: TypeView,
    items: Seq<ValueView>,
    item: ValueView,
)
    ensures
        forall|s: Seq<char>| #[trigger]
            carries(v, ValueView::String(s)) && value_problem(v, TypeView::Ref(target)) is None
                ==> value_refs(field, v, TypeView::Ref(target)) == seq![
                RefView { field, path: s },
            ],
        value_problem(v, TypeView::Ref(target)) is Some ==> value_refs(
            field,
            v,
            TypeView::Ref(target),
        ) == Seq::<RefView>::empty(),
        value_refs(field, ValueView::Sequence(Seq::empty()), TypeView::Array(Box::new(inner)))
            == Seq::<RefView>::empty(),
        value_refs(
            field,
            ValueView::Sequence(items.push(item)),
            TypeView::Array(Box::new(inner)),
        ) == value_refs(field, ValueView::Sequence(items), TypeView::Array(Box::new(inner)))
            + value_refs(field, item, inner),
        carries(v, ValueView::Sequence(items)) ==> value_refs(
            field,
            v,
            TypeView::Array(Box::new(inner)),
        ) == value_refs(field, ValueView::Sequence(items), TypeView::Array(Box::new(inner))),
        !(inner is Ref) && !(inner is Array) ==> value_refs(field, v, inner) == Seq::<
            RefView,
        >::empty(),
{
    lemma_core(v);
    assert forall|s: Seq<char>| #[trigger]
        carries(v, ValueView::String(s)) && value_problem(
            v,
            TypeView::Ref(target),
        ) is None implies value_refs(field, v, TypeView::Ref(target)) == seq![
        RefView { field, path: s },
    ] by {
        lemma_carries(v, ValueView::String(s));
    }
    let t = TypeView::Array(Box::new(inner));
    assert(items.push(item).drop_last() =~= items);
    assert(value_refs(field, ValueView::Sequence(items.push(item)), t) == item_refs(
        field,
        items.push(item),
        inner,
    ));
    assert(value_refs(field, ValueView::Sequence(items), t) == item_refs(field, items, inner));
    assert(value_refs(field, ValueView::Sequence(Seq::empty()), t) == item_refs(
        field,
        Seq::empty(),
        inner,
    ));
    if carries(v, ValueView::Sequence(items)) {
        lemma_carries(v, ValueView::Sequence(items));
        assert(value_refs(field, v, t) == item_refs(field, items, inner));
    }
}

/// The references of a record are those of its fields, in the order of the definitions.
pub proof fn law_references_of_records(record: RecordView, fields: Seq<FieldView>, def: FieldView)
    ensures
        record_refs(record, Seq::empty()) == Seq::<RefView>::empty(),
        record.field(def.name) matches Some(v) ==> record_refs(record, fields.push(def))
            == record_refs(record, fields) + value_refs(def.name, v, def.field_type),
        record.field(def.name) is None ==> record_refs(record, fields.push(def)) == record_refs(
            record,
            fields,
        ),
{
    assert(fields.push(def).drop_last() =~= fields);
}

/// What is reported of where references lead: one that leads nowhere is a warning, one
/// that leads to a place outside the database an error, any other is fine; each at most
/// once, in their order.
pub proof fn law_reports_on_references(
    path: Seq<char>,
    refs: Seq<RefView>,
    targets: Seq<Option<String>>,
    root: Seq<char>,
    n: nat,
)
    requires
        n < refs.len(),
    ensures
        ref_problems(path, refs, targets, root, 0) == Seq::<ProblemView>::empty(),
        ({
            let before = ref_problems(path, refs, targets, root, n);
            let after = ref_problems(path, refs, targets, root, n + 1);
            let found = target_at(targets, n as int);
            let inside = found is Some && within(found->Some_0, root);
            &&& inside ==> after == before
            &&& !inside ==> {
                &&& after.len() == before.len() + 1
                &&& after.drop_last() == before
                &&& after.last().field == refs[n as int].field
                &&& after.last().record_path == path
                &&& after.last().severity == Severity::Warning <==> found is None
                &&& after.last().severity == Severity::Error <==> found is Some
            }
        }),
        n < targets.len() && targets[n as int] is Some ==> target_at(targets, n as int) == Some(
            targets[n as int]->Some_0@,
        ),
        n >= targets.len() || targets[n as int] is None ==> target_at(targets, n as int) is None,
{
    let before = ref_problems(path, refs, targets, root, n);
    let after = ref_problems(path, refs, targets, root, n + 1);
    if after.len() > 0 {
        assert(before.push(after.last()).drop_last() =~= before);
    }
}

} // verus!
