//! Which plain texts look like numbers, and which heads can be scanned line by line.

use vstd::prelude::*;

use crate::frontmatter::{
    all_scalars, decimal_int, exponent_from, fast_value, flat, flat_keys, flat_line, float_shape,
    flow_inner, flow_shaped, int_shape, is_blank, line_entries, line_entry, line_parts, lower,
    lowered, mantissa_shape, names_constant, number_shaped, ordinary, plain_decimal, plain_string,
    plain_string_key, resolve, resolve_parts, scalar_shaped, self_contained, special_float,
    unsigned,
};
use crate::frontmatter_laws::{
    is_double_text, is_exponent, is_mantissa, is_sign, lemma_double_shape, lemma_exponent_found,
    lemma_unsigned, opens_other_syntax,
};
use crate::text::{all_digits, digits_value, is_digit, is_hex_digit, lines, split_on, trim};
use crate::text_laws::only_space;
use crate::value::ValueView;

verus! {

/// Digits without a zero in front.
pub open spec fn is_count(b: Seq<char>) -> bool {
    b.len() > 0 && all_digits(b) && (b[0] != '0' || b.len() == 1)
}

/// A prefix for the base, and at least one digit of it.
pub open spec fn has_base(b: Seq<char>) -> bool {
    ||| b.len() > 2 && b[0] == '0' && b[1] == 'x' && forall|i: int|
        2 <= i < b.len() ==> is_hex_digit(#[trigger] b[i])
    ||| b.len() > 2 && b[0] == '0' && b[1] == 'o' && forall|i: int|
        2 <= i < b.len() ==> '0' <= #[trigger] b[i] <= '7'
    ||| b.len() > 2 && b[0] == '0' && b[1] == 'b' && forall|i: int|
        2 <= i < b.len() ==> #[trigger] b[i] == '0' || b[i] == '1'
}

/// A text looks like an integer exactly where it is digits without zeros in front, or
/// digits of another base behind its prefix, perhaps with a sign.
pub proof fn law_integer_shapes(s: Seq<char>)
    ensures
        int_shape(s) <==> exists|sign: Seq<char>, b: Seq<char>|
            #![trigger is_sign(sign), is_count(b)]
            #![trigger is_sign(sign), has_base(b)]
            is_sign(sign) && s == sign + b && (is_count(b) || has_base(b)),
{
    let b = unsigned(s);
    if int_shape(s) {
        let sign = s.take(s.len() - b.len());
        assert(s =~= sign + b);
        assert(is_sign(sign)) by {
            if sign.len() > 0 {
                assert(sign =~= seq![s[0]]);
            }
        }
        if plain_decimal(b) {
            assert(is_count(b)) by {
                if b == seq!['0'] {
                    assert(all_digits(b));
                }
            }
        } else {
            assert(has_base(b));
        }
    }
    if exists|sign: Seq<char>, b: Seq<char>|
        #![trigger is_sign(sign), is_count(b)]
        #![trigger is_sign(sign), has_base(b)]
        is_sign(sign) && s == sign + b && (is_count(b) || has_base(b)) {
        let (sign, c) = choose|sign: Seq<char>, b: Seq<char>|
            #![trigger is_sign(sign), is_count(b)]
            #![trigger is_sign(sign), has_base(b)]
            is_sign(sign) && s == sign + b && (is_count(b) || has_base(b));
        if is_count(c) {
            assert(is_digit(c[0]));
            lemma_unsigned(sign, c);
            if c[0] == '0' {
                assert(c =~= seq!['0']);
            }
        } else {
            lemma_unsigned(sign, c);
        }
    }
}

proof fn lemma_mantissa(m: Seq<char>)
    ensures
        mantissa_shape(m) ==> is_mantissa(m),
{
    if mantissa_shape(m) {
        let d = choose|i: int| 0 <= i < m.len() && is_digit(#[trigger] m[i]);
        if m.contains('.') {
            let k = choose|k: int| 0 <= k < m.len() && m[k] == '.';
            let a = m.take(k);
            let b = m.skip(k + 1);
            assert(all_digits(a)) by {
                assert forall|i: int| 0 <= i < a.len() implies is_digit(#[trigger] a[i]) by {
                    assert(a[i] == m[i]);
                    assert(is_digit(m[i]) || m[i] == '.');
                    assert(!(m[i] == '.' && m[k] == '.'));
                }
            }
            assert(all_digits(b)) by {
                assert forall|i: int| 0 <= i < b.len() implies is_digit(#[trigger] b[i]) by {
                    assert(b[i] == m[k + 1 + i]);
                    assert(is_digit(m[k + 1 + i]) || m[k + 1 + i] == '.');
                    assert(!(m[k] == '.' && m[k + 1 + i] == '.'));
                }
            }
            assert(m =~= a + seq!['.'] + b);
            assert(d != k);
        } else {
            let none = Seq::<char>::empty();
            assert(all_digits(m)) by {
                assert forall|i: int| 0 <= i < m.len() implies is_digit(#[trigger] m[i]) by {
                    assert(is_digit(m[i]) || m[i] == '.');
                    assert(m.contains(m[i]));
                }
            }
            assert(all_digits(none));
            assert(m =~= m + none);
        }
    }
}

/// The words for infinities and for what is no number, in letters of either case.
pub open spec fn is_special_word(s: Seq<char>) -> bool {
    ||| spelled_in_any_case(s, ".inf"@)
    ||| spelled_in_any_case(s, "+.inf"@)
    ||| spelled_in_any_case(s, "-.inf"@)
    ||| spelled_in_any_case(s, ".nan"@)
}

pub open spec fn spelled_in_any_case(s: Seq<char>, word: Seq<char>) -> bool {
    s.len() == word.len() && forall|i: int|
        0 <= i < s.len() ==> #[trigger] s[i] == word[i] || ('a' <= word[i] <= 'z' && s[i] as u32 + 32
            == word[i] as u32)
}

proof fn lemma_any_case(s: Seq<char>, word: Seq<char>)
    requires
        forall|i: int| 0 <= i < word.len() ==> !('A' <= #[trigger] word[i] <= 'Z'),
    ensures
        lowered(s) == word <==> spelled_in_any_case(s, word),
{
    let l = lowered(s);
    if l == word {
        assert forall|i: int| 0 <= i < s.len() implies #[trigger] s[i] == word[i] || ('a' <= word[i]
            <= 'z' && s[i] as u32 + 32 == word[i] as u32) by {
            assert(l[i] == lower(s[i]));
        }
    }
    if spelled_in_any_case(s, word) {
        assert forall|i: int| 0 <= i < s.len() implies l[i] == #[trigger] word[i] by {
            assert(l[i] == lower(s[i]));
            assert(s[i] == word[i] || ('a' <= word[i] <= 'z' && s[i] as u32 + 32 == word[i] as u32));
        }
        assert(l =~= word);
    }
}

/// A text looks like a double exactly where it is a word for one that is not finite, or
/// digits with a point or an exponent, perhaps with a sign.
pub proof fn law_double_shapes(s: Seq<char>)
    ensures
        float_shape(s) <==> is_special_word(s) || exists|
            sign: Seq<char>,
            m: Seq<char>,
            e: Seq<char>,
        | #[trigger]
            is_double_text(s, sign, m, e),
{
    reveal_strlit(".inf");
    reveal_strlit("+.inf");
    reveal_strlit("-.inf");
    reveal_strlit(".nan");
    lemma_any_case(s, ".inf"@);
    lemma_any_case(s, "+.inf"@);
    lemma_any_case(s, "-.inf"@);
    lemma_any_case(s, ".nan"@);
    assert(special_float(s) <==> is_special_word(s));
    if float_shape(s) && !special_float(s) {
        let body = unsigned(s);
        let sign = s.take(s.len() - body.len());
        assert(s =~= sign + body);
        assert(is_sign(sign)) by {
            if sign.len() > 0 {
                assert(sign =~= seq![s[0]]);
            }
        }
        lemma_exponent_found(body, 0);
        match exponent_from(body, 0) {
            Some(i) => {
                let m = body.take(i);
                let e = body.skip(i);
                lemma_mantissa(m);
                let x = body.skip(i + 1);
                let digits = unsigned(x);
                let own = x.take(x.len() - digits.len());
                assert(x =~= own + digits);
                assert(is_sign(own)) by {
                    if own.len() > 0 {
                        assert(own =~= seq![x[0]]);
                    }
                }
                lemma_exponent_letter(body, 0);
                assert(e =~= seq![body[i]] + own + digits);
                assert(is_exponent(e)) by {
                    assert(is_sign(own) && all_digits(digits));
                }
                assert(s =~= sign + m + e);
                assert(is_double_text(s, sign, m, e));
            },
            None => {
                let e = Seq::<char>::empty();
                lemma_mantissa(body);
                assert(s =~= sign + body + e);
                assert(is_double_text(s, sign, body, e));
            },
        }
    }
    if exists|sign: Seq<char>, m: Seq<char>, e: Seq<char>| #[trigger]
        is_double_text(s, sign, m, e) {
        let (sign, m, e) = choose|sign: Seq<char>, m: Seq<char>, e: Seq<char>| #[trigger]
            is_double_text(s, sign, m, e);
        lemma_double_shape(s, sign, m, e);
    }
}

proof fn lemma_exponent_letter(s: Seq<char>, from: int)
    requires
        0 <= from <= s.len(),
    ensures
        exponent_from(s, from) matches Some(i) ==> from <= i < s.len() && (s[i] == 'e' || s[i]
            == 'E'),
    decreases s.len() - from,
{
    if from < s.len() {
        lemma_exponent_letter(s, from + 1);
    }
}

/// A text looks like a number exactly where it looks like an integer or a double; an
/// integer in plain digits that fits is read as it.
pub proof fn law_number_shapes(s: Seq<char>)
    ensures
        number_shaped(s) <==> int_shape(s) || float_shape(s),
        decimal_int(s) matches Some(n) ==> number_shaped(s) && is_count(unsigned(s)) && (s[0]
            != '-' ==> n == digits_value(unsigned(s))) && (s[0] == '-' ==> n == -(digits_value(
            unsigned(s),
        ) as int)),
        is_count(unsigned(s)) && digits_value(unsigned(s)) <= i64::MAX ==> decimal_int(s) is Some,
{
    let b = unsigned(s);
    if b == seq!['0'] {
        assert(all_digits(b));
    }
    if is_count(b) && b[0] == '0' {
        assert(b =~= seq!['0']);
    }
}

/// A text needs no quoting exactly where it is not empty, begins with no character that
/// opens other syntax, and holds neither a comment nor a colon with a blank or the end
/// behind it. It can be a key where it is neither a number nor a word for a constant.
pub proof fn law_plain_texts(s: Seq<char>)
    ensures
        plain_string(s) <==> s.len() > 0 && !opens_other_syntax(s[0]) && (forall|i: int|
            0 < i < s.len() && #[trigger] s[i] == '#' ==> s[i - 1] != ' ' && s[i - 1] != '\t') && (
        forall|i: int|
            0 <= i < s.len() && #[trigger] s[i] == ':' ==> i + 1 < s.len() && s[i + 1] != ' ' && s[i
                + 1] != '\t'),
        plain_string_key(s) <==> plain_string(s) && !number_shaped(s) && !names_constant(s),
        scalar_shaped(s) <==> names_constant(s) || number_shaped(s) || plain_string(s),
{
    if s.len() > 0 {
        crate::frontmatter_laws::lemma_indicator(s[0]);
    }
    if plain_string(s) {
        assert forall|i: int| 0 < i < s.len() && #[trigger] s[i] == '#' implies s[i - 1] != ' '
            && s[i - 1] != '\t' by {
            if is_blank(s[i - 1]) {
                assert(s[(i - 1) + 1] == '#');
            }
        }
    }
    if forall|i: int|
        0 < i < s.len() && #[trigger] s[i] == '#' ==> s[i - 1] != ' ' && s[i - 1] != '\t' {
        assert(!crate::frontmatter::has_comment(s)) by {
            if crate::frontmatter::has_comment(s) {
                let i = choose|i: int|
                    0 <= i && i + 1 < s.len() && is_blank(#[trigger] s[i]) && s[i + 1] == '#';
                let k = i + 1;
                assert(s[k] == '#');
            }
        }
    }
}

// ---------------------------------------------------------------------------
// Flat heads
// ---------------------------------------------------------------------------

proof fn lemma_parts_shaped(parts: Seq<Seq<char>>)
    ensures
        resolve_parts(parts) is Some ==> all_scalars(parts),
    decreases parts.len(),
{
    if parts.len() > 0 && resolve_parts(parts) is Some {
        let front = parts.drop_last();
        lemma_parts_shaped(front);
        assert forall|i: int| 0 <= i < parts.len() implies scalar_shaped(
            trim(#[trigger] parts[i]),
        ) by {
            if i < front.len() {
                assert(front[i] == parts[i]);
            }
        }
    }
}

/// A value that can be read on its own is self-contained; what is self-contained and
/// cannot be read is a number that is no plain integer, or a sequence in brackets.
pub proof fn law_self_contained_values(val: Seq<char>)
    ensures
        resolve(val) is Some ==> self_contained(val),
        self_contained(val) && resolve(val) is None ==> ({
            let v = trim(val);
            (number_shaped(v) && decimal_int(v) is None) || (v.len() > 0 && v[0] == '[')
        }),
        (trim(val).len() > 0 && trim(val)[0] == '[') ==> (self_contained(val) <==> flow_shaped(
            trim(val),
        )),
        flow_shaped(val) ==> val.len() >= 2 && val[0] == '[' && val.last() == ']',
{
    let v = trim(val);
    if v.len() > 0 && v[0] == '[' {
        if resolve(val) is Some {
            let inner = flow_inner(v);
            if inner.len() > 0 {
                lemma_parts_shaped(split_on(inner, ','));
            }
        }
    }
}

/// A line that is read as an entry with a text as its key is one that can be scanned for
/// that key.
pub proof fn law_entries_can_be_scanned(line: Seq<char>)
    ensures
        line_entry(line) matches Some((ValueView::String(k), v)) ==> (flat_line(line) matches Some(
            (key, val),
        ) && key == k && resolve(val) == Some(v)),
        flat_line(line) matches Some((key, val)) ==> plain_string_key(key) && self_contained(val),
{
    if let Some((ValueView::String(k), v)) = line_entry(line) {
        let (key, val) = line_parts(line)->Some_0;
        law_self_contained_values(val);
        let t = trim(key);
        crate::text::lemma_trim(key);
        assert(t.len() == 0 || t[0] != '[');
        assert(plain_string_key(t));
    }
}

proof fn lemma_flat_keys(all: Seq<Seq<char>>)
    ensures
        (line_entries(all) matches Some(entries) && forall|i: int|
            0 <= i < entries.len() ==> (#[trigger] entries[i]).0 is String) ==> (flat_keys(
            all,
        ) matches Some(keys) && keys.len() == line_entries(all)->Some_0.len() && forall|i: int|
            0 <= i < keys.len() ==> ValueView::String(#[trigger] keys[i]) == line_entries(
                all,
            )->Some_0[i].0),
    decreases all.len(),
{
    if all.len() > 0 {
        if let Some(entries) = line_entries(all) {
            if forall|i: int| 0 <= i < entries.len() ==> (#[trigger] entries[i]).0 is String {
                let front = all.drop_last();
                let before = line_entries(front)->Some_0;
                assert forall|i: int| 0 <= i < before.len() implies (
                #[trigger] before[i]).0 is String by {
                    assert(before[i] == entries[i]);
                }
                lemma_flat_keys(front);
                let keys = flat_keys(front)->Some_0;
                if trim(all.last()).len() > 0 {
                    law_entries_can_be_scanned(all.last());
                    let (k, v) = line_entry(all.last())->Some_0;
                    assert(entries[entries.len() - 1] == (k, v));
                    let key = flat_line(all.last())->Some_0.0;
                    if keys.contains(key) {
                        let i = choose|i: int| 0 <= i < keys.len() && keys[i] == key;
                        assert(before[i].0 == k);
                    }
                }
            }
        }
    }
}

/// A head that is read line by line, with texts as its keys, can be scanned for single
/// fields.
pub proof fn law_read_heads_can_be_scanned(head: Seq<char>)
    ensures
        (fast_value(head) matches Some(ValueView::Mapping(entries)) && forall|i: int|
            0 <= i < entries.len() ==> (#[trigger] entries[i]).0 is String) ==> flat(head),
        flat(head) ==> ordinary(head) && (flat_keys(lines(head)) matches Some(keys) && keys.len()
            > 0),
{
    lemma_flat_keys(lines(head));
    if let Some(ValueView::Mapping(entries)) = fast_value(head) {
        assert(line_entries(lines(head)) == Some(entries));
        if forall|i: int| 0 <= i < entries.len() ==> (#[trigger] entries[i]).0 is String {
            assert(flat_keys(lines(head)) is Some);
            assert(flat_keys(lines(head))->Some_0.len() > 0);
        }
    }
}

/// The keys of a head are those of its lines, without blank ones; a line that cannot be
/// scanned, or a key that comes again, leaves none.
pub proof fn law_keys_line_by_line(all: Seq<Seq<char>>, line: Seq<char>)
    ensures
        flat_keys(Seq::empty()) == Some(Seq::<Seq<char>>::empty()),
        flat_keys(all) is None ==> flat_keys(all.push(line)) is None,
        flat_keys(all) matches Some(keys) ==> {
            &&& only_space(line) ==> flat_keys(all.push(line)) == Some(keys)
            &&& !only_space(line) && flat_line(line) is None ==> flat_keys(all.push(line)) is None
            &&& !only_space(line) && flat_line(line) is Some ==> {
                let key = flat_line(line)->Some_0.0;
                &&& keys.contains(key) ==> flat_keys(all.push(line)) is None
                &&& !keys.contains(key) ==> flat_keys(all.push(line)) == Some(keys.push(key))
            }
        },
{
    assert(all.push(line).drop_last() =~= all);
    crate::schema_laws::lemma_blank(line);
}

} // verus!
