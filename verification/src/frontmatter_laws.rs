//! What frontmatter means, stated on how it is written.

use vstd::prelude::*;

use crate::frontmatter::{
    closing_line, decimal_int, fast_value, float_shape, head_value, int_shape, line_end,
    line_entries, line_entry, number_shaped, opened, raw_split, resolve, resolve_parts, resolve_plain,
    separator_from, unmarked, unsigned, BOM,
};
use crate::head::{field_text, first_after_key, head_text};
use crate::schema_laws::lemma_blank;
use crate::text::{
    all_digits, decimal, digits_value, is_digit, is_space, join, lemma_find_from, lemma_join_split,
    lemma_trim_same, lines, signed_decimal, split_on, starts_with, trim, trim_end,
};
use crate::text_laws::{law_decimal_spells_the_number, law_trimming_forgets_outer_space, only_space};
use crate::value::ValueView;
use crate::value_laws::whole;
use crate::yaml::yaml_parse;

verus! {

// ---------------------------------------------------------------------------
// Values
// ---------------------------------------------------------------------------

/// White space around a value makes no difference.
pub proof fn law_values_may_stand_in_space(before: Seq<char>, s: Seq<char>, after: Seq<char>)
    requires
        only_space(before),
        only_space(after),
    ensures
        resolve(before + s + after) == resolve(s),
{
    law_trimming_forgets_outer_space(before, s, after);
}

/// A blank text and the words for null are null, the words for the truth values those,
/// and nothing else is read as one.
pub proof fn law_constants(s: Seq<char>)
    requires
        trim(s) == s,
    ensures
        resolve(s) == Some(ValueView::Null) <==> s.len() == 0 || s == "null"@ || s == "Null"@ || s
            == "NULL"@ || s == "~"@,
        resolve(s) == Some(ValueView::Bool(true)) <==> s == "true"@ || s == "True"@ || s == "TRUE"@,
        resolve(s) == Some(ValueView::Bool(false)) <==> s == "false"@ || s == "False"@ || s
            == "FALSE"@,
{
    reveal_strlit("null");
    reveal_strlit("Null");
    reveal_strlit("NULL");
    reveal_strlit("~");
    reveal_strlit("true");
    reveal_strlit("True");
    reveal_strlit("TRUE");
    reveal_strlit("false");
    reveal_strlit("False");
    reveal_strlit("FALSE");
    assert("null"@[0] == 'n' && "Null"@[0] == 'N' && "NULL"@[0] == 'N' && "~"@[0] == '~');
    assert("true"@[0] == 't' && "True"@[0] == 'T' && "TRUE"@[0] == 'T');
    assert("false"@[0] == 'f' && "False"@[0] == 'F' && "FALSE"@[0] == 'F');
}

proof fn lemma_first_of_names(s: Seq<char>)
    ensures
        crate::frontmatter::names_constant(s) ==> s.len() > 0 && (s[0] == 'n' || s[0] == 'N' || s[0]
            == '~' || s[0] == 't' || s[0] == 'T' || s[0] == 'f' || s[0] == 'F'),
{
    reveal_strlit("null");
    reveal_strlit("Null");
    reveal_strlit("NULL");
    reveal_strlit("~");
    reveal_strlit("true");
    reveal_strlit("True");
    reveal_strlit("TRUE");
    reveal_strlit("false");
    reveal_strlit("False");
    reveal_strlit("FALSE");
}

/// The decimal text of an integer of the signed range is read as that integer.
pub proof fn law_integers_are_read(n: int)
    requires
        i64::MIN <= n <= i64::MAX,
    ensures
        resolve(signed_decimal(n)) matches Some(ValueView::Number(x)) && whole(x) == Some(n),
{
    let s = signed_decimal(n);
    let m = if n < 0 {
        (-n) as nat
    } else {
        n as nat
    };
    let b = decimal(m);
    law_decimal_spells_the_number(m);
    assert(is_digit(b[0]));
    assert(is_digit(b[b.len() - 1]));
    assert((seq!['-'] + b).skip(1) =~= b);
    assert(s.last() == b.last());
    assert(s[0] == '-' || s[0] == b[0]);
    lemma_trim_same(s);
    assert(unsigned(s) == b);
    lemma_first_of_names(s);
    if m == 0 {
        assert(b =~= seq!['0']);
    }
    assert(all_digits(b));
    assert(int_shape(s));
    assert(decimal_int(s) == Some(n));
}

proof fn lemma_decimal_of_digits(b: Seq<char>)
    requires
        b.len() > 0,
        all_digits(b),
        b[0] != '0' || b.len() == 1,
    ensures
        decimal(digits_value(b)) == b,
        b[0] != '0' ==> digits_value(b) > 0,
    decreases b.len(),
{
    let d = b.last() as int - 48;
    assert(is_digit(b[b.len() - 1]));
    assert(0 <= d <= 9);
    let front = b.drop_last();
    if b.len() == 1 {
        reveal_with_fuel(digits_value, 2);
        assert(digits_value(front) == 0);
        assert(digits_value(b) == d);
        assert(decimal(d as nat) =~= b) by {
            assert((d + 48) as char == b[0]);
        }
    } else {
        assert forall|i: int| 0 <= i < front.len() implies is_digit(#[trigger] front[i]) by {
            assert(is_digit(b[i]));
        }
        lemma_decimal_of_digits(front);
        let n = digits_value(b);
        let f = digits_value(front);
        assert(n == f * 10 + d);
        assert(n / 10 == f && n % 10 == d);
        assert((d + 48) as char == b.last());
        assert(b =~= front.push(b.last()));
    }
}

/// What is read as a number is an integer in decimal digits without zeros in front,
/// perhaps with a sign; it means what it says.
pub proof fn law_numbers_are_written_plainly(raw: Seq<char>)
    ensures
        resolve(raw) matches Some(ValueView::Number(x)) ==> (whole(x) matches Some(n) && (trim(raw)
            == signed_decimal(n) || (n >= 0 && trim(raw) == seq!['+'] + decimal(n as nat)) || (n
            == 0 && trim(raw) == seq!['-', '0']))),
{
    let s = trim(raw);
    if let Some(ValueView::Number(x)) = resolve(raw) {
        let b = unsigned(s);
        let n = decimal_int(s)->Some_0;
        assert(whole(x) == Some(n));
        assert(b.len() > 0 && all_digits(b) && (b[0] != '0' || b.len() == 1));
        lemma_decimal_of_digits(b);
        if s[0] == '-' || s[0] == '+' {
            assert(s =~= seq![s[0]] + b);
            if n == 0 && s[0] == '-' {
                assert(digits_value(b) == 0);
                assert(decimal(0) =~= seq!['0']);
                assert(s =~= seq!['-', '0']);
            }
        } else {
            assert(b == s);
        }
    }
}

/// The characters that a plain text cannot begin with.
pub open spec fn opens_other_syntax(c: char) -> bool {
    seq![
        '[', ']', '{', '}', '&', '*', '!', '|', '>', '%', '@', '`', '"', '\'', '#', ',', '?', ':',
        '-',
    ].contains(c)
}

pub open spec fn is_sign(s: Seq<char>) -> bool {
    s.len() == 0 || s == seq!['+'] || s == seq!['-']
}

/// Digits, perhaps with one point among them or at an end.
pub open spec fn is_mantissa(m: Seq<char>) -> bool {
    exists|a: Seq<char>, b: Seq<char>|
        #![trigger all_digits(a), all_digits(b)]
        all_digits(a) && all_digits(b) && a.len() + b.len() > 0 && (m == a + b || m == a + seq!['.']
            + b)
}

/// A sign, then digits with a point, or with an exponent.
pub open spec fn is_double_text(s: Seq<char>, sign: Seq<char>, m: Seq<char>, e: Seq<char>) -> bool {
    &&& s == sign + m + e
    &&& is_sign(sign)
    &&& is_mantissa(m)
    &&& m.contains('.') || e.len() > 0
    &&& e.len() > 0 ==> is_exponent(e)
}

pub open spec fn is_exponent(e: Seq<char>) -> bool {
    exists|sign: Seq<char>, digits: Seq<char>|
        #![trigger is_sign(sign), all_digits(digits)]
        is_sign(sign) && all_digits(digits) && digits.len() > 0 && (e == seq!['e'] + sign + digits
            || e == seq!['E'] + sign + digits)
}

/// A text is read verbatim but for white space around it, and only what cannot be
/// anything else: not a word for null or a truth value, not an integer, not a double,
/// without a character in front that opens other syntax, and with neither a comment
/// nor a colon that would make it a mapping.
pub proof fn law_texts_are_read_verbatim(raw: Seq<char>)
    ensures
        resolve(raw) matches Some(ValueView::String(t)) ==> {
            &&& t == trim(raw)
            &&& t.len() > 0
            &&& !opens_other_syntax(t[0])
            &&& !number_shaped(t)
            &&& t != "null"@ && t != "Null"@ && t != "NULL"@ && t != "~"@
            &&& t != "true"@ && t != "True"@ && t != "TRUE"@
            &&& t != "false"@ && t != "False"@ && t != "FALSE"@
            &&& forall|sign: Seq<char>, n: nat|
                #![trigger is_sign(sign), decimal(n)]
                is_sign(sign) ==> t != sign + decimal(n)
            &&& forall|sign: Seq<char>, m: Seq<char>, e: Seq<char>|
                !#[trigger] is_double_text(t, sign, m, e)
            &&& forall|i: int|
                0 <= i < t.len() && #[trigger] t[i] == '#' && i > 0 ==> t[i - 1] != ' ' && t[i - 1]
                    != '\t'
            &&& forall|i: int|
                0 <= i < t.len() && #[trigger] t[i] == ':' ==> i + 1 < t.len() && t[i + 1] != ' '
                    && t[i + 1] != '\t'
        },
{
    let t = trim(raw);
    if let Some(ValueView::String(_)) = resolve(raw) {
        lemma_indicator(t[0]);
        assert forall|sign: Seq<char>, n: nat|
            #![trigger is_sign(sign), decimal(n)]
            is_sign(sign) implies t != sign + decimal(n) by {
            if t == sign + decimal(n) {
                law_decimal_spells_the_number(n);
                let b = decimal(n);
                assert(is_digit(b[0]));
                lemma_unsigned(sign, b);
                if n == 0 {
                    assert(b =~= seq!['0']);
                }
                assert(int_shape(t));
            }
        }
        assert forall|sign: Seq<char>, m: Seq<char>, e: Seq<char>|
            !#[trigger] is_double_text(t, sign, m, e) by {
            if is_double_text(t, sign, m, e) {
                lemma_double_shape(t, sign, m, e);
            }
        }
        assert forall|i: int| 0 <= i < t.len() && #[trigger] t[i] == '#' && i > 0 implies t[i - 1]
            != ' ' && t[i - 1] != '\t' by {
            if t[i - 1] == ' ' || t[i - 1] == '\t' {
                assert(crate::frontmatter::is_blank(t[i - 1]) && t[(i - 1) + 1] == '#');
            }
        }
        assert forall|i: int| 0 <= i < t.len() && #[trigger] t[i] == ':' implies i + 1 < t.len()
            && t[i + 1] != ' ' && t[i + 1] != '\t' by {}
    }
}

pub proof fn lemma_indicator(c: char)
    ensures
        opens_other_syntax(c) <==> crate::frontmatter::is_indicator(c),
{
    let all = seq![
        '[', ']', '{', '}', '&', '*', '!', '|', '>', '%', '@', '`', '"', '\'', '#', ',', '?', ':',
        '-',
    ];
    assert(all.len() == 19);
    assert(all[0] == '[' && all[1] == ']' && all[2] == '{' && all[3] == '}' && all[4] == '&'
        && all[5] == '*' && all[6] == '!' && all[7] == '|' && all[8] == '>' && all[9] == '%'
        && all[10] == '@' && all[11] == '`' && all[12] == '"' && all[13] == '\'' && all[14] == '#'
        && all[15] == ',' && all[16] == '?' && all[17] == ':' && all[18] == '-');
    if opens_other_syntax(c) {
        let i = choose|i: int| 0 <= i < all.len() && all[i] == c;
        assert(0 <= i < 19);
    }
}

pub proof fn lemma_unsigned(sign: Seq<char>, b: Seq<char>)
    requires
        is_sign(sign),
        b.len() > 0,
        b[0] != '+',
        b[0] != '-',
    ensures
        unsigned(sign + b) == b,
{
    if sign.len() == 0 {
        assert(sign + b =~= b);
    } else {
        assert((sign + b).skip(1) =~= b);
    }
}

proof fn lemma_exponent_position(s: Seq<char>, from: int, i: int)
    requires
        0 <= from <= i < s.len(),
        s[i] == 'e' || s[i] == 'E',
        forall|j: int| from <= j < i ==> #[trigger] s[j] != 'e' && s[j] != 'E',
    ensures
        crate::frontmatter::exponent_from(s, from) == Some(i),
    decreases i - from,
{
    if from < i {
        lemma_exponent_position(s, from + 1, i);
    }
}

proof fn lemma_no_exponent(s: Seq<char>, from: int)
    requires
        0 <= from <= s.len(),
        forall|j: int| from <= j < s.len() ==> #[trigger] s[j] != 'e' && s[j] != 'E',
    ensures
        crate::frontmatter::exponent_from(s, from) is None,
    decreases s.len() - from,
{
    if from < s.len() {
        lemma_no_exponent(s, from + 1);
    }
}

pub proof fn lemma_double_shape(t: Seq<char>, sign: Seq<char>, m: Seq<char>, e: Seq<char>)
    requires
        is_double_text(t, sign, m, e),
    ensures
        float_shape(t),
{
    let (a, b) = choose|a: Seq<char>, b: Seq<char>|
        #![trigger all_digits(a), all_digits(b)]
        all_digits(a) && all_digits(b) && a.len() + b.len() > 0 && (m == a + b || m == a + seq!['.']
            + b);
    let dotted = m == a + seq!['.'] + b;
    assert forall|i: int| 0 <= i < m.len() implies (is_digit(#[trigger] m[i]) || m[i] == '.') by {
        if i < a.len() {
            assert(is_digit(a[i]));
        } else if dotted {
            if i > a.len() {
                assert(is_digit(b[i - a.len() - 1]));
            }
        } else {
            assert(is_digit(b[i - a.len()]));
        }
    }
    assert(crate::frontmatter::mantissa_shape(m)) by {
        assert forall|i: int, j: int| 0 <= i < j < m.len() implies !(m[i] == '.' && m[j] == '.') by {
            assert forall|k: int| 0 <= k < m.len() && m[k] == '.' implies dotted && k == a.len() by {
                if k < a.len() {
                    assert(is_digit(a[k]));
                } else if m == a + seq!['.'] + b {
                    if k > a.len() {
                        assert(is_digit(b[k - a.len() - 1]));
                    }
                } else {
                    assert(is_digit(b[k - a.len()]));
                }
            }
        }
        if a.len() > 0 {
            assert(is_digit(a[0]) && m[0] == a[0]);
        } else {
            assert(is_digit(b[0]));
            if dotted {
                assert(m[1] == b[0]);
            } else {
                assert(m[0] == b[0]);
            }
        }
    }
    let body = m + e;
    assert(sign + m + e =~= sign + body);
    assert(body[0] == m[0]);
    assert(is_digit(m[0]) || m[0] == '.');
    lemma_unsigned(sign, body);
    if e.len() > 0 {
        let (x, d) = choose|x: Seq<char>, d: Seq<char>|
            #![trigger is_sign(x), all_digits(d)]
            is_sign(x) && all_digits(d) && d.len() > 0 && (e == seq!['e'] + x + d || e == seq!['E']
                + x + d);
        let i = m.len() as int;
        assert(body[i] == e[0]);
        assert forall|j: int| 0 <= j < i implies #[trigger] body[j] != 'e' && body[j] != 'E' by {
            assert(body[j] == m[j]);
        }
        lemma_exponent_position(body, 0, i);
        assert(body.take(i) =~= m);
        assert(body.skip(i + 1) =~= x + d);
        assert(is_digit(d[0]));
        lemma_unsigned(x, d);
    } else {
        assert(body =~= m);
        assert forall|j: int| 0 <= j < body.len() implies #[trigger] body[j] != 'e' && body[j]
            != 'E' by {
            assert(body[j] == m[j]);
        }
        lemma_no_exponent(body, 0);
    }
}

/// A text that begins with a letter and holds neither a colon nor a hash sign, and is no
/// word for null or a truth value, is read as that text.
pub proof fn law_words_are_texts(s: Seq<char>)
    requires
        s.len() > 0,
        'a' <= s[0] <= 'z' || 'A' <= s[0] <= 'Z',
        !is_space(s.last()),
        !s.contains(':'),
        !s.contains('#'),
        s != "null"@ && s != "Null"@ && s != "NULL"@,
        s != "true"@ && s != "True"@ && s != "TRUE"@,
        s != "false"@ && s != "False"@ && s != "FALSE"@,
    ensures
        resolve(s) == Some(ValueView::String(s)),
{
    lemma_trim_same(s);
    reveal_strlit("~");
    assert("~"@[0] == '~');
    lemma_indicator(s[0]);
    assert(unsigned(s) == s);
    assert(!int_shape(s)) by {
        if all_digits(s) {
            assert(is_digit(s[0]));
        }
    }
    assert(!float_shape(s)) by {
        reveal_strlit(".inf");
        reveal_strlit("+.inf");
        reveal_strlit("-.inf");
        reveal_strlit(".nan");
        let l = crate::frontmatter::lowered(s);
        assert(l[0] == crate::frontmatter::lower(s[0]));
        assert('a' <= l[0] <= 'z');
        assert(".inf"@[0] == '.' && "+.inf"@[0] == '+' && "-.inf"@[0] == '-' && ".nan"@[0] == '.');
        if let Some(i) = crate::frontmatter::exponent_from(s, 0) {
            lemma_exponent_found(s, 0);
            let m = s.take(i);
            if crate::frontmatter::mantissa_shape(m) {
                if i > 0 {
                    assert(is_digit(m[0]) || m[0] == '.');
                }
            }
        } else if crate::frontmatter::mantissa_shape(s) {
            assert(is_digit(s[0]) || s[0] == '.');
        }
    }
    assert(!crate::frontmatter::has_comment(s)) by {
        if crate::frontmatter::has_comment(s) {
            let i = choose|i: int|
                0 <= i && i + 1 < s.len() && crate::frontmatter::is_blank(#[trigger] s[i]) && s[i
                    + 1] == '#';
            assert(s.contains(s[i + 1]));
        }
    }
    assert(!crate::frontmatter::has_separator(s)) by {
        if crate::frontmatter::has_separator(s) {
            let i = choose|i: int|
                0 <= i < s.len() && #[trigger] s[i] == ':' && (i + 1 == s.len()
                    || crate::frontmatter::is_blank(s[i + 1]));
            assert(s.contains(s[i]));
        }
    }
}

pub proof fn lemma_exponent_found(s: Seq<char>, from: int)
    requires
        0 <= from <= s.len(),
    ensures
        crate::frontmatter::exponent_from(s, from) matches Some(i) ==> from <= i < s.len(),
    decreases s.len() - from,
{
    if from < s.len() {
        lemma_exponent_found(s, from + 1);
    }
}

/// The characters that need more than a plain sequence in brackets.
pub open spec fn needs_quoting(s: Seq<char>) -> bool {
    exists|i: int|
        0 <= i < s.len() && (#[trigger] s[i] == '[' || s[i] == ']' || s[i] == '{' || s[i] == '}'
            || s[i] == '"' || s[i] == '\'' || s[i] == ':')
}

/// The values of a list of texts, where each has one.
pub open spec fn values_of(parts: Seq<Seq<char>>) -> Seq<ValueView> {
    Seq::new(parts.len(), |i: int| resolve(parts[i])->Some_0)
}

proof fn lemma_resolve_parts(parts: Seq<Seq<char>>)
    requires
        forall|i: int|
            0 <= i < parts.len() ==> resolve(#[trigger] parts[i]) is Some && !only_space(parts[i])
                && !needs_quoting(parts[i]),
    ensures
        resolve_parts(parts) == Some(values_of(parts)),
    decreases parts.len(),
{
    if parts.len() > 0 {
        let front = parts.drop_last();
        let last = parts.last();
        assert forall|i: int| 0 <= i < front.len() implies resolve(#[trigger] front[i]) is Some
            && !only_space(front[i]) && !needs_quoting(front[i]) by {
            assert(front[i] == parts[i]);
        }
        lemma_resolve_parts(front);
        assert(parts[parts.len() - 1] == last);
        lemma_blank(last);
        let t = trim(last);
        crate::text::lemma_trim(last);
        assert(t[0] != '[') by {
            if t[0] == '[' {
                assert(t.contains('['));
                assert(last.contains('['));
                let i = choose|i: int| 0 <= i < last.len() && last[i] == '[';
                assert(last[i] == '[');
            }
        }
        assert(values_of(parts) =~= values_of(front).push(resolve(last)->Some_0));
    } else {
        assert(values_of(parts) =~= Seq::<ValueView>::empty());
    }
}

/// Plain values in brackets with commas between them are read as the sequence of those
/// values, in their order; brackets with nothing in them as the empty sequence.
pub proof fn law_sequences_in_brackets(parts: Seq<Seq<char>>, blank: Seq<char>)
    requires
        parts.len() > 0,
        forall|i: int|
            0 <= i < parts.len() ==> resolve(#[trigger] parts[i]) is Some && !only_space(parts[i])
                && !needs_quoting(parts[i]) && !parts[i].contains(','),
        !is_space(parts[0][0]),
        !is_space(parts.last().last()),
        only_space(blank),
    ensures
        resolve(seq!['['] + join(parts, ',') + seq![']']) == Some(
            ValueView::Sequence(values_of(parts)),
        ),
        resolve(seq!['['] + blank + seq![']']) == Some(ValueView::Sequence(Seq::empty())),
{
    let inner = join(parts, ',');
    let s = seq!['['] + inner + seq![']'];
    assert(s[0] == '[' && s.last() == ']');
    lemma_trim_same(s);
    assert(s.subrange(1, s.len() - 1) =~= inner);
    lemma_join_split(parts, ',');
    lemma_join_ends(parts, ',');
    lemma_trim_same(inner);
    lemma_resolve_parts(parts);
    assert(!crate::frontmatter::has_special(inner)) by {
        if crate::frontmatter::has_special(inner) {
            let i = choose|i: int|
                0 <= i < inner.len() && #[trigger] crate::frontmatter::special_at(inner, i);
            lemma_join_chars(parts, ',', i);
            let (k, j) = choose|k: int, j: int|
                #![trigger parts[k][j]]
                0 <= k < parts.len() && 0 <= j < parts[k].len() && parts[k][j] == inner[i];
            assert(needs_quoting(parts[k]));
        }
    }
    let e = seq!['['] + blank + seq![']'];
    assert(e[0] == '[' && e.last() == ']');
    lemma_trim_same(e);
    assert(e.subrange(1, e.len() - 1) =~= blank);
    lemma_blank(blank);
}

proof fn lemma_join_ends(parts: Seq<Seq<char>>, c: char)
    requires
        parts.len() > 0,
        parts[0].len() > 0,
        parts.last().len() > 0,
    ensures
        join(parts, c).len() > 0,
        join(parts, c)[0] == parts[0][0],
        join(parts, c).last() == parts.last().last(),
    decreases parts.len(),
{
    if parts.len() > 1 {
        let front = parts.drop_last();
        lemma_join_starts(front, c);
        assert(front[0] == parts[0]);
    }
}

proof fn lemma_join_starts(parts: Seq<Seq<char>>, c: char)
    requires
        parts.len() > 0,
        parts[0].len() > 0,
    ensures
        join(parts, c).len() > 0,
        join(parts, c)[0] == parts[0][0],
    decreases parts.len(),
{
    if parts.len() > 1 {
        lemma_join_starts(parts.drop_last(), c);
    }
}

proof fn lemma_join_chars(parts: Seq<Seq<char>>, c: char, i: int)
    requires
        0 <= i < join(parts, c).len(),
        join(parts, c)[i] != c,
    ensures
        exists|k: int, j: int|
            #![trigger parts[k][j]]
            0 <= k < parts.len() && 0 <= j < parts[k].len() && parts[k][j] == join(parts, c)[i],
    decreases parts.len(),
{
    if parts.len() == 1 {
        assert(parts[0][i] == join(parts, c)[i]);
    } else {
        let front = parts.drop_last();
        let n = join(front, c).len();
        if i < n {
            lemma_join_chars(front, c, i);
            let (k, j) = choose|k: int, j: int|
                #![trigger front[k][j]]
                0 <= k < front.len() && 0 <= j < front[k].len() && front[k][j] == join(front, c)[i];
            assert(parts[k][j] == join(parts, c)[i]);
        } else {
            assert(parts[parts.len() - 1][i - n - 1] == join(parts, c)[i]);
        }
    }
}

// ---------------------------------------------------------------------------
// Lines
// ---------------------------------------------------------------------------

proof fn lemma_separator(line: Seq<char>, from: int, i: int)
    requires
        0 <= from <= i,
        i + 1 < line.len(),
        line[i] == ':',
        line[i + 1] == ' ',
        forall|j: int| from <= j < i ==> #[trigger] line[j] != ':',
    ensures
        separator_from(line, from) == Some(i),
    decreases i - from,
{
    if from < i {
        assert(line[from] != ':');
        lemma_separator(line, from + 1, i);
    }
}

proof fn lemma_no_separator(line: Seq<char>, from: int)
    requires
        0 <= from,
        forall|j: int| from <= j && j + 1 < line.len() ==> #[trigger] line[j] != ':',
    ensures
        separator_from(line, from) is None,
    decreases line.len() - from,
{
    if from + 1 < line.len() {
        assert(line[from] != ':');
        lemma_no_separator(line, from + 1);
    }
}

/// A line with a key, a colon, a blank and a value is the entry of that key and value;
/// with nothing behind the colon, the value is null.
pub proof fn law_lines_are_entries(key: Seq<char>, value: Seq<char>, k: ValueView, v: ValueView)
    requires
        0 < key.len() <= 1024,
        key[0] != ' ',
        key[0] != '\t',
        key[0] != '.',
        !key.contains(':'),
        resolve(key) == Some(k),
        resolve(value) == Some(v),
    ensures
        line_entry(key + seq![':', ' '] + value) == Some((k, v)),
        line_entry(key + seq![':']) == Some((k, ValueView::Null)),
{
    reveal_strlit("...");
    let n = key.len() as int;
    let line = key + seq![':', ' '] + value;
    assert forall|j: int| 0 <= j < n implies #[trigger] line[j] != ':' by {
        assert(key.contains(key[j]));
        assert(line[j] == key[j]);
    }
    assert(line[n] == ':' && line[n + 1] == ' ');
    lemma_separator(line, 0, n);
    assert(line.take(n) =~= key);
    assert(line.skip(n + 2) =~= value);
    assert(line[0] == key[0]);
    if starts_with(line, "..."@) {
        assert(line.take(3)[0] == '.');
    }
    let short = key + seq![':'];
    assert forall|j: int| 0 <= j && j + 1 < short.len() implies #[trigger] short[j] != ':' by {
        assert(key.contains(key[j]));
        assert(short[j] == key[j]);
    }
    lemma_no_separator(short, 0);
    assert(short.drop_last() =~= key);
    assert(short[0] == key[0]);
    if starts_with(short, "..."@) {
        assert(short.take(3)[0] == '.');
    }
    let none = Seq::<char>::empty();
    crate::text::lemma_trim(none);
}

proof fn lemma_separator_found(line: Seq<char>, from: int)
    requires
        0 <= from,
    ensures
        separator_from(line, from) matches Some(i) ==> from <= i && i + 1 < line.len() && line[i]
            == ':' && line[i + 1] == ' ' && forall|j: int|
            from <= j < i ==> !(#[trigger] line[j] == ':' && line[j + 1] == ' '),
    decreases line.len() - from,
{
    if from + 1 < line.len() {
        if !(line[from] == ':' && line[from + 1] == ' ') {
            lemma_separator_found(line, from + 1);
        }
    }
}

/// Where a line is read as an entry, it is one: it starts at its first column, and its
/// key and its value are what stands before and behind its first colon with a blank, or
/// its last colon.
pub proof fn law_entries_are_lines(line: Seq<char>)
    ensures
        line_entry(line) matches Some((k, v)) ==> line[0] != ' ' && line[0] != '\t' && exists|
            key: Seq<char>,
            value: Seq<char>,
        |
            #![trigger resolve(key), resolve(value)]
            resolve(key) == Some(k) && resolve(value) == Some(v) && key.len() > 0 && (line == key
                + seq![':', ' '] + value || (line == key + seq![':'] && value.len() == 0)) && forall|
                j: int,
            |
                0 <= j && j + 1 < key.len() ==> !(#[trigger] key[j] == ':' && key[j + 1] == ' '),
{
    if let Some((k, v)) = line_entry(line) {
        lemma_separator_found(line, 0);
        let (key, value) = crate::frontmatter::around_separator(line)->Some_0;
        match separator_from(line, 0) {
            Some(i) => {
                assert(line =~= key + seq![':', ' '] + value);
                assert forall|j: int| 0 <= j && j + 1 < key.len() implies !(#[trigger] key[j] == ':'
                    && key[j + 1] == ' ') by {
                    assert(line[j] == key[j] && line[j + 1] == key[j + 1]);
                }
            },
            None => {
                assert(line =~= key + seq![':']);
                lemma_none_means_none(line, 0);
                assert forall|j: int| 0 <= j && j + 1 < key.len() implies !(#[trigger] key[j] == ':'
                    && key[j + 1] == ' ') by {
                    assert(line[j] == key[j] && line[j + 1] == key[j + 1]);
                }
            },
        }
        assert(resolve(key) == Some(k) && resolve(value) == Some(v));
    }
}

proof fn lemma_none_means_none(line: Seq<char>, from: int)
    requires
        0 <= from,
        separator_from(line, from) is None,
    ensures
        forall|j: int|
            from <= j && j + 1 < line.len() ==> !(#[trigger] line[j] == ':' && line[j + 1] == ' '),
    decreases line.len() - from,
{
    if from + 1 < line.len() {
        lemma_none_means_none(line, from + 1);
    }
}

/// A line that is read as an entry does not end a document, and its key is not too long
/// for one.
pub proof fn law_entries_do_not_end_documents(line: Seq<char>)
    ensures
        line_entry(line) is Some ==> !(starts_with(line, seq!['.', '.', '.']) && (line.len() == 3
            || line[3] == ' ' || line[3] == '\t')),
        line_entry(line) is Some ==> exists|i: int|
            0 < i <= 1024 && i < line.len() && #[trigger] line[i] == ':' && (i + 1 == line.len()
                || line[i + 1] == ' '),
{
    reveal_strlit("...");
    assert("..."@ =~= seq!['.', '.', '.']);
    if line_entry(line) is Some {
        lemma_separator_found(line, 0);
        let (key, value) = crate::frontmatter::around_separator(line)->Some_0;
        let i = key.len() as int;
        assert(line[i] == ':');
    }
}

/// Only ordinary text is read line by line: no control characters but line ends, no
/// white space but blanks, and no marks.
pub proof fn law_only_ordinary_heads_are_read(head: Seq<char>)
    ensures
        fast_value(head) is Some ==> forall|i: int|
            0 <= i < head.len() ==> {
                ||| #[trigger] head[i] == '\n'
                ||| head[i] == '\r' && i + 1 < head.len() && head[i + 1] == '\n'
                ||| head[i] as u32 >= 0x20 && !(0x7f <= head[i] as u32 <= 0xa0) && head[i] as u32
                    != 0xfeff && head[i] as u32 != 0xfffe && head[i] as u32 != 0xffff && (head[i]
                    == ' ' || !is_space(head[i]))
            },
{
    if fast_value(head) is Some {
        assert forall|i: int| 0 <= i < head.len() implies {
            ||| #[trigger] head[i] == '\n'
            ||| head[i] == '\r' && i + 1 < head.len() && head[i + 1] == '\n'
            ||| head[i] as u32 >= 0x20 && !(0x7f <= head[i] as u32 <= 0xa0) && head[i] as u32
                != 0xfeff && head[i] as u32 != 0xfffe && head[i] as u32 != 0xffff && (head[i] == ' '
                || !is_space(head[i]))
        } by {
            assert(crate::frontmatter::ordinary_at(head, i));
        }
    }
}

proof fn lemma_parts_resolved(parts: Seq<Seq<char>>)
    ensures
        resolve_parts(parts) matches Some(items) ==> items.len() == parts.len() && forall|i: int|
            0 <= i < parts.len() ==> !only_space(#[trigger] parts[i]) && resolve_plain(
                trim(parts[i]),
            ) == Some(items[i]),
    decreases parts.len(),
{
    if parts.len() > 0 && resolve_parts(parts) is Some {
        let front = parts.drop_last();
        lemma_parts_resolved(front);
        lemma_blank(parts.last());
        let items = resolve_parts(parts)->Some_0;
        let before = resolve_parts(front)->Some_0;
        assert forall|i: int| 0 <= i < parts.len() implies !only_space(#[trigger] parts[i])
            && resolve_plain(trim(parts[i])) == Some(items[i]) by {
            if i < front.len() {
                assert(front[i] == parts[i]);
                assert(items[i] == before[i]);
            }
        }
    }
}

/// What is read as a sequence stands in brackets; between them are neither brackets,
/// braces nor quotes, and its items are the values of what stands between its commas.
pub proof fn law_sequences_are_written_plainly(raw: Seq<char>)
    ensures
        resolve(raw) matches Some(ValueView::Sequence(items)) ==> {
            let s = trim(raw);
            let inner = trim(s.subrange(1, s.len() - 1));
            &&& s.len() >= 2 && s[0] == '[' && s.last() == ']'
            &&& forall|i: int|
                0 <= i < inner.len() ==> #[trigger] inner[i] != '[' && inner[i] != ']' && inner[i]
                    != '{' && inner[i] != '}' && inner[i] != '"' && inner[i] != '\''
            &&& forall|i: int|
                0 <= i && i + 1 < inner.len() ==> !(#[trigger] inner[i] == ':' && inner[i + 1]
                    == '?')
            &&& inner.len() == 0 ==> items.len() == 0
            &&& inner.len() > 0 ==> {
                let parts = split_on(inner, ',');
                &&& items.len() == parts.len()
                &&& forall|i: int|
                    0 <= i < parts.len() ==> !only_space(#[trigger] parts[i]) && resolve(parts[i])
                        == Some(items[i])
            }
        },
        resolve(raw) is Some ==> !(resolve(raw)->Some_0 is Mapping) && !(
        resolve(raw)->Some_0 is Tagged),
{
    if let Some(ValueView::Sequence(items)) = resolve(raw) {
        let s = trim(raw);
        let inner = crate::frontmatter::flow_inner(s);
        assert forall|i: int| 0 <= i < inner.len() implies #[trigger] inner[i] != '[' && inner[i]
            != ']' && inner[i] != '{' && inner[i] != '}' && inner[i] != '"' && inner[i] != '\'' by {
            assert(!crate::frontmatter::special_at(inner, i));
        }
        assert forall|i: int| 0 <= i && i + 1 < inner.len() implies !(#[trigger] inner[i] == ':'
            && inner[i + 1] == '?') by {
            assert(!crate::frontmatter::special_at(inner, i));
        }
        if inner.len() > 0 {
            let parts = split_on(inner, ',');
            lemma_parts_resolved(parts);
            crate::text_laws::law_splitting_cuts_at_separators(inner, ',');
            assert forall|i: int| 0 <= i < parts.len() implies !only_space(#[trigger] parts[i])
                && resolve(parts[i]) == Some(items[i]) by {
                let t = trim(parts[i]);
                lemma_blank(parts[i]);
                crate::text::lemma_trim(parts[i]);
                assert(t[0] != '[') by {
                    if t[0] == '[' {
                        assert(t.contains('['));
                        assert(parts[i].contains('['));
                        let j = choose|j: int| 0 <= j < parts[i].len() && parts[i][j] == '[';
                        lemma_piece_chars(inner, ',', i, j);
                        assert(inner.contains('['));
                        let k = choose|k: int| 0 <= k < inner.len() && inner[k] == '[';
                        assert(inner[k] == '[');
                    }
                }
            }
        }
    }
}

proof fn lemma_piece_chars(s: Seq<char>, c: char, i: int, j: int)
    requires
        0 <= i < split_on(s, c).len(),
        0 <= j < split_on(s, c)[i].len(),
    ensures
        s.contains(split_on(s, c)[i][j]),
    decreases s.len(),
{
    crate::text::lemma_split_on_len(s, c);
    if s.len() > 0 {
        let rest = s.drop_last();
        let before = split_on(rest, c);
        crate::text::lemma_split_on_len(rest, c);
        let all = split_on(s, c);
        let x = all[i][j];
        if i < before.len() && j < before[i].len() {
            lemma_piece_chars(rest, c, i, j);
            assert(x == before[i][j]);
            let k = choose|k: int| 0 <= k < rest.len() && rest[k] == x;
            assert(s[k] == x);
        } else {
            assert(x == s.last());
            assert(s[s.len() - 1] == x);
        }
    }
}

/// A head is read line by line: blank lines count for nothing, and every other line adds
/// its entry behind those before; one that is no entry, or repeats a key, is left to the
/// YAML parser with the whole head.
pub proof fn law_heads_are_read_line_by_line(all: Seq<Seq<char>>, line: Seq<char>)
    ensures
        line_entries(Seq::empty()) == Some(Seq::<(ValueView, ValueView)>::empty()),
        line_entries(all) is None ==> line_entries(all.push(line)) is None,
        line_entries(all) matches Some(entries) ==> {
            &&& only_space(line) ==> line_entries(all.push(line)) == Some(entries)
            &&& !only_space(line) && line_entry(line) is None ==> line_entries(all.push(line)) is None
            &&& !only_space(line) && line_entry(line) is Some ==> {
                let (k, v) = line_entry(line)->Some_0;
                let repeated = exists|i: int|
                    0 <= i < entries.len() && (#[trigger] entries[i]).0 == k;
                &&& repeated ==> line_entries(all.push(line)) is None
                &&& !repeated ==> line_entries(all.push(line)) == Some(entries.push((k, v)))
            }
        },
{
    assert(all.push(line).drop_last() =~= all);
    lemma_blank(line);
}

/// A head whose lines are all entries is the mapping of those entries; any other is what
/// the YAML parser makes of it.
pub proof fn law_heads_are_mappings_of_their_lines(head: Seq<char>)
    ensures
        fast_value(head) matches Some(v) ==> head_value(head) == Ok::<ValueView, Seq<char>>(v) && (
        v matches ValueView::Mapping(entries) && entries.len() > 0 && line_entries(lines(head))
            == Some(entries)),
        fast_value(head) is None ==> head_value(head) == yaml_parse(head),
        (line_entries(lines(head)) matches Some(entries) && entries.len() > 0) && (forall|i: int|
            0 <= i < head.len() ==> (head[i] == '\n' || ' ' <= #[trigger] head[i] <= '~'))
            ==> fast_value(head) == Some(
            ValueView::Mapping(line_entries(lines(head))->Some_0),
        ),
{
    if forall|i: int|
        0 <= i < head.len() ==> (head[i] == '\n' || ' ' <= #[trigger] head[i] <= '~') {
        assert forall|i: int| 0 <= i < head.len() implies #[trigger] crate::frontmatter::ordinary_at(
            head,
            i,
        ) by {
            assert(head[i] == '\n' || ' ' <= head[i] <= '~');
        }
    }
}

// ---------------------------------------------------------------------------
// Blocks
// ---------------------------------------------------------------------------

/// Three hyphens, and perhaps white space behind them.
pub open spec fn is_rule(line: Seq<char>) -> bool {
    line.len() >= 3 && line.take(3) == seq!['-', '-', '-'] && only_space(line.skip(3))
}

/// A line with its end, or the last one of the text.
pub open spec fn is_line(line: Seq<char>, rest: Seq<char>) -> bool {
    line.len() > 0 && !line.drop_last().contains('\n') && (line.last() == '\n' || rest.len() == 0)
}

/// Some line of the text is such a rule.
pub open spec fn has_rule(text: Seq<char>) -> bool {
    exists|a: Seq<char>, line: Seq<char>, b: Seq<char>| #[trigger] rule_stands(text, a, line, b)
}

pub open spec fn rule_stands(
    text: Seq<char>,
    a: Seq<char>,
    line: Seq<char>,
    b: Seq<char>,
) -> bool {
    text == a + line + b && (a.len() == 0 || a.last() == '\n') && is_line(line, b) && is_rule(line)
}

/// What opens a block, with or without a byte order mark.
#[verifier::opaque]
pub open spec fn opens_block(s: Seq<char>) -> bool {
    ||| s == seq!['-', '-', '-', '\n']
    ||| s == seq!['-', '-', '-', '\r', '\n']
    ||| s == seq!['\u{feff}', '-', '-', '-', '\n']
    ||| s == seq!['\u{feff}', '-', '-', '-', '\r', '\n']
}

proof fn lemma_rule(line: Seq<char>)
    ensures
        trim_end(line) == "---"@ <==> is_rule(line),
    decreases line.len(),
{
    reveal_strlit("---");
    let three = seq!['-', '-', '-'];
    assert("---"@ =~= three);
    if line.len() > 0 && is_space(line.last()) {
        let rest = line.drop_last();
        lemma_rule(rest);
        if is_rule(rest) {
            assert(line.take(3) =~= rest.take(3));
            assert forall|i: int| 0 <= i < line.skip(3).len() implies is_space(
                #[trigger] line.skip(3)[i],
            ) by {
                if i < rest.skip(3).len() {
                    assert(rest.skip(3)[i] == line.skip(3)[i]);
                }
            }
        }
        if is_rule(line) {
            assert(line.len() > 3) by {
                if line.len() == 3 {
                    assert(line.take(3)[2] == '-');
                }
            }
            assert(rest.take(3) =~= line.take(3));
            assert forall|i: int| 0 <= i < rest.skip(3).len() implies is_space(
                #[trigger] rest.skip(3)[i],
            ) by {
                assert(line.skip(3)[i] == rest.skip(3)[i]);
            }
        }
    } else {
        if is_rule(line) {
            if line.len() > 3 {
                assert(line.skip(3)[line.len() - 4] == line.last());
            }
            assert(line =~= line.take(3));
        }
        if line == three {
            assert(line.take(3) =~= three);
        }
    }
}

proof fn lemma_line_end(s: Seq<char>, a: Seq<char>, line: Seq<char>, b: Seq<char>)
    requires
        s == a + line + b,
        is_line(line, b),
    ensures
        line_end(s, a.len() as int) == a.len() + line.len(),
{
    let from = a.len() as int;
    lemma_find_from(s, '\n', from);
    let end = from + line.len();
    if line.last() == '\n' {
        assert(s[end - 1] == '\n');
        let i = crate::text::find_from(s, '\n', from)->Some_0;
        if i < end - 1 {
            assert(line.drop_last()[i - from] == '\n');
        }
    } else {
        if let Some(i) = crate::text::find_from(s, '\n', from) {
            if i < end - 1 {
                assert(line.drop_last()[i - from] == '\n');
            } else {
                assert(i == end - 1);
                assert(line.last() == s[i]);
            }
        }
    }
}

proof fn lemma_closing_is_rule(rest: Seq<char>, from: int)
    requires
        0 <= from <= rest.len(),
        from == 0 || rest[from - 1] == '\n',
    ensures
        closing_line(rest, from) matches Some((start, end)) ==> from <= start < end <= rest.len()
            && rule_stands(rest, rest.take(start), rest.subrange(start, end), rest.skip(end)),
    decreases rest.len() - from,
{
    if from < rest.len() {
        let end = line_end(rest, from);
        lemma_find_from(rest, '\n', from);
        assert(from < end <= rest.len());
        let line = rest.subrange(from, end);
        if trim_end(line) == "---"@ {
            lemma_rule(line);
            assert(rest =~= rest.take(from) + line + rest.skip(end));
            assert(!line.drop_last().contains('\n')) by {
                if line.drop_last().contains('\n') {
                    let i = choose|i: int|
                        0 <= i < line.drop_last().len() && line.drop_last()[i] == '\n';
                    assert(rest[from + i] == '\n');
                }
            }
        } else {
            if end < rest.len() {
                assert(rest[end - 1] == '\n');
                lemma_closing_is_rule(rest, end);
            }
        }
    }
}

proof fn lemma_opened(opener: Seq<char>, rest: Seq<char>)
    requires
        opens_block(opener),
    ensures
        opened(opener + rest) == Some(rest),
{
    reveal(opens_block);
    reveal_strlit("---\n");
    reveal_strlit("---\r\n");
    let content = opener + rest;
    let marked = opener[0] == BOM;
    let s = unmarked(content);
    let k: int = if marked {
        1
    } else {
        0
    };
    assert(content[0] == opener[0]);
    assert(s =~= opener.skip(k) + rest);
    let o = opener.skip(k);
    if o.len() == 4 {
        assert(o =~= "---\n"@);
        assert(s.take(4) =~= "---\n"@);
        assert(s.skip(4) =~= rest);
        if starts_with(s, "---\r\n"@) {
            assert(s.take(5)[3] == '\r');
            assert(s[3] == '\n');
        }
    } else {
        assert(o =~= "---\r\n"@);
        assert(s.take(5) =~= "---\r\n"@);
        assert(s.skip(5) =~= rest);
    }
}

/// A block is found between its opening line and the first line with three hyphens: the
/// head is what stands between them, or none where that is blank, and the body what
/// stands behind, verbatim.
pub proof fn law_blocks_are_found(
    opener: Seq<char>,
    head: Seq<char>,
    closer: Seq<char>,
    body: Seq<char>,
)
    requires
        opens_block(opener),
        head.len() == 0 || head.last() == '\n',
        !has_rule(head),
        is_line(closer, body),
        is_rule(closer),
    ensures
        raw_split(opener + head + closer + body) == Some(
            (
                if only_space(head) {
                    None
                } else {
                    Some(head)
                },
                body,
            ),
        ),
        head_text(opener + head + closer + body) == Some(head),
{
    let rest = head + closer + body;
    assert(opener + head + closer + body =~= opener + rest);
    lemma_opened(opener, rest);
    lemma_block_end(head, closer, body);
    lemma_blank(head);
    lemma_parts_of_block(opener + rest, head, closer, body);
}

proof fn lemma_parts_of_block(
    content: Seq<char>,
    head: Seq<char>,
    closer: Seq<char>,
    body: Seq<char>,
)
    requires
        opened(content) == Some(head + closer + body),
        closing_line(head + closer + body, 0) == Some(
            (head.len() as int, (head.len() + closer.len()) as int),
        ),
    ensures
        raw_split(content) == Some(
            (
                if trim(head).len() == 0 {
                    None
                } else {
                    Some(head)
                },
                body,
            ),
        ),
        head_text(content) == Some(head),
{
    let rest = head + closer + body;
    let n = head.len() as int;
    assert(rest.take(n) =~= head);
    assert(rest.skip(n + closer.len()) =~= body);
}

proof fn lemma_no_rule(head: Seq<char>)
    requires
        !has_rule(head),
    ensures
        closing_line(head, 0) is None,
{
    lemma_closing_is_rule(head, 0);
    if let Some((start, end)) = closing_line(head, 0) {
        assert(rule_stands(head, head.take(start), head.subrange(start, end), head.skip(end)));
    }
}

proof fn lemma_block_end(head: Seq<char>, closer: Seq<char>, body: Seq<char>)
    requires
        head.len() == 0 || head.last() == '\n',
        !has_rule(head),
        is_line(closer, body),
        is_rule(closer),
    ensures
        closing_line(head + closer + body, 0) == Some(
            (head.len() as int, (head.len() + closer.len()) as int),
        ),
{
    let rest = head + closer + body;
    lemma_no_rule(head);
    assert(rest =~= head + (closer + body));
    crate::frontmatter::lemma_closing_line_skips(head, closer + body, 0);
    lemma_line_end(rest, head, closer, body);
    let n = head.len() as int;
    let m = n + closer.len();
    assert(rest.subrange(n, m) =~= closer);
    lemma_rule(closer);
    assert(closing_line(rest, n) == Some((n, m)));
}

/// A block that no such line closes is an error.
pub proof fn law_blocks_must_be_closed(opener: Seq<char>, rest: Seq<char>)
    requires
        opens_block(opener),
        !has_rule(rest),
    ensures
        raw_split(opener + rest) is None,
        head_text(opener + rest) is None,
{
    lemma_opened(opener, rest);
    lemma_no_rule(rest);
}

/// The text begins with what opens a block.
pub open spec fn begins_with_block(content: Seq<char>) -> bool {
    exists|opener: Seq<char>, rest: Seq<char>| #[trigger] opens_with(content, opener, rest)
}

pub open spec fn opens_with(content: Seq<char>, opener: Seq<char>, rest: Seq<char>) -> bool {
    opens_block(opener) && content == opener + rest
}

/// A text that does not open with a block is body from its first character on.
pub proof fn law_texts_without_a_block(content: Seq<char>)
    requires
        !begins_with_block(content),
    ensures
        raw_split(content) == Some((None::<Seq<char>>, content)),
        head_text(content) is None,
{
    if opened(content) is Some {
        lemma_opener(content);
    }
}

proof fn lemma_opener(content: Seq<char>)
    requires
        opened(content) is Some,
    ensures
        begins_with_block(content),
{
    reveal_strlit("---\n");
    reveal_strlit("---\r\n");
    let s = unmarked(content);
    if starts_with(s, "---\r\n"@) {
        let plain = seq!['-', '-', '-', '\r', '\n'];
        assert("---\r\n"@ =~= plain);
        lemma_opener_parts(content, s, plain);
    } else {
        let plain = seq!['-', '-', '-', '\n'];
        assert("---\n"@ =~= plain);
        lemma_opener_parts(content, s, plain);
    }
}

proof fn lemma_opener_parts(content: Seq<char>, s: Seq<char>, plain: Seq<char>)
    requires
        s == unmarked(content),
        starts_with(s, plain),
        plain == seq!['-', '-', '-', '\n'] || plain == seq!['-', '-', '-', '\r', '\n'],
    ensures
        begins_with_block(content),
{
    reveal(opens_block);
    let rest = s.skip(plain.len() as int);
    assert(s =~= plain + rest);
    if content.len() > 0 && content[0] == BOM {
        let o = seq!['\u{feff}'] + plain;
        assert(content =~= o + rest);
        if plain.len() == 4 {
            assert(o =~= seq!['\u{feff}', '-', '-', '-', '\n']);
        } else {
            assert(o =~= seq!['\u{feff}', '-', '-', '-', '\r', '\n']);
        }
        assert(opens_with(content, o, rest));
    } else {
        assert(opens_with(content, plain, rest));
    }
}

// ---------------------------------------------------------------------------
// Looking for one line
// ---------------------------------------------------------------------------

proof fn lemma_first_after_key(all: Seq<Seq<char>>, key: Seq<char>, from: int, i: int)
    requires
        0 <= from <= i < all.len(),
        starts_with(all[i], key + seq![':']),
        forall|j: int| from <= j < i ==> !starts_with(#[trigger] all[j], key + seq![':']),
    ensures
        first_after_key(all, key, from) == Some(all[i].skip(key.len() as int + 1)),
    decreases i - from,
{
    lemma_after_key(all[from], key);
    if from < i {
        lemma_first_after_key(all, key, from + 1, i);
    }
}

proof fn lemma_after_key(line: Seq<char>, key: Seq<char>)
    ensures
        crate::head::after_key(line, key) is Some <==> starts_with(line, key + seq![':']),
{
    let p = key + seq![':'];
    let n = key.len() as int;
    if starts_with(line, p) {
        assert(line.take(n) =~= line.take(n + 1).take(n));
        assert(p.take(n) =~= key);
        assert(line.take(n + 1)[n] == p[n]);
    }
    if crate::head::after_key(line, key) is Some {
        assert(line.take(n + 1) =~= line.take(n).push(line[n]));
        assert(p =~= key.push(':'));
    }
}

proof fn lemma_no_key(all: Seq<Seq<char>>, key: Seq<char>, from: int)
    requires
        0 <= from,
        forall|j: int| from <= j < all.len() ==> !starts_with(#[trigger] all[j], key + seq![':']),
    ensures
        first_after_key(all, key, from) is None,
    decreases all.len() - from,
{
    if from < all.len() {
        lemma_after_key(all[from], key);
        lemma_no_key(all, key, from + 1);
    }
}

/// The text of a field in a head is what stands behind the key and a colon in the first
/// line that begins with them, without white space around it.
pub proof fn law_field_texts(head: Seq<char>, key: Seq<char>, i: int)
    requires
        0 <= i < lines(head).len(),
        forall|j: int| 0 <= j < i ==> !starts_with(#[trigger] lines(head)[j], key + seq![':']),
    ensures
        starts_with(lines(head)[i], key + seq![':']) ==> field_text(head, key) == Some(
            trim(lines(head)[i].skip(key.len() as int + 1)),
        ),
        i == lines(head).len() - 1 && !starts_with(lines(head)[i], key + seq![':']) ==> field_text(
            head,
            key,
        ) is None,
{
    let all = lines(head);
    if starts_with(all[i], key + seq![':']) {
        lemma_first_after_key(all, key, 0, i);
    } else if i == all.len() - 1 {
        assert forall|j: int| 0 <= j < all.len() implies !starts_with(
            #[trigger] all[j],
            key + seq![':'],
        ) by {
            if j == i {
                assert(all[j] == all[i]);
            }
        }
        lemma_no_key(all, key, 0);
    }
}

} // verus!
