//! What the operations on texts do, stated on their characters.

use vstd::prelude::*;

use crate::text::{
    char_rank, decimal, digit_char, digits_value, ends_with, find_char, hex, is_hex_digit, is_digit,
    is_space, join, lemma_find_from, lemma_ranked_total, lemma_split_append, lemma_split_on_len,
    lemma_split_pieces, lemma_trim, lex_lt, lines, path_order, ranks, signed_decimal, split_on,
    starts_with, text_order, trim, trim_end, trim_start, without_return, Order,
};

verus! {

// ---------------------------------------------------------------------------
// Order
// ---------------------------------------------------------------------------

/// Whether the character comes before the other: by its code; in paths the separator
/// comes before every other character.
pub open spec fn char_before(c: char, d: char, in_paths: bool) -> bool {
    if in_paths && (c == '/' || d == '/') {
        c == '/' && d != '/'
    } else {
        (c as u32) < (d as u32)
    }
}

/// The texts agree up to position `k`, where the first one ends or has a character
/// that comes before that of the second one.
pub open spec fn parts_below(a: Seq<char>, b: Seq<char>, k: int, in_paths: bool) -> bool {
    &&& 0 <= k <= a.len()
    &&& k < b.len()
    &&& a.take(k) == b.take(k)
    &&& k == a.len() || char_before(a[k], b[k], in_paths)
}

/// Whether the first text comes before the second one in a dictionary.
pub open spec fn comes_before(a: Seq<char>, b: Seq<char>, in_paths: bool) -> bool {
    exists|k: int| parts_below(a, b, k, in_paths)
}

proof fn lemma_lex_parts(a: Seq<char>, b: Seq<char>, in_paths: bool)
    ensures
        lex_lt(ranks(a, in_paths), ranks(b, in_paths)) <==> comes_before(a, b, in_paths),
    decreases b.len(),
{
    let x = ranks(a, in_paths);
    let y = ranks(b, in_paths);
    if b.len() == 0 {
    } else if a.len() == 0 {
        assert(a.take(0) =~= b.take(0));
        assert(parts_below(a, b, 0, in_paths));
    } else {
        let p = a.skip(1);
        let q = b.skip(1);
        lemma_lex_parts(p, q, in_paths);
        assert(x.skip(1) =~= ranks(p, in_paths));
        assert(y.skip(1) =~= ranks(q, in_paths));
        assert(x[0] == char_rank(a[0], in_paths) && y[0] == char_rank(b[0], in_paths));
        assert(char_before(a[0], b[0], in_paths) <==> x[0] < y[0]);
        if x[0] < y[0] {
            assert(a.take(0) =~= b.take(0));
            assert(parts_below(a, b, 0, in_paths));
        }
        if x[0] == y[0] {
            crate::text::lemma_rank_injective(a[0], b[0], in_paths);
            if comes_before(p, q, in_paths) {
                let k = choose|k: int| parts_below(p, q, k, in_paths);
                assert(a.take(k + 1) =~= seq![a[0]] + p.take(k));
                assert(b.take(k + 1) =~= seq![b[0]] + q.take(k));
                assert(parts_below(a, b, k + 1, in_paths));
            }
        }
        if comes_before(a, b, in_paths) {
            let k = choose|k: int| parts_below(a, b, k, in_paths);
            if k > 0 {
                assert(a.take(k)[0] == a[0] && b.take(k)[0] == b[0]);
                assert(p.take(k - 1) =~= a.take(k).skip(1));
                assert(q.take(k - 1) =~= b.take(k).skip(1));
                assert(parts_below(p, q, k - 1, in_paths));
            }
        }
    }
}

/// Texts are ordered as in a dictionary, by the codes of their characters, and paths
/// with the separator before all other characters; equal are the same texts only.
pub proof fn law_texts_compare_like_a_dictionary(a: Seq<char>, b: Seq<char>)
    ensures
        text_order(a, b) == Order::Less <==> comes_before(a, b, false),
        text_order(a, b) == Order::Equal <==> a == b,
        text_order(a, b) == Order::Greater <==> comes_before(b, a, false),
        crate::text::text_lt(a, b) <==> comes_before(a, b, false),
        path_order(a, b) == Order::Less <==> comes_before(a, b, true),
        path_order(a, b) == Order::Equal <==> a == b,
        path_order(a, b) == Order::Greater <==> comes_before(b, a, true),
        crate::text::path_lt(a, b) <==> comes_before(a, b, true),
{
    lemma_lex_parts(a, b, false);
    lemma_lex_parts(b, a, false);
    lemma_lex_parts(a, b, true);
    lemma_lex_parts(b, a, true);
    lemma_ranked_total(a, b, false);
    lemma_ranked_total(a, b, true);
}

/// Of two different texts one comes before the other, and never both.
pub proof fn law_dictionary_order_is_total(a: Seq<char>, b: Seq<char>, in_paths: bool)
    ensures
        comes_before(a, b, in_paths) || a == b || comes_before(b, a, in_paths),
        !(comes_before(a, b, in_paths) && comes_before(b, a, in_paths)),
        !comes_before(a, a, in_paths),
{
    law_texts_compare_like_a_dictionary(a, b);
    law_texts_compare_like_a_dictionary(a, a);
}

// ---------------------------------------------------------------------------
// Parts of texts
// ---------------------------------------------------------------------------

/// A text starts with another one exactly where it is that one and something more, and
/// ends with it where it is something before and that one.
pub proof fn law_starts_and_ends(s: Seq<char>, part: Seq<char>)
    ensures
        starts_with(s, part) <==> exists|rest: Seq<char>| s == #[trigger] (part + rest),
        ends_with(s, part) <==> exists|rest: Seq<char>| s == #[trigger] (rest + part),
{
    if starts_with(s, part) {
        let rest = s.skip(part.len() as int);
        assert(s =~= s.take(part.len() as int) + rest);
        assert(s == part + rest);
    }
    if exists|rest: Seq<char>| s == #[trigger] (part + rest) {
        let rest = choose|rest: Seq<char>| s == #[trigger] (part + rest);
        assert(s.take(part.len() as int) =~= part);
    }
    if ends_with(s, part) {
        let rest = s.take(s.len() - part.len());
        assert(s =~= rest + s.skip(s.len() - part.len()));
        assert(s == rest + part);
    }
    if exists|rest: Seq<char>| s == #[trigger] (rest + part) {
        let rest = choose|rest: Seq<char>| s == #[trigger] (rest + part);
        assert(s.skip(s.len() - part.len()) =~= part);
    }
}

/// The ten digits are digits, and no other character is; a hexadecimal digit is one of
/// those or of the first six letters.
pub proof fn law_digits(c: char)
    ensures
        is_digit(c) <==> exists|d: int| 0 <= d < 10 && c == #[trigger] digit_char(d),
        is_hex_digit(c) <==> is_digit(c) || 0x41 <= c as u32 <= 0x46 || 0x61 <= c as u32 <= 0x66,
        forall|d: int| 0 <= d < 10 ==> (#[trigger] digit_char(d)) as u32 == 0x30 + d,
{
    assert forall|d: int| 0 <= d < 10 implies (#[trigger] digit_char(d)) as u32 == 0x30 + d by {}
    if is_digit(c) {
        let d = c as u32 - 0x30;
        assert(digit_char(d) as u32 == c as u32);
        assert(c == digit_char(d));
    }
}

// ---------------------------------------------------------------------------
// Trimming
// ---------------------------------------------------------------------------

/// The code points of the characters that Unicode counts as white space.
pub open spec fn space_codes() -> Seq<int> {
    seq![
        0x9, 0xa, 0xb, 0xc, 0xd, 0x20, 0x85, 0xa0, 0x1680, 0x2000, 0x2001, 0x2002, 0x2003, 0x2004,
        0x2005, 0x2006, 0x2007, 0x2008, 0x2009, 0x200a, 0x2028, 0x2029, 0x202f, 0x205f, 0x3000,
    ]
}

/// White space is what Unicode counts as such; no letter, digit or other printing
/// character of ASCII is.
pub proof fn law_white_space(c: char)
    ensures
        is_space(c) <==> exists|i: int|
            0 <= i < space_codes().len() && #[trigger] space_codes()[i] == c as u32,
        0x21 <= c as u32 <= 0x7e ==> !is_space(c),
{
    let t = space_codes();
    assert(t.len() == 25);
    assert(t[0] == 0x9 && t[1] == 0xa && t[2] == 0xb && t[3] == 0xc && t[4] == 0xd && t[5] == 0x20
        && t[6] == 0x85 && t[7] == 0xa0 && t[8] == 0x1680 && t[9] == 0x2000 && t[10] == 0x2001
        && t[11] == 0x2002 && t[12] == 0x2003 && t[13] == 0x2004 && t[14] == 0x2005 && t[15]
        == 0x2006 && t[16] == 0x2007 && t[17] == 0x2008 && t[18] == 0x2009 && t[19] == 0x200a
        && t[20] == 0x2028 && t[21] == 0x2029 && t[22] == 0x202f && t[23] == 0x205f && t[24]
        == 0x3000);
    if exists|i: int| 0 <= i < t.len() && #[trigger] t[i] == c as u32 {
        let i = choose|i: int| 0 <= i < t.len() && #[trigger] t[i] == c as u32;
        assert(0 <= i < 25);
    }
}

pub open spec fn only_space(s: Seq<char>) -> bool {
    forall|i: int| 0 <= i < s.len() ==> is_space(#[trigger] s[i])
}

proof fn lemma_trim_start_parts(s: Seq<char>)
    ensures
        trim_start(s).len() <= s.len(),
        s.skip(s.len() - trim_start(s).len()) == trim_start(s),
        only_space(s.take(s.len() - trim_start(s).len())),
        trim_start(s).len() > 0 ==> !is_space(trim_start(s)[0]),
    decreases s.len(),
{
    if s.len() > 0 && is_space(s[0]) {
        let rest = s.skip(1);
        lemma_trim_start_parts(rest);
        let n = s.len() - trim_start(s).len();
        assert(s.skip(n) =~= rest.skip(n - 1));
        assert forall|i: int| 0 <= i < n implies is_space(#[trigger] s.take(n)[i]) by {
            if i > 0 {
                assert(rest.take(n - 1)[i - 1] == s[i]);
            }
        }
    } else {
        assert(s.skip(0) =~= s);
    }
}

proof fn lemma_trim_end_parts(s: Seq<char>)
    ensures
        trim_end(s).len() <= s.len(),
        s.take(trim_end(s).len() as int) == trim_end(s),
        only_space(s.skip(trim_end(s).len() as int)),
        trim_end(s).len() > 0 ==> !is_space(trim_end(s).last()),
    decreases s.len(),
{
    if s.len() > 0 && is_space(s.last()) {
        let rest = s.drop_last();
        lemma_trim_end_parts(rest);
        let n = trim_end(s).len() as int;
        assert(s.take(n) =~= rest.take(n));
        assert forall|i: int| 0 <= i < s.skip(n).len() implies is_space(#[trigger] s.skip(n)[i]) by {
            if n + i < rest.len() {
                assert(rest.skip(n)[i] == s[n + i]);
            }
        }
    } else {
        assert(s.take(s.len() as int) =~= s);
    }
}

/// Trimming takes away the white space at both ends and nothing else.
pub proof fn law_trimming_takes_space_only(s: Seq<char>)
    ensures
        exists|before: Seq<char>, after: Seq<char>|
            #![trigger only_space(before), only_space(after)]
            only_space(before) && only_space(after) && s == before + trim(s) + after,
        trim(s).len() > 0 ==> !is_space(trim(s)[0]) && !is_space(trim(s).last()),
{
    lemma_trim_start_parts(s);
    let t = trim_start(s);
    lemma_trim_end_parts(t);
    let before = s.take(s.len() - t.len());
    let after = t.skip(trim(s).len() as int);
    assert(s =~= before + trim(s) + after);
    assert(only_space(before) && only_space(after));
    lemma_trim(s);
}

/// White space at the ends makes no difference to trimming.
pub proof fn law_trimming_forgets_outer_space(before: Seq<char>, s: Seq<char>, after: Seq<char>)
    requires
        only_space(before),
        only_space(after),
    ensures
        trim(before + s + after) == trim(s),
    decreases before.len() + after.len(),
{
    let all = before + s + after;
    if before.len() > 0 {
        let rest = before.skip(1);
        assert forall|i: int| 0 <= i < rest.len() implies is_space(#[trigger] rest[i]) by {
            assert(rest[i] == before[i + 1]);
        }
        law_trimming_forgets_outer_space(rest, s, after);
        assert(is_space(before[0]));
        assert(all[0] == before[0]);
        assert(all.skip(1) =~= rest + s + after);
    } else if after.len() > 0 {
        let rest = after.drop_last();
        assert forall|i: int| 0 <= i < rest.len() implies is_space(#[trigger] rest[i]) by {
            assert(rest[i] == after[i]);
        }
        law_trimming_forgets_outer_space(before, s, rest);
        assert(is_space(after[after.len() - 1]));
        assert(all.last() == after.last());
        assert(all.drop_last() =~= before + s + rest);
        lemma_trim_drops_last(all);
    } else {
        assert(all =~= s);
    }
}

proof fn lemma_trim_drops_last(s: Seq<char>)
    requires
        s.len() > 0,
        is_space(s.last()),
    ensures
        trim(s) == trim(s.drop_last()),
    decreases s.len(),
{
    if is_space(s[0]) {
        if s.len() == 1 {
            assert(s.skip(1) =~= s.drop_last());
        } else {
            lemma_trim_drops_last(s.skip(1));
            assert(s.skip(1).drop_last() =~= s.drop_last().skip(1));
            assert(s.drop_last()[0] == s[0]);
        }
    } else {
        assert(s.len() > 1);
        assert(s.drop_last()[0] == s[0]);
    }
}

// ---------------------------------------------------------------------------
// Splitting and joining
// ---------------------------------------------------------------------------

/// Joining puts the separator between the pieces and nothing else.
pub proof fn law_joining(parts: Seq<Seq<char>>, p: Seq<char>, c: char)
    ensures
        join(Seq::empty(), c) == Seq::<char>::empty(),
        join(seq![p], c) == p,
        parts.len() > 0 ==> join(parts.push(p), c) == join(parts, c) + seq![c] + p,
{
    if parts.len() > 0 {
        assert(parts.push(p).drop_last() =~= parts);
        assert(join(parts, c).push(c) =~= join(parts, c) + seq![c]);
    }
}

/// Splitting cuts a text at every separator: the pieces hold none, and joined with it
/// they are the text again.
pub proof fn law_splitting_cuts_at_separators(s: Seq<char>, c: char)
    ensures
        join(split_on(s, c), c) == s,
        split_on(s, c).len() > 0,
        forall|i: int| 0 <= i < split_on(s, c).len() ==> !(#[trigger] split_on(s, c)[i]).contains(c),
    decreases s.len(),
{
    lemma_split_on_len(s, c);
    lemma_split_pieces(s, c);
    if s.len() > 0 {
        let rest = s.drop_last();
        law_splitting_cuts_at_separators(rest, c);
        let before = split_on(rest, c);
        let all = split_on(s, c);
        if s.last() == c {
            law_joining(before, Seq::empty(), c);
            assert(join(all, c) =~= rest.push(c));
        } else if before.len() == 1 {
            assert(all =~= seq![before[0].push(s.last())]);
            assert(join(before, c) == before[0]);
            assert(join(all, c) =~= rest.push(s.last()));
        } else {
            let front = before.drop_last();
            assert(before =~= front.push(before.last()));
            law_joining(front, before.last(), c);
            law_joining(front, before.last().push(s.last()), c);
            assert(all =~= front.push(before.last().push(s.last())));
            assert(join(all, c) =~= rest.push(s.last()));
        }
        assert(s =~= rest.push(s.last()));
    } else {
        assert(join(split_on(s, c), c) =~= s);
    }
}

/// Splitting what was put together from two texts with a separator between them gives
/// the pieces of both.
pub proof fn law_splitting_joined_texts(a: Seq<char>, b: Seq<char>, c: char)
    ensures
        split_on(a + seq![c] + b, c) == split_on(a, c) + split_on(b, c),
    decreases b.len(),
{
    lemma_split_on_len(a, c);
    lemma_split_on_len(b, c);
    if b.len() == 0 {
        let s = a + seq![c] + b;
        assert(s.drop_last() =~= a);
        assert(split_on(s, c) =~= split_on(a, c) + split_on(b, c));
    } else {
        let rest = b.drop_last();
        let s = a + seq![c] + b;
        law_splitting_joined_texts(a, rest, c);
        lemma_split_on_len(rest, c);
        assert(s.drop_last() =~= a + seq![c] + rest);
        assert(split_on(s, c) =~= split_on(a, c) + split_on(b, c));
    }
}

/// The lines of a text: each line that ends with a line feed, without it and without a
/// carriage return before it, and then what is left, where anything is.
pub proof fn law_lines(line: Seq<char>, rest: Seq<char>)
    requires
        !line.contains('\n'),
    ensures
        lines(Seq::empty()) == Seq::<Seq<char>>::empty(),
        line.len() > 0 ==> lines(line) == seq![line],
        lines(line + seq!['\n'] + rest) == seq![
            if line.len() > 0 && line.last() == '\r' {
                line.drop_last()
            } else {
                line
            },
        ] + lines(rest),
{
    let none = Seq::<char>::empty();
    assert(lines(none) =~= Seq::<Seq<char>>::empty());
    lemma_split_append(none, line, '\n');
    assert(none + line =~= line);
    assert(split_on(line, '\n') =~= seq![line]);
    if line.len() > 0 {
        assert(lines(line) =~= seq![line]);
    }
    law_splitting_joined_texts(line, rest, '\n');
    lemma_split_on_len(rest, '\n');
    let all = split_on(line + seq!['\n'] + rest, '\n');
    assert(all[0] == line);
    assert(lines(line + seq!['\n'] + rest) =~= seq![without_return(line)] + lines(rest));
}

/// The position found is the first one at which the character stands.
pub proof fn law_position_is_the_first(s: Seq<char>, c: char)
    ensures
        match find_char(s, c) {
            Some(i) => 0 <= i < s.len() && s[i] == c && !s.take(i).contains(c),
            None => !s.contains(c),
        },
{
    lemma_find_from(s, c, 0);
}

// ---------------------------------------------------------------------------
// Numbers
// ---------------------------------------------------------------------------

/// The decimal digits of a number stand for it, and have no zero in front.
pub proof fn law_decimal_spells_the_number(n: nat)
    ensures
        digits_value(decimal(n)) == n,
        decimal(n).len() > 0,
        forall|i: int| 0 <= i < decimal(n).len() ==> is_digit(#[trigger] decimal(n)[i]),
        decimal(n)[0] == '0' <==> n == 0,
        n < 10 ==> decimal(n).len() == 1,
    decreases n,
{
    let s = decimal(n);
    if n < 10 {
        assert(s.drop_last() =~= Seq::<char>::empty());
        assert(s.last() as int - 48 == n);
        reveal_with_fuel(digits_value, 2);
    } else {
        let front = decimal(n / 10);
        law_decimal_spells_the_number(n / 10);
        assert(s.drop_last() =~= front);
        assert(s.last() as int - 48 == n % 10);
        assert forall|i: int| 0 <= i < s.len() implies is_digit(#[trigger] s[i]) by {
            if i < front.len() {
                assert(s[i] == front[i]);
            }
        }
        assert(s[0] == front[0]);
    }
}

/// One more digit makes ten times the number and the digit.
pub proof fn law_digits_are_decimal(s: Seq<char>, d: int)
    requires
        0 <= d <= 9,
    ensures
        digits_value(Seq::empty()) == 0,
        digits_value(s.push((d + 48) as char)) == 10 * digits_value(s) + d,
{
    assert(s.push((d + 48) as char).drop_last() =~= s);
}

/// A negative number is written with a minus sign, others without sign.
pub proof fn law_signed_numbers(n: int)
    ensures
        n >= 0 ==> signed_decimal(n) == decimal(n as nat),
        n < 0 ==> signed_decimal(n) == seq!['-'] + decimal((-n) as nat),
{
}

/// The number that hexadecimal digits in lower case spell.
pub open spec fn hex_number(s: Seq<char>) -> nat
    decreases s.len(),
{
    if s.len() == 0 {
        0
    } else {
        let c = s.last();
        hex_number(s.drop_last()) * 16 + (if '0' <= c <= '9' {
            c as int - 48
        } else {
            c as int - 87
        }) as nat
    }
}

pub open spec fn is_lower_hex(c: char) -> bool {
    '0' <= c <= '9' || 'a' <= c <= 'f'
}

/// The hexadecimal digits of a number stand for it, are in lower case, and have no zero
/// in front.
pub proof fn law_hex_spells_the_number(n: nat)
    ensures
        hex_number(hex(n)) == n,
        hex(n).len() > 0,
        forall|i: int| 0 <= i < hex(n).len() ==> is_lower_hex(#[trigger] hex(n)[i]),
        hex(n)[0] == '0' <==> n == 0,
    decreases n,
{
    let s = hex(n);
    if n < 16 {
        assert(s.drop_last() =~= Seq::<char>::empty());
        reveal_with_fuel(hex_number, 2);
    } else {
        let front = hex(n / 16);
        law_hex_spells_the_number(n / 16);
        assert(s.drop_last() =~= front);
        assert forall|i: int| 0 <= i < s.len() implies is_lower_hex(#[trigger] s[i]) by {
            if i < front.len() {
                assert(s[i] == front[i]);
            }
        }
        assert(s[0] == front[0]);
    }
}

} // verus!
