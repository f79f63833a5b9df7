//! Index keys: a text for each value that can be indexed, such that equal values
//! have equal keys and the order of keys follows the order of values.

use vstd::prelude::*;

use crate::double::{lemma_double_of_nat_bounds, lemma_double_of_ordered, rank, SIGN};
use crate::filter::{equal_values, same_kind, value_order};
use crate::text::{
    char_rank, chars_of, glue2, hex_char, hex_digit_char, int_order, lemma_ranked_total, lex_lt,
    ranks, text_lt, text_of, text_order, Order,
};
use crate::value::{same_value, Number, NumberView, Value, ValueView};

verus! {

/// The place of a double among all doubles as a number from zero up; the two
/// zeros share one place.
pub open spec fn place(bits: u64) -> nat {
    let r = rank(bits);
    if r >= 0 {
        (SIGN + r) as nat
    } else {
        (SIGN - 1 + r) as nat
    }
}

/// `n` in hexadecimal, with exactly `width` digits.
pub open spec fn hex_fixed(n: nat, width: nat) -> Seq<char>
    decreases width,
{
    if width == 0 {
        Seq::empty()
    } else {
        hex_fixed(n / 16, (width - 1) as nat).push(hex_char((n % 16) as int, false))
    }
}

/// The key of a value: numbers, truth values and texts have one, under a letter
/// for their kind.
pub open spec fn key_of(v: ValueView) -> Option<Seq<char>> {
    match v.untagged() {
        ValueView::Number(n) => Some("n"@ + hex_fixed(place(n.double()), 16)),
        ValueView::Bool(b) => Some(
            "b"@ + if b {
                "1"@
            } else {
                "0"@
            },
        ),
        ValueView::String(s) => Some("s"@ + s),
        _ => None,
    }
}

/// The first key that is not of the same kind as `key`.
pub open spec fn kind_end(key: Seq<char>) -> Seq<char> {
    seq![((key[0] as u32 + 1) as u8) as char]
}

fn place_of(bits: u64) -> (r: u64)
    ensures
        r == place(bits),
{
    if bits < SIGN {
        bits + SIGN
    } else if bits == SIGN {
        SIGN
    } else {
        u64::MAX - bits
    }
}

fn hex_digits(n: u64, width: usize) -> (r: Vec<char>)
    ensures
        r@ == hex_fixed(n as nat, width as nat),
    decreases width,
{
    if width == 0 {
        let r: Vec<char> = Vec::new();
        assert(r@ =~= Seq::<char>::empty());
        r
    } else {
        let mut r = hex_digits(n / 16, width - 1);
        r.push(hex_digit_char((n % 16) as u8, false));
        r
    }
}

/// The key of a value.
pub fn index_key(v: &Value) -> (r: Option<String>)
    ensures
        match r {
            Some(k) => key_of(v@) == Some(k@),
            None => key_of(v@) is None,
        },
{
    match v.untagged() {
        Value::Number(n) => {
            let digits = hex_digits(place_of(n.double()), 16);
            let text = text_of(&digits);
            Some(glue2("n", text.as_str()))
        },
        Value::Bool(b) => if *b {
            Some(glue2("b", "1"))
        } else {
            Some(glue2("b", "0"))
        },
        Value::String(s) => Some(glue2("s", s)),
        _ => None,
    }
}

/// The bounds of the keys of one kind: the first is the letter of the kind, the
/// second is the first key behind the kind.
pub fn key_prefix_bounds(key: &str) -> (r: (String, String))
    requires
        key@.len() > 0,
        key@[0] == 'b' || key@[0] == 'n' || key@[0] == 's',
    ensures
        r.0@ == seq![key@[0]],
        r.1@ == kind_end(key@),
{
    let chars = chars_of(key);
    let mut low = String::new();
    low.push(chars[0]);
    let mut high = String::new();
    high.push(((chars[0] as u32 + 1) as u8) as char);
    assert(low@ =~= seq![key@[0]]);
    assert(high@ =~= kind_end(key@));
    (low, high)
}

// ---------------------------------------------------------------------------
// Order of keys
// ---------------------------------------------------------------------------

proof fn lemma_lex_extend(x: Seq<int>, y: Seq<int>, u: Seq<int>, v: Seq<int>)
    requires
        x.len() == y.len(),
        lex_lt(x, y),
    ensures
        lex_lt(x + u, y + v),
    decreases x.len(),
{
    if x[0] == y[0] {
        lemma_lex_extend(x.skip(1), y.skip(1), u, v);
        assert((x + u).skip(1) =~= x.skip(1) + u);
        assert((y + v).skip(1) =~= y.skip(1) + v);
    }
}

proof fn lemma_lex_common(p: Seq<int>, x: Seq<int>, y: Seq<int>)
    ensures
        lex_lt(p + x, p + y) == lex_lt(x, y),
    decreases p.len(),
{
    if p.len() == 0 {
        assert(p + x =~= x);
        assert(p + y =~= y);
    } else {
        lemma_lex_common(p.skip(1), x, y);
        assert((p + x).skip(1) =~= p.skip(1) + x);
        assert((p + y).skip(1) =~= p.skip(1) + y);
    }
}

/// A common prefix does not change how texts compare.
pub proof fn lemma_text_common(p: Seq<char>, x: Seq<char>, y: Seq<char>)
    ensures
        text_lt(p + x, p + y) == text_lt(x, y),
{
    assert(ranks(p + x, false) =~= ranks(p, false) + ranks(x, false));
    assert(ranks(p + y, false) =~= ranks(p, false) + ranks(y, false));
    lemma_lex_common(ranks(p, false), ranks(x, false), ranks(y, false));
}

pub proof fn lemma_hex_len(n: nat, width: nat)
    ensures
        hex_fixed(n, width).len() == width,
    decreases width,
{
    if width > 0 {
        lemma_hex_len(n / 16, (width - 1) as nat);
    }
}

/// Sixteen to the power `width`.
pub open spec fn hex_bound(width: nat) -> nat
    decreases width,
{
    if width == 0 {
        1
    } else {
        16 * hex_bound((width - 1) as nat)
    }
}

/// Numbers written with equally many digits compare as texts like as numbers.
proof fn lemma_hex_order(a: nat, b: nat, width: nat)
    requires
        a < b,
        b < hex_bound(width),
    ensures
        text_lt(hex_fixed(a, width), hex_fixed(b, width)),
    decreases width,
{
    if width > 0 {
        let w = (width - 1) as nat;
        let x = hex_fixed(a / 16, w);
        let y = hex_fixed(b / 16, w);
        let c = hex_char((a % 16) as int, false);
        let d = hex_char((b % 16) as int, false);
        lemma_hex_len(a / 16, w);
        lemma_hex_len(b / 16, w);
        assert(ranks(x.push(c), false) =~= ranks(x, false) + seq![char_rank(c, false)]);
        assert(ranks(y.push(d), false) =~= ranks(y, false) + seq![char_rank(d, false)]);
        if a / 16 < b / 16 {
            lemma_hex_order(a / 16, b / 16, w);
            lemma_lex_extend(
                ranks(x, false),
                ranks(y, false),
                seq![char_rank(c, false)],
                seq![char_rank(d, false)],
            );
        } else {
            assert(a / 16 == b / 16);
            assert(a % 16 < b % 16);
            lemma_lex_common(ranks(x, false), seq![char_rank(c, false)], seq![char_rank(d, false)]);
            assert(char_rank(c, false) < char_rank(d, false));
        }
    }
}

pub proof fn lemma_place_bound(bits: u64)
    ensures
        place(bits) < hex_bound(16),
{
    reveal_with_fuel(hex_bound, 17);
    assert(hex_bound(16) == 0x1_0000_0000_0000_0000);
}

/// The order of the keys of two numbers is the order of their places.
proof fn lemma_number_keys(a: u64, b: u64)
    ensures
        text_order("n"@ + hex_fixed(place(a), 16), "n"@ + hex_fixed(place(b), 16)) == int_order(
            rank(a),
            rank(b),
        ),
{
    lemma_place_bound(a);
    lemma_place_bound(b);
    let x = hex_fixed(place(a), 16);
    let y = hex_fixed(place(b), 16);
    lemma_text_common("n"@, x, y);
    lemma_text_common("n"@, y, x);
    lemma_ranked_total("n"@ + x, "n"@ + y, false);
    if rank(a) < rank(b) {
        lemma_hex_order(place(a), place(b), 16);
    } else if rank(a) > rank(b) {
        lemma_hex_order(place(b), place(a), 16);
    }
}

proof fn lemma_text_keys(p: Seq<char>, x: Seq<char>, y: Seq<char>)
    ensures
        text_order(p + x, p + y) == text_order(x, y),
{
    lemma_text_common(p, x, y);
    if p + x == p + y {
        assert((p + x).skip(p.len() as int) =~= x);
        assert((p + y).skip(p.len() as int) =~= y);
    }
}

proof fn lemma_bool_keys()
    ensures
        text_order("b"@ + "0"@, "b"@ + "1"@) is Less,
        text_order("b"@ + "1"@, "b"@ + "0"@) is Greater,
{
    reveal_strlit("0");
    reveal_strlit("1");
    lemma_text_keys("b"@, "0"@, "1"@);
    lemma_ranked_total("b"@ + "0"@, "b"@ + "1"@, false);
    assert(ranks("0"@, false)[0] == 48);
    assert(ranks("1"@, false)[0] == 49);
    assert(text_lt("0"@, "1"@));
}

/// Two integers that fit convert in order.
proof fn lemma_integers_convert(x: NumberView, y: NumberView)
    requires
        x.as_i64() is Some,
        y.as_i64() is Some,
    ensures
        x.as_i64()->Some_0 <= y.as_i64()->Some_0 ==> rank(x.double()) <= rank(y.double()),
        x.as_i64()->Some_0 == y.as_i64()->Some_0 ==> rank(x.double()) == rank(y.double()),
{
    let i = x.as_i64()->Some_0;
    let j = y.as_i64()->Some_0;
    if i <= j {
        lemma_double_of_ordered(i as int, j as int);
    }
}

/// Keys follow values: where two values compare, both have a key of the same
/// kind; equal values have equal keys, and a lower value never has a higher key.
pub proof fn law_key_follows_order(a: ValueView, b: ValueView)
    requires
        value_order(a, b) is Some,
    ensures
        key_of(a) is Some,
        key_of(b) is Some,
        key_of(a)->Some_0.len() > 0,
        key_of(b)->Some_0.len() > 0,
        key_of(a)->Some_0[0] == key_of(b)->Some_0[0],
        value_order(a, b) == Some(Order::Equal) ==> key_of(a) == key_of(b),
        value_order(a, b) == Some(Order::Less) ==> !(text_order(
            key_of(a)->Some_0,
            key_of(b)->Some_0,
        ) is Greater),
        value_order(a, b) == Some(Order::Greater) ==> !(text_order(
            key_of(a)->Some_0,
            key_of(b)->Some_0,
        ) is Less),
{
    reveal_strlit("n");
    reveal_strlit("s");
    reveal_strlit("b");
    match (a.untagged(), b.untagged()) {
        (ValueView::Number(x), ValueView::Number(y)) => {
            lemma_number_keys(x.double(), y.double());
            lemma_ranked_total(key_of(a)->Some_0, key_of(b)->Some_0, false);
            if x.as_i64() is Some && y.as_i64() is Some {
                lemma_integers_convert(x, y);
                lemma_integers_convert(y, x);
            }
        },
        (ValueView::String(x), ValueView::String(y)) => {
            lemma_text_keys("s"@, x, y);
            lemma_ranked_total(x, y, false);
        },
        (ValueView::Bool(x), ValueView::Bool(y)) => {
            lemma_bool_keys();
        },
        _ => {},
    }
}

/// Keys decide: the order of the keys is the order of the values. Only different
/// integers with the same nearest double share a key.
pub proof fn law_key_order_is_value_order(a: ValueView, b: ValueView)
    requires
        value_order(a, b) is Some,
        a.as_i64() is Some && b.as_i64() is Some && a.as_i64() != b.as_i64() ==> a.as_double()
            != b.as_double(),
    ensures
        value_order(a, b) == Some(text_order(key_of(a)->Some_0, key_of(b)->Some_0)),
{
    match (a.untagged(), b.untagged()) {
        (ValueView::Number(x), ValueView::Number(y)) => {
            lemma_number_keys(x.double(), y.double());
            if x.as_i64() is Some && y.as_i64() is Some {
                lemma_integers_convert(x, y);
                lemma_integers_convert(y, x);
                lemma_integer_double(x);
                lemma_integer_double(y);
            }
        },
        (ValueView::String(x), ValueView::String(y)) => {
            lemma_text_keys("s"@, x, y);
        },
        (ValueView::Bool(x), ValueView::Bool(y)) => {
            lemma_bool_keys();
            lemma_ranked_total(key_of(a)->Some_0, key_of(b)->Some_0, false);
        },
        _ => {},
    }
}

/// No integer converts to the negative zero.
proof fn lemma_integer_double(n: NumberView)
    requires
        n.as_i64() is Some,
    ensures
        n.double() != SIGN,
{
    let i = n.as_i64()->Some_0;
    if i < 0 {
        lemma_double_of_nat_bounds((-i) as nat);
    } else {
        lemma_double_of_nat_bounds(i as nat);
    }
}

/// Structural equality keeps the kind.
proof fn lemma_same_value_kind(a: ValueView, b: ValueView)
    requires
        same_value(a, b),
        key_of(b) is Some,
    ensures
        same_kind(a, b),
    decreases a,
{
    reveal_with_fuel(same_value, 2);
    match (a, b) {
        (ValueView::Tagged(_, x), ValueView::Tagged(_, y)) => {
            lemma_same_value_kind(*x, *y);
        },
        _ => {},
    }
}

/// Values that are equal to a filter share their key.
pub proof fn law_equal_values_share_key(a: ValueView, b: ValueView)
    requires
        equal_values(a, b),
        key_of(b) is Some,
    ensures
        key_of(a) == key_of(b),
{
    if !same_kind(a, b) {
        lemma_same_value_kind(a, b);
    }
    law_key_follows_order(a, b);
}

/// Values of different kinds never share a key.
pub proof fn law_kinds_have_separate_keys(a: ValueView, b: ValueView)
    requires
        key_of(a) is Some,
        key_of(b) is Some,
        !same_kind(a, b),
    ensures
        key_of(a)->Some_0[0] != key_of(b)->Some_0[0],
        key_of(a) != key_of(b),
{
    reveal_strlit("n");
    reveal_strlit("s");
    reveal_strlit("b");
    if key_of(a) == key_of(b) {
        assert(key_of(a)->Some_0[0] == key_of(b)->Some_0[0]);
    }
}

/// The keys of one kind are exactly those from its letter up to the end of the
/// kind.
pub proof fn lemma_kind_bounds(key: Seq<char>, other: Seq<char>)
    requires
        key.len() > 0,
        other.len() > 0,
        key[0] == 'b' || key[0] == 'n' || key[0] == 's',
    ensures
        !(text_order(other, seq![key[0]]) is Less) && text_order(other, kind_end(key)) is Less
            <==> other[0] == key[0],
{
    let lo = seq![key[0]];
    let hi = kind_end(key);
    lemma_ranked_total(other, lo, false);
    let o = ranks(other, false);
    let l = ranks(lo, false);
    let h = ranks(hi, false);
    assert(o[0] == other[0] as u32);
    assert(l[0] == key[0] as u32);
    assert(h[0] == hi[0] as u32);
    assert(hi[0] as u32 == key[0] as u32 + 1);
    assert(l.skip(1) =~= Seq::<int>::empty());
    assert(h.skip(1) =~= Seq::<int>::empty());
    reveal_with_fuel(lex_lt, 2);
    assert(lex_lt(o, l) == (o[0] < l[0]));
    assert(lex_lt(o, h) == (o[0] < h[0]));

    if o[0] == l[0] {
        crate::text::lemma_rank_injective(other[0], key[0], false);
    }
}

} // verus!
