//! What doubles stand for: laws on their order and on the conversion of integers,
//! stated on the numbers that bit patterns mean.

use vstd::arithmetic::div_mod::{lemma_fundamental_div_mod, lemma_mod_bound};
use vstd::arithmetic::power2::{lemma2_to64_rest, lemma_pow2_pos, lemma_pow2_unfold, pow2};
use vstd::prelude::*;

use crate::double::{
    bit_length, canonical, double_of, double_of_nat, double_order, is_nan, lemma_bit_length_bounds,
    lemma_double_of_nat_bounds, lemma_pow2_add, lemma_pow2_ordered, lemma_significand_bounds, rank,
    round_half_even, significand,
};
use crate::text::Order;

verus! {

/// The exponent field of a pattern.
pub open spec fn exponent_field(bits: u64) -> int {
    bits as int % 0x8000_0000_0000_0000 / 0x10_0000_0000_0000
}

/// The fraction field of a pattern.
pub open spec fn fraction_field(bits: u64) -> int {
    bits as int % 0x10_0000_0000_0000
}

/// Whether the pattern means a finite number.
pub open spec fn is_finite_pattern(bits: u64) -> bool {
    exponent_field(bits) < 0x7ff
}

/// The number that a finite pattern means without its sign, counted in the smallest
/// positive double.
pub open spec fn size(bits: u64) -> int {
    if exponent_field(bits) == 0 {
        fraction_field(bits)
    } else {
        (fraction_field(bits) + 0x10_0000_0000_0000) * pow2((exponent_field(bits) - 1) as nat)
    }
}

/// The number that a finite pattern means, counted in the smallest positive double.
pub open spec fn meaning(bits: u64) -> int {
    if bits < 0x8000_0000_0000_0000 {
        size(bits)
    } else {
        -size(bits)
    }
}

/// An integer, counted in the smallest positive double.
pub open spec fn scaled(n: int) -> int {
    n * pow2(1074)
}

pub open spec fn distance(a: int, b: int) -> int {
    if a < b {
        b - a
    } else {
        a - b
    }
}

proof fn lemma_fields(bits: u64)
    ensures
        ({
            let m = bits as int % 0x8000_0000_0000_0000;
            &&& m == exponent_field(bits) * 0x10_0000_0000_0000 + fraction_field(bits)
            &&& 0 <= fraction_field(bits) < 0x10_0000_0000_0000
            &&& 0 <= exponent_field(bits) <= 0x7ff
        }),
{
    let m = bits as int % 0x8000_0000_0000_0000;
    assert(m % 0x10_0000_0000_0000 == bits as int % 0x10_0000_0000_0000) by (nonlinear_arith)
        requires
            m == bits as int % 0x8000_0000_0000_0000,
            0 <= bits <= 0xffff_ffff_ffff_ffff,
    ;
    lemma_fundamental_div_mod(m, 0x10_0000_0000_0000);
}

proof fn lemma_size_grows(a: u64, b: u64)
    requires
        is_finite_pattern(a),
        is_finite_pattern(b),
        a as int % 0x8000_0000_0000_0000 < b as int % 0x8000_0000_0000_0000,
    ensures
        0 <= size(a) < size(b),
{
    lemma_fields(a);
    lemma_fields(b);
    lemma2_to64_rest();
    let e = exponent_field(a);
    let f = fraction_field(a);
    let g = exponent_field(b);
    let h = fraction_field(b);
    if e == g {
        if e > 0 {
            let p = pow2((e - 1) as nat);
            lemma_pow2_pos((e - 1) as nat);
            assert((f + 0x10_0000_0000_0000) * p < (h + 0x10_0000_0000_0000) * p) by (nonlinear_arith)
                requires
                    f < h,
                    p > 0,
            ;
            assert(0 <= (f + 0x10_0000_0000_0000) * p) by (nonlinear_arith)
                requires
                    f >= 0,
                    p > 0,
            ;
        }
    } else {
        assert(e < g);
        let q = pow2((g - 1) as nat);
        lemma_pow2_pos((g - 1) as nat);
        assert((h + 0x10_0000_0000_0000) * q >= 0x10_0000_0000_0000 * q) by (nonlinear_arith)
            requires
                h >= 0,
                q > 0,
        ;
        if e == 0 {
            assert(0x10_0000_0000_0000 * q >= 0x10_0000_0000_0000) by (nonlinear_arith)
                requires
                    q > 0,
            ;
        } else {
            let p = pow2((e - 1) as nat);
            lemma_pow2_pos((e - 1) as nat);
            lemma_pow2_unfold(e as nat);
            lemma_pow2_ordered(e as nat, (g - 1) as nat);
            assert(q >= 2 * p);
            assert((f + 0x10_0000_0000_0000) * p < 0x10_0000_0000_0000 * q && 0 <= (f
                + 0x10_0000_0000_0000) * p) by (nonlinear_arith)
                requires
                    0 <= f < 0x10_0000_0000_0000,
                    p > 0,
                    q >= 2 * p,
            ;
        }
    }
}

/// Finite doubles are ordered by the numbers that they mean; zero has two patterns,
/// which are equal.
pub proof fn law_doubles_compare_by_meaning(a: u64, b: u64)
    requires
        is_finite_pattern(a),
        is_finite_pattern(b),
    ensures
        double_order(a, b) == Some(Order::Less) <==> meaning(a) < meaning(b),
        double_order(a, b) == Some(Order::Equal) <==> meaning(a) == meaning(b),
        double_order(a, b) == Some(Order::Greater) <==> meaning(a) > meaning(b),
        rank(a) < rank(b) <==> meaning(a) < meaning(b),
{
    let m = a as int % 0x8000_0000_0000_0000;
    let n = b as int % 0x8000_0000_0000_0000;
    lemma_fields(a);
    lemma_fields(b);
    assert(m < 0x7ff0_0000_0000_0000 && n < 0x7ff0_0000_0000_0000);
    assert(m == a % crate::double::SIGN && n == b % crate::double::SIGN);
    if m < n {
        lemma_size_grows(a, b);
    } else if n < m {
        lemma_size_grows(b, a);
    } else {
        assert(size(a) == size(b));
        lemma_size_sign(a);
    }
    lemma_size_sign(a);
    lemma_size_sign(b);
}

proof fn lemma_size_sign(a: u64)
    requires
        is_finite_pattern(a),
    ensures
        size(a) >= 0,
        size(a) == 0 <==> a as int % 0x8000_0000_0000_0000 == 0,
{
    lemma_fields(a);
    if a as int % 0x8000_0000_0000_0000 > 0 {
        assert(fraction_field(0) == 0 && exponent_field(0) == 0);
        lemma_size_grows(0, a);
    }
}

/// A pattern is no number exactly where its exponent has all bits set and its fraction
/// is not zero; such compare with nothing. The infinities lie beyond all finite
/// numbers.
pub proof fn law_special_patterns(a: u64, b: u64)
    ensures
        is_nan(a) <==> exponent_field(a) == 0x7ff && fraction_field(a) != 0,
        double_order(a, b) is None <==> is_nan(a) || is_nan(b),
        is_finite_pattern(b) ==> double_order(0x7ff0_0000_0000_0000, b) == Some(Order::Greater),
        is_finite_pattern(b) ==> double_order(0xfff0_0000_0000_0000, b) == Some(Order::Less),
        double_order(0x7ff0_0000_0000_0000, 0x7ff0_0000_0000_0000) == Some(Order::Equal),
        double_order(0xfff0_0000_0000_0000, 0xfff0_0000_0000_0000) == Some(Order::Equal),
        double_order(0xfff0_0000_0000_0000, 0x7ff0_0000_0000_0000) == Some(Order::Less),
        canonical(a) == if is_nan(a) {
            0x7ff8_0000_0000_0000
        } else {
            a
        },
{
    lemma_fields(a);
    lemma_fields(b);
    assert(a as int % 0x8000_0000_0000_0000 == a % crate::double::SIGN);
    assert(b as int % 0x8000_0000_0000_0000 == b % crate::double::SIGN);
}

/// The number that the double of a positive integer means.
proof fn lemma_double_of_nat_meaning(n: nat)
    requires
        0 < n <= u64::MAX,
    ensures
        ({
            let d = double_of_nat(n) as u64;
            &&& 0 <= double_of_nat(n) <= u64::MAX
            &&& is_finite_pattern(d)
            &&& d < 0x8000_0000_0000_0000
            &&& meaning(d) == significand(n) * pow2((1021 + bit_length(n)) as nat)
            &&& bit_length(n) <= 64
        }),
{
    lemma_double_of_nat_bounds(n);
    lemma_significand_bounds(n);
    lemma_bit_length_bounds(n);
    lemma2_to64_rest();
    let e = bit_length(n);
    if e > 64 {
        lemma_pow2_ordered(64, (e - 1) as nat);
    }
    let s = significand(n);
    let d = double_of_nat(n) as u64;
    lemma_fields(d);
    let p = pow2((1021 + e) as nat);
    if s < 0x20_0000_0000_0000 {
        let f = s - 0x10_0000_0000_0000;
        assert(d as int == (1022 + e) * 0x10_0000_0000_0000 + f);
        assert(exponent_field(d) == 1022 + e && fraction_field(d) == f) by {
            assert(d as int % 0x8000_0000_0000_0000 == d as int);
        }
    } else {
        assert(d as int == (1023 + e) * 0x10_0000_0000_0000);
        assert(d as int % 0x8000_0000_0000_0000 == d as int);
        assert(exponent_field(d) == 1023 + e && fraction_field(d) == 0);
        lemma_pow2_unfold((1022 + e) as nat);
        assert(0x10_0000_0000_0000 * (2 * p) == 0x20_0000_0000_0000 * p) by (nonlinear_arith);
    }
}

/// Integers of up to fifty-three binary digits become doubles that mean them exactly.
proof fn lemma_exact(n: nat)
    requires
        0 < n <= u64::MAX,
        bit_length(n) <= 53,
    ensures
        meaning(double_of_nat(n) as u64) == scaled(n as int),
{
    lemma_double_of_nat_meaning(n);
    let e = bit_length(n);
    let k = (53 - e) as nat;
    lemma_pow2_add(k, (1021 + e) as nat);
    assert(k + (1021 + e) == 1074);
    assert(n * pow2(k) * pow2((1021 + e) as nat) == n * (pow2(k) * pow2((1021 + e) as nat)))
        by (nonlinear_arith);
}

/// Between two multiples of the unit in the last place there is no double.
proof fn lemma_no_double_between(b: u64, q: int, k: nat)
    requires
        is_finite_pattern(b),
        0x10_0000_0000_0000 <= q,
    ensures
        ({
            let u = pow2((k + 1074) as nat) as int;
            meaning(b) <= q * u || meaning(b) >= (q + 1) * u
        }),
{
    let u = pow2((k + 1074) as nat) as int;
    lemma_pow2_pos((k + 1074) as nat);
    lemma_fields(b);
    lemma_size_sign(b);
    let e = exponent_field(b);
    let f = fraction_field(b);
    assert(q * u >= 0x10_0000_0000_0000 * u) by (nonlinear_arith)
        requires
            q >= 0x10_0000_0000_0000,
            u > 0,
    ;
    assert(0x10_0000_0000_0000 * u >= 0x10_0000_0000_0000) by (nonlinear_arith)
        requires
            u > 0,
    ;
    if b < 0x8000_0000_0000_0000 && e > 0 {
        let p = pow2((e - 1) as nat) as int;
        lemma_pow2_pos((e - 1) as nat);
        if e - 1 >= k + 1074 {
            let j = (e - 1 - (k + 1074)) as nat;
            lemma_pow2_add(j, (k + 1074) as nat);
            let c = (f + 0x10_0000_0000_0000) * pow2(j);
            assert((f + 0x10_0000_0000_0000) * (pow2(j) * u) == c * u) by (nonlinear_arith)
                requires
                    c == (f + 0x10_0000_0000_0000) * pow2(j),
            ;
            assert(meaning(b) == c * u);
            if c <= q {
                assert(c * u <= q * u) by (nonlinear_arith)
                    requires
                        c <= q,
                        u > 0,
                ;
            } else {
                assert(c * u >= (q + 1) * u) by (nonlinear_arith)
                    requires
                        c >= q + 1,
                        u > 0,
                ;
            }
        } else {
            lemma_pow2_ordered(e as nat, (k + 1074) as nat);
            lemma_pow2_unfold(e as nat);
            assert((f + 0x10_0000_0000_0000) * p <= 0x10_0000_0000_0000 * u) by (nonlinear_arith)
                requires
                    f < 0x10_0000_0000_0000,
                    p > 0,
                    2 * p <= u,
            ;
        }
    }
}

proof fn lemma_nearest_nat(n: nat, b: u64)
    requires
        n <= u64::MAX,
        is_finite_pattern(b),
    ensures
        ({
            let d = double_of_nat(n) as u64;
            &&& is_finite_pattern(d)
            &&& d < 0x8000_0000_0000_0000
            &&& distance(meaning(d), scaled(n as int)) <= distance(meaning(b), scaled(n as int))
            &&& distance(meaning(d), scaled(n as int)) == distance(meaning(b), scaled(n as int))
                && meaning(b) != meaning(d) ==> d % 2 == 0
        }),
{
    let d = double_of_nat(n) as u64;
    let x = meaning(b);
    if n == 0 {
        assert(exponent_field(0) == 0 && fraction_field(0) == 0);
        assert(scaled(0) == 0) by (nonlinear_arith);
    } else if bit_length(n) <= 53 {
        lemma_double_of_nat_meaning(n);
        lemma_exact(n);
    } else {
        lemma_double_of_nat_meaning(n);
        lemma_significand_bounds(n);
        lemma_bit_length_bounds(n);
        lemma2_to64_rest();
        let e = bit_length(n);
        let k = (e - 53) as nat;
        let w = pow2(k) as int;
        let u = pow2(1074) as int;
        let s = significand(n) as int;
        lemma_pow2_pos(k);
        lemma_pow2_pos(1074);
        lemma_pow2_add(k, 1074);
        assert(k + 1074 == 1021 + e);
        let q = n as int / w;
        let r = n as int % w;
        lemma_fundamental_div_mod(n as int, w);
        lemma_mod_bound(n as int, w);
        lemma_pow2_add(52, k);
        assert(52 + k == e - 1);
        assert(q >= 0x10_0000_0000_0000) by (nonlinear_arith)
            requires
                n == w * q + r,
                0 <= r < w,
                n >= 0x10_0000_0000_0000 * w,
                w > 0,
        ;
        lemma_no_double_between(b, q, k);
        assert(meaning(d) == s * (w * u));
        let near = if s == q {
            r
        } else {
            w - r
        };
        assert(s == q || s == q + 1);
        assert(s == q ==> 2 * r <= w);
        assert(s == q + 1 ==> 2 * r >= w);
        assert(n * u == q * (w * u) + r * u) by (nonlinear_arith)
            requires
                n == w * q + r,
        ;
        assert((q + 1) * (w * u) == q * (w * u) + w * u) by (nonlinear_arith);
        assert((w - r) * u == w * u - r * u) by (nonlinear_arith);
        assert(r * u >= 0 && (w - r) * u >= 0) by (nonlinear_arith)
            requires
                0 <= r < w,
                u > 0,
        ;
        assert(2 * r <= w ==> r * u <= (w - r) * u) by (nonlinear_arith)
            requires
                u > 0,
        ;
        assert(2 * r < w ==> r * u < (w - r) * u) by (nonlinear_arith)
            requires
                u > 0,
        ;
        assert(2 * r >= w ==> r * u >= (w - r) * u) by (nonlinear_arith)
            requires
                u > 0,
        ;
        assert(2 * r > w ==> r * u > (w - r) * u) by (nonlinear_arith)
            requires
                u > 0,
        ;
        assert(distance(meaning(d), n * u) == near * u);
        assert(d as int == (1021 + e) * 0x10_0000_0000_0000 + s);
        assert(d as int % 2 == s % 2);
        if 2 * r == w {
            assert(s % 2 == 0) by {
                assert(round_half_even(n, w as nat) == s);
            }
        }
    }
}

/// An integer becomes the double that is nearest to it; of two that are equally near,
/// the one whose last bit is zero.
pub proof fn law_integers_become_the_nearest_double(n: int, b: u64)
    requires
        i64::MIN <= n <= u64::MAX,
        is_finite_pattern(b),
    ensures
        ({
            let d = double_of(n) as u64;
            &&& 0 <= double_of(n) <= u64::MAX
            &&& is_finite_pattern(d)
            &&& distance(meaning(d), scaled(n)) <= distance(meaning(b), scaled(n))
            &&& distance(meaning(d), scaled(n)) == distance(meaning(b), scaled(n)) && meaning(b)
                != meaning(d) ==> d % 2 == 0
        }),
{
    if n >= 0 {
        lemma_double_of_nat_bounds(n as nat);
        lemma_nearest_nat(n as nat, b);
    } else {
        let m = (-n) as nat;
        lemma_double_of_nat_bounds(m);
        let c = if b < 0x8000_0000_0000_0000 {
            (b + 0x8000_0000_0000_0000) as u64
        } else {
            (b - 0x8000_0000_0000_0000) as u64
        };
        lemma_flip(b, c);
        lemma_nearest_nat(m, c);
        let d = double_of(n) as u64;
        let p = double_of_nat(m) as u64;
        lemma_flip(d, p);
        assert(scaled(n) == -scaled(m as int)) by (nonlinear_arith)
            requires
                m == -n,
        ;
        assert(d % 2 == p % 2);
    }
}

proof fn lemma_flip(a: u64, b: u64)
    requires
        a as int == b as int + 0x8000_0000_0000_0000 || b as int == a as int
            + 0x8000_0000_0000_0000,
    ensures
        exponent_field(a) == exponent_field(b),
        fraction_field(a) == fraction_field(b),
        size(a) == size(b),
        meaning(a) == -meaning(b),
{
    assert(a as int % 0x8000_0000_0000_0000 == b as int % 0x8000_0000_0000_0000);
    lemma_fields(a);
    lemma_fields(b);
}

} // verus!
