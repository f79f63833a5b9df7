//! Doubles by their bit patterns: order, canonical form, and the conversion
//! from integers, all in integer arithmetic.

use vstd::arithmetic::div_mod::{lemma_div_is_ordered, lemma_fundamental_div_mod, lemma_mod_bound};
use vstd::arithmetic::mul::lemma_mul_inequality;
use vstd::arithmetic::power2::{lemma2_to64, lemma2_to64_rest, lemma_pow2_pos, lemma_pow2_unfold, pow2};
use vstd::prelude::*;

use crate::text::Order;

verus! {

/// The sign bit.
pub const SIGN: u64 = 0x8000_0000_0000_0000;

/// The bit pattern of positive infinity; above it, without the sign, are the
/// patterns that are no number.
pub const INFINITY: u64 = 0x7ff0_0000_0000_0000;

/// The pattern that stands for every pattern that is no number.
pub const NOT_A_NUMBER: u64 = 0x7ff8_0000_0000_0000;

/// Whether the pattern is no number.
pub open spec fn is_nan(bits: u64) -> bool {
    bits % SIGN > INFINITY
}

/// One pattern for all that are no number; every other pattern unchanged.
pub open spec fn canonical(bits: u64) -> u64 {
    if is_nan(bits) {
        NOT_A_NUMBER
    } else {
        bits
    }
}

/// The place of a double among all doubles: the two zeros share place 0.
pub open spec fn rank(bits: u64) -> int {
    if bits < SIGN {
        bits as int
    } else {
        SIGN - bits
    }
}

/// How two doubles compare; a pattern that is no number compares with nothing.
pub open spec fn double_order(a: u64, b: u64) -> Option<Order> {
    if is_nan(a) || is_nan(b) {
        None
    } else {
        Some(crate::text::int_order(rank(a), rank(b)))
    }
}

pub fn nan(bits: u64) -> (r: bool)
    ensures
        r == is_nan(bits),
{
    bits % 0x8000_0000_0000_0000 > 0x7ff0_0000_0000_0000
}

pub fn canonical_bits(bits: u64) -> (r: u64)
    ensures
        r == canonical(bits),
{
    if nan(bits) {
        NOT_A_NUMBER
    } else {
        bits
    }
}

fn rank_of(bits: u64) -> (r: i64)
    ensures
        r == rank(bits),
{
    if bits < 0x8000_0000_0000_0000 {
        bits as i64
    } else {
        0 - ((bits - 0x8000_0000_0000_0000) as i64)
    }
}

pub fn compare_doubles(a: u64, b: u64) -> (r: Option<Order>)
    ensures
        r == double_order(a, b),
{
    if nan(a) || nan(b) {
        return None;
    }
    let x = rank_of(a);
    let y = rank_of(b);
    if x < y {
        Some(Order::Less)
    } else if x == y {
        Some(Order::Equal)
    } else {
        Some(Order::Greater)
    }
}

// ---------------------------------------------------------------------------
// From integers
// ---------------------------------------------------------------------------

/// The number of binary digits of `n`.
pub open spec fn bit_length(n: nat) -> nat
    decreases n,
{
    if n == 0 {
        0
    } else {
        bit_length(n / 2) + 1
    }
}

/// `n / d` rounded to the nearest integer, ties to the even one.
pub open spec fn round_half_even(n: nat, d: nat) -> nat
    recommends
        d > 0,
{
    let q = n / d;
    let r = n % d;
    if 2 * r > d || (2 * r == d && q % 2 == 1) {
        q + 1
    } else {
        q
    }
}

/// The significand of `n` with 53 binary digits, rounded; a carry gives the
/// next power of two.
pub open spec fn significand(n: nat) -> nat {
    let e = bit_length(n);
    if e <= 53 {
        n * pow2((53 - e) as nat)
    } else {
        round_half_even(n, pow2((e - 53) as nat))
    }
}

/// The bit pattern of the double nearest to `n`, ties to even. Adding the
/// significand lets a carry move into the exponent.
pub open spec fn double_of_nat(n: nat) -> int {
    if n == 0 {
        0
    } else {
        ((1021 + bit_length(n)) * pow2(52) + significand(n)) as int
    }
}

/// The bit pattern of the double nearest to `n`.
pub open spec fn double_of(n: int) -> int {
    if n < 0 {
        SIGN + double_of_nat((-n) as nat)
    } else {
        double_of_nat(n as nat)
    }
}

pub proof fn lemma_bit_length_bounds(n: nat)
    requires
        n > 0,
    ensures
        bit_length(n) > 0,
        pow2((bit_length(n) - 1) as nat) <= n < pow2(bit_length(n)),
    decreases n,
{
    lemma2_to64();
    if n > 1 {
        lemma_bit_length_bounds(n / 2);
        lemma_pow2_unfold(bit_length(n));
        lemma_pow2_unfold((bit_length(n) - 1) as nat);
    } else {
        assert(bit_length(1) == bit_length(0) + 1);
    }
}

pub proof fn lemma_pow2_ordered(a: nat, b: nat)
    requires
        a <= b,
    ensures
        pow2(a) <= pow2(b),
    decreases b,
{
    lemma_pow2_pos(a);
    if a < b {
        lemma_pow2_unfold(b);
        lemma_pow2_ordered(a, (b - 1) as nat);
    }
}

pub proof fn lemma_pow2_add(a: nat, b: nat)
    ensures
        pow2(a + b) == pow2(a) * pow2(b),
{
    vstd::arithmetic::power2::lemma_pow2_adds(a, b);
}

proof fn lemma_bit_length_ordered(a: nat, b: nat)
    requires
        a <= b,
    ensures
        bit_length(a) <= bit_length(b),
    decreases b,
{
    if a > 0 {
        lemma_bit_length_ordered(a / 2, b / 2);
    }
}

proof fn lemma_round_ordered(a: nat, b: nat, d: nat)
    requires
        a <= b,
        d > 0,
    ensures
        round_half_even(a, d) <= round_half_even(b, d),
{
    lemma_div_is_ordered(a as int, b as int, d as int);
    if a / d == b / d {
        lemma_fundamental_div_mod(a as int, d as int);
        lemma_fundamental_div_mod(b as int, d as int);
        assert(a % d <= b % d);
    }
}

/// The significand has 53 binary digits, or is the next power of two.
pub proof fn lemma_significand_bounds(n: nat)
    requires
        n > 0,
    ensures
        pow2(52) <= significand(n) <= pow2(53),
        bit_length(n) <= 53 ==> significand(n) < pow2(53),
{
    let e = bit_length(n);
    lemma_bit_length_bounds(n);
    if e <= 53 {
        let k = (53 - e) as nat;
        lemma_pow2_pos(k);
        lemma_pow2_add((e - 1) as nat, k);
        lemma_pow2_add(e, k);
        assert(pow2((e - 1) as nat) * pow2(k) <= n * pow2(k)) by (nonlinear_arith)
            requires
                pow2((e - 1) as nat) <= n,
        ;
        assert(n * pow2(k) < pow2(e) * pow2(k)) by (nonlinear_arith)
            requires
                n < pow2(e),
                pow2(k) > 0,
        ;
        assert((e - 1) + k == 52);
        assert(e + k == 53);
    } else {
        let k = (e - 53) as nat;
        let d = pow2(k);
        lemma_pow2_pos(k);
        lemma_pow2_add(52, k);
        lemma_pow2_add(53, k);
        assert(52 + k == e - 1);
        assert(53 + k == e);
        let q = n / d;
        lemma_fundamental_div_mod(n as int, d as int);
        lemma_mod_bound(n as int, d as int);
        assert(q >= pow2(52)) by (nonlinear_arith)
            requires
                n == d * q + n % d,
                n >= pow2(52) * d,
                0 <= n % d < d,
                d > 0,
        ;
        assert(q < pow2(53)) by (nonlinear_arith)
            requires
                n == d * q + n % d,
                n < pow2(53) * d,
                0 <= n % d,
                d > 0,
        ;
    }
}

/// A larger integer never converts to a smaller double.
pub proof fn lemma_double_of_nat_ordered(a: nat, b: nat)
    requires
        a <= b,
    ensures
        double_of_nat(a) <= double_of_nat(b),
{
    lemma2_to64_rest();
    if b > 0 {
        lemma_significand_bounds(b);
        if a > 0 {
            lemma_significand_bounds(a);
            lemma_bit_length_ordered(a, b);
            let e = bit_length(a);
            if e == bit_length(b) {
                if e <= 53 {
                    lemma_mul_inequality(a as int, b as int, pow2((53 - e) as nat) as int);
                } else {
                    lemma_pow2_pos((e - 53) as nat);
                    lemma_round_ordered(a, b, pow2((e - 53) as nat));
                }
            }
        }
    }
}

/// The conversion of a 64-bit magnitude stays below infinity.
pub proof fn lemma_double_of_nat_bounds(n: nat)
    requires
        n <= u64::MAX,
    ensures
        0 <= double_of_nat(n) < INFINITY,
        n > 0 ==> double_of_nat(n) > 0,
{
    lemma2_to64_rest();
    if n > 0 {
        lemma_significand_bounds(n);
        lemma_bit_length_bounds(n);
        if bit_length(n) > 64 {
            lemma_pow2_ordered(64, (bit_length(n) - 1) as nat);
        }
    }
}

/// Integers in the range of `u64` and `i64` convert in order: a larger integer
/// never gets a lower rank.
pub proof fn lemma_double_of_ordered(a: int, b: int)
    requires
        a <= b,
        i64::MIN <= a,
        b <= u64::MAX,
    ensures
        0 <= double_of(a) <= u64::MAX,
        0 <= double_of(b) <= u64::MAX,
        rank(double_of(a) as u64) <= rank(double_of(b) as u64),
        !is_nan(double_of(a) as u64),
        !is_nan(double_of(b) as u64),
{
    if a < 0 {
        lemma_double_of_nat_bounds((-a) as nat);
    } else {
        lemma_double_of_nat_bounds(a as nat);
    }
    if b < 0 {
        lemma_double_of_nat_bounds((-b) as nat);
        lemma_double_of_nat_ordered((-b) as nat, (-a) as nat);
    } else {
        lemma_double_of_nat_bounds(b as nat);
        if a >= 0 {
            lemma_double_of_nat_ordered(a as nat, b as nat);
        }
    }
}

fn bit_length_of(n: u64) -> (r: u32)
    ensures
        r == bit_length(n as nat),
        r <= 64,
{
    let mut rest: u64 = n;
    let mut count: u32 = 0;
    proof {
        lemma2_to64_rest();
        if n > 0 {
            lemma_bit_length_bounds(n as nat);
            if bit_length(n as nat) > 64 {
                lemma_pow2_ordered(64, (bit_length(n as nat) - 1) as nat);
            }
        }
    }
    while rest > 0
        invariant
            count + bit_length(rest as nat) == bit_length(n as nat),
            bit_length(n as nat) <= 64,
        decreases rest,
    {
        rest = rest / 2;
        count = count + 1;
    }
    count
}

fn power_of_two(k: u32) -> (r: u64)
    requires
        k < 64,
    ensures
        r == pow2(k as nat),
{
    let mut r: u64 = 1;
    proof {
        lemma2_to64();
    }
    for i in 0..k
        invariant
            r == pow2(i as nat),
            k < 64,
    {
        proof {
            lemma2_to64_rest();
            lemma_pow2_unfold((i + 1) as nat);
            lemma_pow2_ordered((i + 1) as nat, 63);
        }
        r = r * 2;
    }
    r
}

/// The bit pattern of the double nearest to `n`.
pub fn double_from_u64(n: u64) -> (r: u64)
    ensures
        r == double_of(n as int),
        r < SIGN,
{
    proof {
        lemma_double_of_nat_bounds(n as nat);
        lemma2_to64_rest();
        lemma2_to64();
    }
    if n == 0 {
        return 0;
    }
    let e = bit_length_of(n);
    proof {
        lemma_significand_bounds(n as nat);
        lemma_bit_length_bounds(n as nat);
    }
    let m: u64;
    if e <= 53 {
        let p = power_of_two(53 - e);
        assert(n * p == significand(n as nat));
        m = n * p;
    } else {
        let d = power_of_two(e - 53);
        proof {
            lemma_pow2_pos((e - 53) as nat);
            lemma_pow2_ordered((e - 53) as nat, 11);
            lemma2_to64();
        }
        let q: u64 = n / d;
        let rest: u64 = n % d;
        if 2 * rest > d || (2 * rest == d && q % 2 == 1) {
            assert(significand(n as nat) == q + 1);
            m = q + 1;
        } else {
            m = q;
        }
    }
    assert((1021 + e) * pow2(52) == (1021 + e) * 0x10_0000_0000_0000);
    (1021 + e as u64) * 0x10_0000_0000_0000 + m
}

/// The bit pattern of the double nearest to `n`.
pub fn double_from_i64(n: i64) -> (r: u64)
    ensures
        r == double_of(n as int),
{
    if n >= 0 {
        double_from_u64(n as u64)
    } else {
        let magnitude: u64 = if n == i64::MIN {
            0x8000_0000_0000_0000
        } else {
            (0 - n) as u64
        };
        0x8000_0000_0000_0000 + double_from_u64(magnitude)
    }
}

} // verus!
