//! Sums of single-precision numbers, by their bits: the exact sum, rounded to
//! the nearest number, to the even one halfway.

use vstd::prelude::*;
use crate::double_bits::round;
#[allow(unused_imports)]
use crate::double_bits::{lemma_two_to_54, lemma_two_to_grows, rounded, two_to};
#[allow(unused_imports)]
use crate::float_bits::{f32_finite, f32_le, f32_nan, f32_rank, F32_INFINITY};

verus! {

/// Smallest significand of a normal number.
pub const HIDDEN: u32 = 0x80_0000;

/// Bit of the sign.
pub const MINUS: u32 = 0x8000_0000;

/// The exponent field.
pub open spec fn exponent_field(bits: u32) -> nat {
    (bits % MINUS / HIDDEN) as nat
}

/// The significand, the hidden bit included.
pub open spec fn significand(bits: u32) -> nat {
    if exponent_field(bits) == 0 {
        (bits % HIDDEN) as nat
    } else {
        (HIDDEN + bits % HIDDEN) as nat
    }
}

/// By how many powers of two the significand counts more than in the smallest
/// numbers.
pub open spec fn scale(bits: u32) -> nat {
    if exponent_field(bits) == 0 {
        0
    } else {
        (exponent_field(bits) - 1) as nat
    }
}

/// How many times the smallest positive number a magnitude is.
pub open spec fn magnitude(bits: u32) -> nat {
    significand(bits) * two_to(scale(bits))
}

/// How many times the smallest positive number a number is.
#[verifier::opaque]
pub open spec fn units(bits: u32) -> int {
    if bits < MINUS {
        magnitude(bits) as int
    } else {
        -(magnitude(bits) as int)
    }
}

/// How often a magnitude has to be halved before 24 bits hold it.
pub open spec fn excess(n: nat) -> nat
    decreases n,
{
    if n < 0x100_0000 {
        0
    } else {
        1 + excess(n / 2)
    }
}

/// The bits of the magnitude nearest to `n` times the smallest positive number,
/// without a limit to the exponent.
pub open spec fn unlimited(n: nat) -> nat {
    excess(n) * HIDDEN as nat + rounded(n, excess(n))
}

/// The bits of the magnitude nearest to `n` times the smallest positive number;
/// past the largest it is infinite.
pub open spec fn nearest(n: nat) -> nat {
    if unlimited(n) > F32_INFINITY {
        F32_INFINITY as nat
    } else {
        unlimited(n)
    }
}

/// The bits of the number nearest to `x` times the smallest positive number,
/// which is not zero.
pub open spec fn nearest_number(x: int) -> u32 {
    if x > 0 {
        nearest(x as nat) as u32
    } else {
        (MINUS + nearest((-x) as nat)) as u32
    }
}

/// `a + b`, where `a` is finite and `b` is no NaN. Where the sum is zero, so is
/// its sign unless both numbers have one.
#[verifier::opaque]
pub open spec fn f32_sum(a: u32, b: u32) -> u32 {
    let x = units(a) + units(b);
    if !f32_finite(b) {
        b
    } else if x != 0 {
        nearest_number(x)
    } else if a >= MINUS && b >= MINUS {
        MINUS
    } else {
        0
    }
}

/// `-x`.
pub open spec fn f32_negated(x: u32) -> u32 {
    if x < MINUS {
        (x + MINUS) as u32
    } else {
        (x - MINUS) as u32
    }
}

proof fn lemma_two_to_add(a: nat, b: nat)
    ensures
        two_to(a + b) == two_to(a) * two_to(b),
        two_to(a) > 0,
    decreases a,
{
    if a > 0 {
        lemma_two_to_add((a - 1) as nat, b);
        assert(two_to(a + b) == 2 * two_to((a - 1 + b) as nat));
        let x = two_to((a - 1) as nat);
        let y = two_to(b);
        assert(2 * (x * y) == (2 * x) * y) by (nonlinear_arith);
    } else {
        assert(1 * two_to(b) == two_to(b)) by (nonlinear_arith);
    }
}

/// Halving both sides of a rounded quotient changes nothing.
proof fn lemma_rounded_twice(m: nat, k: nat)
    ensures
        rounded(2 * m, k + 1) == rounded(m, k),
{
    let d = two_to(k) as int;
    lemma_two_to_grows(0, k);
    let q = m as int / d;
    let r = m as int % d;
    vstd::arithmetic::div_mod::lemma_fundamental_div_mod(m as int, d);
    vstd::arithmetic::div_mod::lemma_mod_bound(m as int, d);
    assert(two_to(k + 1) == 2 * d);
    assert(2 * m == q * (2 * d) + 2 * r) by (nonlinear_arith)
        requires
            m == d * q + r,
    ;
    vstd::arithmetic::div_mod::lemma_fundamental_div_mod_converse((2 * m) as int, 2 * d, q, 2 * r);
}

proof fn lemma_rounded_scaled(m: nat, k: nat, e: nat)
    ensures
        rounded(m * two_to(e), k + e) == rounded(m, k),
    decreases e,
{
    if e > 0 {
        let f = (e - 1) as nat;
        lemma_rounded_scaled(m, k, f);
        lemma_rounded_twice(m * two_to(f), k + f);
        assert(2 * (m * two_to(f)) == m * (2 * two_to(f))) by (nonlinear_arith);
    } else {
        assert(m * 1 == m) by (nonlinear_arith);
    }
}

/// Where a magnitude lies says how often it has to be halved.
proof fn lemma_excess_is(n: nat, k: nat)
    requires
        HIDDEN * two_to(k) <= n < 0x100_0000 * two_to(k),
    ensures
        excess(n) == k,
    decreases k,
{
    if k > 0 {
        let p = two_to((k - 1) as nat);
        lemma_two_to_grows(0, (k - 1) as nat);
        assert(two_to(k) == 2 * p);
        assert(HIDDEN * (2 * p) == 2 * (HIDDEN * p)) by (nonlinear_arith);
        assert(0x100_0000 * (2 * p) == 2 * (0x100_0000 * p)) by (nonlinear_arith);
        assert(HIDDEN * p >= HIDDEN) by (nonlinear_arith)
            requires
                p >= 1,
        ;
        lemma_excess_is(n / 2, (k - 1) as nat);
    } else {
        assert(HIDDEN * 1 == HIDDEN && 0x100_0000 * 1 == 0x100_0000);
    }
}

/// What 24 bits hold after `k` halvings.
proof fn lemma_excess(n: nat)
    ensures
        n < 0x100_0000 * two_to(excess(n)),
        excess(n) > 0 ==> HIDDEN * two_to(excess(n)) <= n,
    decreases n,
{
    if n >= 0x100_0000 {
        lemma_excess(n / 2);
        let k = excess(n / 2);
        let p = two_to(k);
        assert(two_to(k + 1) == 2 * p);
        assert(HIDDEN * (2 * p) == 2 * (HIDDEN * p)) by (nonlinear_arith);
        assert(0x100_0000 * (2 * p) == 2 * (0x100_0000 * p)) by (nonlinear_arith);
        if k == 0 {
            assert(HIDDEN * two_to(1) == HIDDEN * 2) by {
                reveal_with_fuel(two_to, 2);
            }
        }
    } else {
        assert(0x100_0000 * 1 == 0x100_0000);
    }
}

/// A quotient of `q` and a remainder.
proof fn lemma_rounded_parts(q: nat, r: nat, k: nat)
    requires
        r < two_to(k),
    ensures
        rounded(q * two_to(k) + r, k) == (if 2 * r > two_to(k) || (2 * r == two_to(k) && q % 2
            == 1) {
            q + 1
        } else {
            q
        }),
{
    let d = two_to(k) as int;
    vstd::arithmetic::div_mod::lemma_fundamental_div_mod_converse(
        (q * two_to(k) + r) as int,
        d,
        q as int,
        r as int,
    );
}

/// What 24 bits hold needs no rounding.
proof fn lemma_unlimited_exact(m: nat, e: nat)
    requires
        m < 0x100_0000,
        m >= HIDDEN || e == 0,
    ensures
        unlimited(m * two_to(e)) == e * HIDDEN + m,
        excess(m * two_to(e)) == e,
{
    lemma_two_to_grows(0, e);
    let p = two_to(e);
    if e == 0 {
        assert(m * 1 == m) by (nonlinear_arith);
        lemma_rounded_parts(m, 0, 0);
    } else {
        assert(HIDDEN * p <= m * p && m * p < 0x100_0000 * p) by (nonlinear_arith)
            requires
                HIDDEN <= m < 0x100_0000,
                p >= 1,
        ;
        lemma_excess_is(m * p, e);
        lemma_rounded_parts(m, 0, e);
    }
}

/// The parts of a finite number's bits.
proof fn lemma_parts(bits: u32)
    requires
        f32_finite(bits),
    ensures
        significand(bits) < 0x100_0000,
        significand(bits) >= HIDDEN || scale(bits) == 0,
        scale(bits) <= 253,
        bits % MINUS == scale(bits) * HIDDEN + significand(bits),
{
    let low = bits % MINUS;
    assert(low % HIDDEN == bits % HIDDEN);
    assert(low == low / HIDDEN * HIDDEN + low % HIDDEN);
}

/// A number is nearest to itself.
pub proof fn lemma_nearest_exact(bits: u32)
    requires
        f32_finite(bits),
    ensures
        nearest(magnitude(bits)) == bits % MINUS,
        magnitude(bits) == 0 <==> bits % MINUS == 0,
{
    lemma_parts(bits);
    lemma_unlimited_exact(significand(bits), scale(bits));
    let p = two_to(scale(bits));
    lemma_two_to_grows(0, scale(bits));
    assert(significand(bits) == 0 <==> significand(bits) * p == 0) by (nonlinear_arith)
        requires
            p >= 1,
    ;
}

/// The nearest magnitude to `m * 2^e`.
fn nearest_to(m: u64, e: u64) -> (r: u32)
    requires
        0 < m < 0x20_0000_0000_0000,
        e <= 253,
    ensures
        r == nearest(m as nat * two_to(e as nat)),
{
    let ghost n = m as nat * two_to(e as nat);
    let mut m: u64 = m;
    let mut e: u64 = e;
    if m >= 0x100_0000 {
        let k: u64 = count_excess(m);
        let q: u64 = round(m, k);
        proof {
            lemma_excess(m as nat);
            lemma_rounded_scaled(m as nat, k as nat, e as nat);
            let p = two_to(k as nat);
            let s = two_to(e as nat);
            lemma_two_to_grows(0, e as nat);
            lemma_two_to_add(k as nat, e as nat);
            assert(HIDDEN * (p * s) <= n && n < 0x100_0000 * (p * s)) by (nonlinear_arith)
                requires
                    HIDDEN * p <= m < 0x100_0000 * p,
                    n == m * s,
                    s >= 1,
            ;
            lemma_excess_is(n, (k + e) as nat);
            lemma_rounded_bounds(m as nat);
        }
        let bits: u64 = (k + e) * HIDDEN as u64 + q;
        return if bits > F32_INFINITY as u64 {
            F32_INFINITY
        } else {
            bits as u32
        };
    }
    while m < HIDDEN as u64 && e > 0
        invariant
            0 < m < 0x100_0000,
            e <= 253,
            n == m as nat * two_to(e as nat),
        decreases e,
    {
        proof {
            let s = two_to((e - 1) as nat);
            assert((2 * m) * s == m * (2 * s)) by (nonlinear_arith);
        }
        m = 2 * m;
        e = e - 1;
    }
    proof {
        lemma_unlimited_exact(m as nat, e as nat);
    }
    let bits: u64 = e * HIDDEN as u64 + m;
    if bits > F32_INFINITY as u64 {
        F32_INFINITY
    } else {
        bits as u32
    }
}

/// Rounding to 24 bits gives at most one more than they hold.
proof fn lemma_rounded_bounds(n: nat)
    ensures
        rounded(n, excess(n)) <= 0x100_0000,
        excess(n) > 0 ==> HIDDEN <= rounded(n, excess(n)),
{
    lemma_excess(n);
    let k = excess(n);
    let d = two_to(k) as int;
    lemma_two_to_grows(0, k);
    vstd::arithmetic::div_mod::lemma_fundamental_div_mod(n as int, d);
    vstd::arithmetic::div_mod::lemma_mod_bound(n as int, d);
    let q = n as int / d;
    assert(q < 0x100_0000) by (nonlinear_arith)
        requires
            d * q <= n < 0x100_0000 * d,
            d >= 1,
    ;
    if k > 0 {
        assert(q >= HIDDEN) by (nonlinear_arith)
            requires
                d * q + n as int % d == n,
                n as int % d < d,
                HIDDEN * d <= n,
                d >= 1,
        ;
    }
}

fn count_excess(m: u64) -> (r: u64)
    requires
        m < 0x20_0000_0000_0000,
    ensures
        r == excess(m as nat),
        r <= 53,
{
    let mut k: u64 = 0;
    let mut rest: u64 = m;
    let mut room: u64 = 53;
    proof {
        lemma_two_to_54();
    }
    while rest >= 0x100_0000
        invariant
            excess(m as nat) == k + excess(rest as nat),
            k + room == 53,
            rest < two_to(room as nat),
            rest >= 0x100_0000 ==> room > 0,
        decreases rest,
    {
        proof {
            assert(two_to(room as nat) == 2 * two_to((room - 1) as nat));
            if room == 1 {
                assert(two_to(1) == 2) by {
                    reveal_with_fuel(two_to, 2);
                }
            }
        }
        rest = rest / 2;
        k = k + 1;
        room = room - 1;
        proof {
            if room == 0 {
                assert(two_to(0) == 1);
            }
        }
    }
    k
}

/// `-x`.
pub fn negate(x: u32) -> (r: u32)
    ensures
        r == f32_negated(x),
    no_unwind
{
    if x < MINUS {
        x + MINUS
    } else {
        x - MINUS
    }
}

/// Where one number is far larger than another, the sum is the larger one.
proof fn lemma_far_larger(m: nat, e: nat, t: int)
    requires
        HIDDEN <= m < 0x100_0000,
        e >= 3,
        -(two_to((e - 3) as nat) as int) < t < two_to((e - 3) as nat),
    ensures
        m * two_to(e) + t > 0,
        unlimited((m * two_to(e) + t) as nat) == e * HIDDEN + m,
{
    let p = two_to((e - 3) as nat);
    lemma_two_to_grows(0, (e - 3) as nat);
    assert(two_to((e - 2) as nat) == 2 * p);
    assert(two_to((e - 1) as nat) == 4 * p);
    assert(two_to(e) == 8 * p);
    let d = two_to(e);
    assert(m * d >= HIDDEN * d) by (nonlinear_arith)
        requires
            m >= HIDDEN,
    ;
    assert(m * d + d <= 0x100_0000 * d) by (nonlinear_arith)
        requires
            m < 0x100_0000,
    ;
    let n = (m * d + t) as nat;
    if t >= 0 {
        lemma_excess_is(n, e);
        lemma_rounded_parts(m, t as nat, e);
    } else if m > HIDDEN {
        assert(m * d == (m - 1) * d + d) by (nonlinear_arith);
        assert((m - 1) * d >= HIDDEN * d) by (nonlinear_arith)
            requires
                m > HIDDEN,
        ;
        lemma_excess_is(n, e);
        lemma_rounded_parts((m - 1) as nat, (d + t) as nat, e);
    } else {
        let h = two_to((e - 1) as nat);
        let k = (e - 1) as nat;
        assert(HIDDEN * d == 0x100_0000 * h) by (nonlinear_arith)
            requires
                d == 2 * h,
        ;
        assert(0x100_0000 * h == 0xff_ffff * h + h) by (nonlinear_arith);
        assert(HIDDEN * h <= 0xff_ffff * h) by (nonlinear_arith)
            requires
                h >= 1,
        ;
        lemma_excess_is(n, k);
        lemma_rounded_parts(0xff_ffff, (h + t) as nat, k);
    }
}

/// A number whose steps are far smaller than `2^e` units is far smaller than
/// that.
proof fn lemma_far_smaller(small: u32, e: nat)
    requires
        f32_finite(small),
        e >= scale(small) + 27,
    ensures
        magnitude(small) < two_to((e - 3) as nat),
{
    lemma_parts(small);
    let s = scale(small);
    let m = significand(small);
    let p = two_to(s);
    lemma_two_to_grows(0, s);
    assert(two_to(24) == 0x100_0000) by {
        reveal_with_fuel(two_to, 26);
    }
    lemma_two_to_add(24, s);
    lemma_two_to_grows(24 + s, (e - 3) as nat);
    assert(m * p < 0x100_0000 * p) by (nonlinear_arith)
        requires
            m < 0x100_0000,
            p >= 1,
    ;
}

/// The sum of a number and one that is far smaller is the number.
proof fn lemma_sum_far(big: u32, small: u32)
    requires
        f32_finite(big),
        f32_finite(small),
        scale(big) >= scale(small) + 27,
    ensures
        units(big) + units(small) != 0,
        nearest_number(units(big) + units(small)) == big,
{
    reveal(units);
    lemma_parts(big);
    lemma_far_smaller(small, scale(big));
    let n = magnitude(small) as int;
    let t = if (big < MINUS) == (small < MINUS) {
        n
    } else {
        -n
    };
    lemma_far_larger(significand(big), scale(big), t);
    let x = magnitude(big) + t;
    assert(unlimited(x as nat) == big % MINUS);
    assert(units(big) + units(small) == if big < MINUS {
        x
    } else {
        -x
    });
}

/// The exact sum of two numbers that are not far apart.
proof fn lemma_sum_close(ma: int, ea: nat, mb: int, eb: nat, d: nat)
    requires
        ea == eb + d,
    ensures
        ma * two_to(ea) + mb * two_to(eb) == (ma * two_to(d) + mb) * two_to(eb),
{
    lemma_two_to_add(d, eb);
    let x = two_to(d) as int;
    let y = two_to(eb) as int;
    assert(ma * (x * y) + mb * y == (ma * x + mb) * y) by (nonlinear_arith);
}

fn split(bits: u32) -> (r: (i64, u64))
    requires
        f32_finite(bits),
    ensures
        r.1 == scale(bits),
        r.0 == (if bits < MINUS {
            significand(bits) as int
        } else {
            -(significand(bits) as int)
        }),
        units(bits) == r.0 * two_to(r.1 as nat),
        -0x100_0000 < r.0 < 0x100_0000,
        r.1 <= 253,
{
    proof {
        reveal(units);
    }
    proof {
        lemma_parts(bits);
        let s = significand(bits) as int;
        let p = two_to(scale(bits)) as int;
        assert(-(s * p) == (-s) * p) by (nonlinear_arith);
    }
    let low: u32 = bits % MINUS;
    let e: u32 = low / HIDDEN;
    let m: u32 = if e == 0 {
        bits % HIDDEN
    } else {
        HIDDEN + bits % HIDDEN
    };
    let scale: u64 = if e == 0 {
        0
    } else {
        e as u64 - 1
    };
    if bits < MINUS {
        (m as i64, scale)
    } else {
        (-(m as i64), scale)
    }
}

fn power(n: u64) -> (r: i64)
    requires
        n < 27,
    ensures
        r == two_to(n as nat),
        0 < r <= 0x400_0000,
{
    let mut r: i64 = 1;
    let mut i: u64 = 0;
    proof {
        assert(two_to(26) == 0x400_0000) by {
            reveal_with_fuel(two_to, 28);
        }
    }
    while i < n
        invariant
            i <= n < 27,
            r == two_to(i as nat),
            two_to(26) == 0x400_0000,
            0 < r <= 0x400_0000,
        decreases n - i,
    {
        proof {
            lemma_two_to_grows((i + 1) as nat, 26);
        }
        r = 2 * r;
        i = i + 1;
    }
    r
}

/// The sum of two finite numbers, of which the first counts in at least as large
/// steps.
fn add_ordered(a: u32, b: u32) -> (r: u32)
    requires
        f32_finite(a),
        f32_finite(b),
        scale(a) >= scale(b),
    ensures
        r == f32_sum(a, b),
{
    proof {
        reveal(f32_sum);
        reveal(units);
    }
    let (ma, ea) = split(a);
    let (mb, eb) = split(b);
    if ea - eb >= 27 {
        proof {
            lemma_sum_far(a, b);
        }
        return a;
    }
    let d: u64 = ea - eb;
    let p: i64 = power(d);
    proof {
        lemma_sum_close(ma as int, ea as nat, mb as int, eb as nat, d as nat);
        assert(-0x4_0000_0000_0000 < ma * p < 0x4_0000_0000_0000) by (nonlinear_arith)
            requires
                -0x100_0000 < ma < 0x100_0000,
                0 < p <= 0x400_0000,
        ;
    }
    let s: i64 = ma * p + mb;
    let ghost g = two_to(eb as nat) as int;
    proof {
        lemma_two_to_grows(0, eb as nat);
        assert(s > 0 ==> s * g > 0) by (nonlinear_arith)
            requires
                g >= 1,
        ;
        assert(s < 0 ==> s * g < 0) by (nonlinear_arith)
            requires
                g >= 1,
        ;
        assert(-(s * g) == (-s) * g) by (nonlinear_arith);
        assert(s == 0 ==> s * g == 0) by (nonlinear_arith);
    }
    if s > 0 {
        nearest_to(s as u64, eb)
    } else if s < 0 {
        MINUS + nearest_to((-s) as u64, eb)
    } else if a >= MINUS && b >= MINUS {
        MINUS
    } else {
        0
    }
}

/// `a + b`.
pub fn sum(a: u32, b: u32) -> (r: u32)
    requires
        f32_finite(a),
        !f32_nan(b),
    ensures
        r == f32_sum(a, b),
        !f32_nan(r),
{
    proof {
        reveal(f32_sum);
    }
    if b % MINUS >= F32_INFINITY {
        return b;
    }
    let (_, ea) = split(a);
    let (_, eb) = split(b);
    let r: u32 = if ea >= eb {
        add_ordered(a, b)
    } else {
        add_ordered(b, a)
    };
    r
}

/// More units are nearest to no smaller number.
proof fn lemma_unlimited_grows(a: nat, b: nat)
    requires
        a <= b,
    ensures
        unlimited(a) <= unlimited(b),
        excess(a) <= excess(b),
{
    lemma_excess_grows(a, b);
    lemma_rounded_bounds(a);
    lemma_rounded_bounds(b);
    let j = excess(a);
    let k = excess(b);
    if j == k {
        let d = two_to(k) as int;
        lemma_two_to_grows(0, k);
        vstd::arithmetic::div_mod::lemma_fundamental_div_mod(a as int, d);
        vstd::arithmetic::div_mod::lemma_fundamental_div_mod(b as int, d);
        vstd::arithmetic::div_mod::lemma_mod_bound(a as int, d);
        vstd::arithmetic::div_mod::lemma_mod_bound(b as int, d);
        vstd::arithmetic::div_mod::lemma_div_is_ordered(a as int, b as int, d);
    } else {
        assert(j * HIDDEN + HIDDEN <= k * HIDDEN) by (nonlinear_arith)
            requires
                j + 1 <= k,
        ;
    }
}

proof fn lemma_excess_grows(a: nat, b: nat)
    requires
        a <= b,
    ensures
        excess(a) <= excess(b),
    decreases b,
{
    if a >= 0x100_0000 {
        lemma_excess_grows(a / 2, b / 2);
    }
}

/// The rank of what is nearest to `x` units; it never exceeds infinity's.
#[verifier::opaque]
pub open spec fn rank_of_units(x: int) -> int {
    if x >= 0 {
        nearest(x as nat) as int
    } else {
        -(nearest((-x) as nat) as int)
    }
}

/// Nothing ranks above infinity.
pub proof fn lemma_rank_bounded(x: int)
    ensures
        -(F32_INFINITY as int) <= rank_of_units(x) <= F32_INFINITY,
{
    reveal(rank_of_units);
}

/// Rounding keeps order.
pub proof fn lemma_rank_grows(x: int, y: int)
    requires
        x <= y,
    ensures
        rank_of_units(x) <= rank_of_units(y),
{
    reveal(rank_of_units);
    if x >= 0 {
        lemma_unlimited_grows(x as nat, y as nat);
    } else if y < 0 {
        lemma_unlimited_grows((-y) as nat, (-x) as nat);
    }
}

/// The rank of a sum of finite numbers is that of the exact sum, rounded.
pub proof fn lemma_sum_rank(a: u32, b: u32)
    requires
        f32_finite(a),
        f32_finite(b),
    ensures
        f32_rank(f32_sum(a, b)) == rank_of_units(units(a) + units(b)),
        !f32_nan(f32_sum(a, b)),
{
    reveal(f32_sum);
    reveal(rank_of_units);
    let x = units(a) + units(b);
    if x == 0 {
        lemma_unlimited_exact(0, 0);
        assert(0 * two_to(0) == 0) by (nonlinear_arith);
    } else if x > 0 {
        lemma_unlimited_positive(x as nat);
    } else {
        lemma_unlimited_positive((-x) as nat);
    }
}

proof fn lemma_unlimited_positive(n: nat)
    requires
        n > 0,
    ensures
        unlimited(n) > 0,
        0 < nearest(n) <= F32_INFINITY,
{
    lemma_unlimited_grows(1, n);
    lemma_unlimited_exact(1, 0);
    assert(1 * two_to(0) == 1) by (nonlinear_arith);
}

/// A finite number's rank is that of its units.
pub proof fn lemma_rank_of_number(a: u32)
    requires
        f32_finite(a),
    ensures
        f32_rank(a) == rank_of_units(units(a)),
{
    reveal(units);
    reveal(rank_of_units);
    lemma_nearest_exact(a);
}

/// Numbers are ordered as their units are.
pub proof fn lemma_units_ordered(a: u32, b: u32)
    requires
        f32_finite(a),
        f32_finite(b),
    ensures
        f32_rank(a) <= f32_rank(b) <==> units(a) <= units(b),
{
    lemma_rank_of_number(a);
    lemma_rank_of_number(b);
    if units(a) <= units(b) {
        lemma_rank_grows(units(a), units(b));
    } else {
        lemma_rank_grows(units(b), units(a));
        if f32_rank(a) == f32_rank(b) {
            lemma_same_rank(a, b);
        }
    }
}

proof fn lemma_same_rank(a: u32, b: u32)
    requires
        f32_finite(a),
        f32_finite(b),
        f32_rank(a) == f32_rank(b),
    ensures
        units(a) == units(b),
{
    reveal(units);
    lemma_nearest_exact(a);
    lemma_nearest_exact(b);
    assert(a % MINUS == b % MINUS);
    assert(a % MINUS == 0 || a == b);
    assert(a % HIDDEN == a % MINUS % HIDDEN);
    assert(b % HIDDEN == b % MINUS % HIDDEN);
}

/// Zero is no units.
pub proof fn lemma_no_units()
    ensures
        units(0) == 0,
{
    reveal(units);
    assert(0 * two_to(0) == 0) by (nonlinear_arith);
}

/// Adding nothing changes nothing.
pub proof fn lemma_plus_zero(a: u32)
    requires
        f32_finite(a),
        a != MINUS,
    ensures
        f32_sum(a, 0) == a,
{
    reveal(units);
    reveal(f32_sum);
    lemma_nearest_exact(a);
    lemma_no_units();
}

/// A number less itself is nothing.
pub proof fn lemma_minus_itself(a: u32)
    requires
        f32_finite(a),
    ensures
        f32_sum(a, f32_negated(a)) == 0,
        f32_finite(f32_negated(a)),
        units(f32_negated(a)) == -units(a),
{
    reveal(units);
    reveal(f32_sum);
    let b = f32_negated(a);
    assert(b % MINUS == a % MINUS);
    assert(a % HIDDEN == a % MINUS % HIDDEN);
    assert(b % HIDDEN == b % MINUS % HIDDEN);
}

/// More added to the same number gives no less.
pub proof fn lemma_sum_ordered(a: u32, b: u32, c: u32)
    requires
        f32_finite(a),
        f32_le(b, c),
    ensures
        f32_le(f32_sum(a, b), f32_sum(a, c)),
{
    reveal(f32_sum);
    if f32_finite(b) {
        lemma_sum_rank(a, b);
        lemma_rank_bounded(units(a) + units(b));
    }
    if f32_finite(c) {
        lemma_sum_rank(a, c);
        lemma_rank_bounded(units(a) + units(c));
    }
    if f32_finite(b) && f32_finite(c) {
        lemma_units_ordered(b, c);
        lemma_rank_grows(units(a) + units(b), units(a) + units(c));
    }
}

} // verus!
