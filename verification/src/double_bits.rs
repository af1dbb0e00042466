//! Double-precision IEEE-754 numbers handled by their bits, and how they meet
//! 32-bit integers and single-precision numbers.

use vstd::prelude::*;

verus! {

/// The weight of the sign bit.
pub const SIGN: u64 = 0x8000_0000_0000_0000;

/// The weight of the lowest exponent bit.
pub const ONE_EXPONENT: u64 = 0x10_0000_0000_0000;

/// Bits of positive infinity.
pub const F64_INFINITY: u64 = 0x7ff0_0000_0000_0000;

/// Neither infinite nor a NaN.
pub open spec fn f64_finite(bits: u64) -> bool {
    bits % SIGN < F64_INFINITY
}

/// A NaN.
pub open spec fn f64_nan(bits: u64) -> bool {
    bits % SIGN > F64_INFINITY
}

/// Orders every number that is not a NaN; both zeros share rank 0.
pub open spec fn f64_rank(bits: u64) -> int {
    if bits < SIGN {
        bits as int
    } else {
        SIGN - bits
    }
}

/// `a <= b`, false where either is a NaN.
pub open spec fn f64_le(a: u64, b: u64) -> bool {
    !f64_nan(a) && !f64_nan(b) && f64_rank(a) <= f64_rank(b)
}

/// `a < b`, false where either is a NaN.
pub open spec fn f64_lt(a: u64, b: u64) -> bool {
    !f64_nan(a) && !f64_nan(b) && f64_rank(a) < f64_rank(b)
}

/// Neither infinite nor a NaN.
pub fn is_finite(bits: u64) -> (r: bool)
    ensures
        r == f64_finite(bits),
{
    bits % SIGN < F64_INFINITY
}

fn rank(bits: u64) -> (r: i128)
    ensures
        r == f64_rank(bits),
{
    if bits < SIGN {
        bits as i128
    } else {
        SIGN as i128 - bits as i128
    }
}

/// `a <= b` as numbers.
pub fn less_or_equal(a: u64, b: u64) -> (r: bool)
    ensures
        r == f64_le(a, b),
{
    a % SIGN <= F64_INFINITY && b % SIGN <= F64_INFINITY && rank(a) <= rank(b)
}

/// `a < b` as numbers.
pub fn less(a: u64, b: u64) -> (r: bool)
    ensures
        r == f64_lt(a, b),
{
    a % SIGN <= F64_INFINITY && b % SIGN <= F64_INFINITY && rank(a) < rank(b)
}

/// The exponent field.
pub open spec fn exponent(bits: u64) -> u64 {
    bits % SIGN / ONE_EXPONENT
}

/// The fraction field.
pub open spec fn fraction(bits: u64) -> u64 {
    bits % ONE_EXPONENT
}

/// Half of `m`, `n` times over, as long as it is even.
pub open spec fn halved(m: nat, n: nat) -> Option<nat>
    decreases n,
{
    if n == 0 {
        Some(m)
    } else if m % 2 == 1 {
        None
    } else {
        halved(m / 2, (n - 1) as nat)
    }
}

fn halve(m: u64, n: u64) -> (r: Option<u64>)
    ensures
        halved(m as nat, n as nat) == (match r {
            Some(h) => Some(h as nat),
            None => None,
        }),
        r matches Some(h) ==> h <= m,
{
    let mut h: u64 = m;
    let mut left: u64 = n;
    while left > 0
        invariant
            h <= m,
            halved(m as nat, n as nat) == halved(h as nat, left as nat),
        decreases left,
    {
        if h % 2 == 1 {
            return None;
        }
        h = h / 2;
        left = left - 1;
    }
    Some(h)
}

/// The integer that a finite number is, where it is one of less than 53 bits:
/// what is left of the significand once the bits behind the point are gone.
pub open spec fn f64_integer(bits: u64) -> Option<int> {
    let e = exponent(bits);
    let magnitude = if bits % SIGN == 0 {
        Some(0nat)
    } else if e < 1023 || e >= 1075 {
        None
    } else {
        halved((ONE_EXPONENT + fraction(bits)) as nat, (1075 - e) as nat)
    };
    match magnitude {
        Some(m) => Some(
            if bits < SIGN {
                m as int
            } else {
                -(m as int)
            },
        ),
        None => None,
    }
}

/// The integer that a finite number is, where it is one of less than 53 bits.
pub fn to_integer(bits: u64) -> (r: Option<i64>)
    ensures
        f64_integer(bits) == (match r {
            Some(n) => Some(n as int),
            None => None,
        }),
{
    let e: u64 = bits % SIGN / ONE_EXPONENT;
    let magnitude: u64 = if bits % SIGN == 0 {
        0
    } else if e < 1023 || e >= 1075 {
        return None;
    } else {
        match halve(ONE_EXPONENT + bits % ONE_EXPONENT, 1075 - e) {
            Some(m) => m,
            None => {
                return None;
            },
        }
    };
    if bits < SIGN {
        Some(magnitude as i64)
    } else {
        Some(-(magnitude as i64))
    }
}

/// The number `m * 2^(e - 1075)` with its significand at full width.
pub open spec fn widened(m: nat, e: nat) -> nat
    decreases e,
{
    if m == 0 || m >= ONE_EXPONENT || e == 0 {
        (e * ONE_EXPONENT + m - ONE_EXPONENT) as nat
    } else {
        widened(2 * m, (e - 1) as nat)
    }
}

/// The bits of an integer of at most 32 bits.
pub open spec fn integer_f64(n: int) -> nat {
    if n == 0 {
        0
    } else if n > 0 {
        widened(n as nat, 1075)
    } else {
        SIGN as nat + widened((-n) as nat, 1075)
    }
}

/// Widening gives a significand at full width under an exponent in range, and
/// halving it back as often gives the integer.
proof fn lemma_widened(m: nat, e: nat, k: nat)
    requires
        0 < m < ONE_EXPONENT * 2,
        1023 <= e <= 1075,
        e == 1075 - k,
        m * two_to((e - 1023) as nat) >= ONE_EXPONENT,
    ensures
        exists|f: nat, w: nat|
            #![trigger halved(w, f)]
            widened(m, e) == (1075 - f) * ONE_EXPONENT + w - ONE_EXPONENT && ONE_EXPONENT <= w
                < 2 * ONE_EXPONENT && k <= f <= 52 && halved(w, f) == halved(m, k),
    decreases 1075 - k,
{
    if m >= ONE_EXPONENT {
        assert(halved(m, k) == halved(m, k));
    } else {
        if e == 1023 {
            assert(m * two_to(0) == m) by (nonlinear_arith)
                requires
                    two_to(0) == 1,
            ;
        }
        assert(two_to((e - 1023) as nat) == 2 * two_to((e - 1024) as nat));
        assert((2 * m) * two_to((e - 1024) as nat) == m * (2 * two_to((e - 1024) as nat)))
            by (nonlinear_arith);
        assert(halved(2 * m, k + 1) == halved(m, k));
        lemma_widened(2 * m, (e - 1) as nat, k + 1);
    }
}

/// Two to the power of `n`.
pub open spec fn two_to(n: nat) -> nat
    decreases n,
{
    if n == 0 {
        1
    } else {
        2 * two_to((n - 1) as nat)
    }
}

/// An integer of at most 32 bits is what its bits say it is.
pub proof fn lemma_integer_f64(n: int)
    requires
        -0x8000_0000 <= n <= 0xffff_ffff,
    ensures
        integer_f64(n) <= u64::MAX,
        f64_finite(integer_f64(n) as u64),
        f64_integer(integer_f64(n) as u64) == Some(n),
{
    if n != 0 {
        let m: nat = if n > 0 {
            n as nat
        } else {
            (-n) as nat
        };
        lemma_two_to_54();
        assert(m * two_to(52) >= ONE_EXPONENT) by (nonlinear_arith)
            requires
                m >= 1,
                two_to(52) == ONE_EXPONENT,
        ;
        lemma_widened(m, 1075, 0);
        let (f, w) = choose|f: nat, w: nat|
            #![trigger halved(w, f)]
            widened(m, 1075) == (1075 - f) * ONE_EXPONENT + w - ONE_EXPONENT && ONE_EXPONENT <= w
                < 2 * ONE_EXPONENT && 0 <= f <= 52 && halved(w, f) == halved(m, 0);
        let bits = widened(m, 1075);
        assert(1023 * ONE_EXPONENT <= bits < 1076 * ONE_EXPONENT) by (nonlinear_arith)
            requires
                bits == (1075 - f) * ONE_EXPONENT + w - ONE_EXPONENT,
                ONE_EXPONENT <= w < 2 * ONE_EXPONENT,
                0 <= f <= 52,
        ;
        assert(bits / ONE_EXPONENT as nat == 1075 - f && bits % ONE_EXPONENT as nat == w
            - ONE_EXPONENT) by (nonlinear_arith)
            requires
                bits == (1075 - f) * ONE_EXPONENT + (w - ONE_EXPONENT),
                0 <= w - ONE_EXPONENT < ONE_EXPONENT,
        ;
        let whole = integer_f64(n) as u64;
        assert(whole % SIGN == bits);
        assert(whole % ONE_EXPONENT == bits % ONE_EXPONENT as nat);
    }
}

/// The bits of an integer of at most 32 bits.
pub fn from_integer(n: i64) -> (r: u64)
    requires
        -0x8000_0000 <= n <= 0xffff_ffff,
    ensures
        r == integer_f64(n as int),
        f64_finite(r),
        f64_integer(r) == Some(n as int),
{
    proof {
        lemma_integer_f64(n as int);
    }
    if n == 0 {
        return 0;
    }
    let start: u64 = if n > 0 {
        n as u64
    } else {
        (-n) as u64
    };
    let mut m: u64 = start;
    let mut e: u64 = 1075;
    proof {
        lemma_two_to_54();
        assert(m * two_to(52) >= ONE_EXPONENT) by (nonlinear_arith)
            requires
                m >= 1,
                two_to(52) == ONE_EXPONENT,
        ;
    }
    while m < ONE_EXPONENT
        invariant
            0 < m < 2 * ONE_EXPONENT,
            1023 <= e <= 1075,
            m * two_to((e - 1023) as nat) >= ONE_EXPONENT,
            widened(start as nat, 1075) == widened(m as nat, e as nat),
        decreases e,
    {
        proof {
            if e == 1023 {
                assert(m * two_to(0) == m) by (nonlinear_arith)
                    requires
                        two_to(0) == 1,
                ;
            }
            assert((2 * m) * two_to((e - 1024) as nat) == m * (2 * two_to((e - 1024) as nat)))
                by (nonlinear_arith);
        }
        m = 2 * m;
        e = e - 1;
    }
    let bits: u128 = e as u128 * ONE_EXPONENT as u128 + m as u128 - ONE_EXPONENT as u128;
    assert(bits == widened(start as nat, 1075));
    if n > 0 {
        bits as u64
    } else {
        SIGN + bits as u64
    }
}

/// `m / 2^n`, rounded to the nearest integer, to the even one halfway.
pub open spec fn rounded(m: nat, n: nat) -> nat {
    let d = two_to(n);
    let q = m / d;
    let r = m % d;
    if 2 * r > d || (2 * r == d && q % 2 == 1) {
        q + 1
    } else {
        q
    }
}

/// Larger powers of two are larger.
pub proof fn lemma_two_to_grows(a: nat, b: nat)
    requires
        a <= b,
    ensures
        0 < two_to(a) <= two_to(b),
    decreases b,
{
    if b > 0 {
        if a < b {
            lemma_two_to_grows(a, (b - 1) as nat);
        } else {
            lemma_two_to_grows((a - 1) as nat, (b - 1) as nat);
        }
    }
}

/// Powers of two around the significand of a double.
pub proof fn lemma_two_to_54()
    ensures
        two_to(52) == ONE_EXPONENT,
        two_to(53) == 2 * ONE_EXPONENT,
        two_to(54) == 4 * ONE_EXPONENT,
{
    reveal_with_fuel(two_to, 56);
}

/// What is too small to count rounds to nothing.
proof fn lemma_rounded_away(m: nat, n: nat)
    requires
        m < 2 * ONE_EXPONENT,
        n >= 54,
    ensures
        rounded(m, n) == 0,
{
    lemma_two_to_54();
    lemma_two_to_grows(54, n);
    let d = two_to(n);
    assert(m / d == 0 && m % d == m) by (nonlinear_arith)
        requires
            0 <= m < d,
    ;
}

pub(crate) fn round(m: u64, n: u64) -> (r: u64)
    requires
        m < 2 * ONE_EXPONENT,
    ensures
        r == rounded(m as nat, n as nat),
        r <= m + 1,
{
    if n >= 54 {
        proof {
            lemma_rounded_away(m as nat, n as nat);
        }
        return 0;
    }
    let mut d: u64 = 1;
    let mut i: u64 = 0;
    while i < n
        invariant
            i <= n < 54,
            d == two_to(i as nat),
            0 < d <= 2 * ONE_EXPONENT,
        decreases n - i,
    {
        proof {
            lemma_two_to_54();
            lemma_two_to_grows((i + 1) as nat, 53);
        }
        d = 2 * d;
        i = i + 1;
    }
    let q: u64 = m / d;
    let r: u64 = m % d;
    assert(q <= m) by (nonlinear_arith)
        requires
            q == m / d,
            d >= 1,
    ;
    if 2 * r > d || (2 * r == d && q % 2 == 1) {
        q + 1
    } else {
        q
    }
}

/// The magnitude of the nearest single-precision number, by its bits: infinity
/// past the largest, and below the smallest normal one a multiple of the
/// smallest there is.
pub open spec fn narrowed_magnitude(bits: u64) -> nat {
    let e = exponent(bits);
    let m = (ONE_EXPONENT + fraction(bits)) as nat;
    if e == 0 {
        0
    } else if e >= 897 {
        let magnitude = (e - 897) * 0x80_0000 + rounded(m, 29);
        if magnitude > 0x7f80_0000 {
            0x7f80_0000
        } else {
            magnitude as nat
        }
    } else {
        rounded(m, (926 - e) as nat)
    }
}

/// The bits of the single-precision number nearest to a finite one, to the even
/// one halfway.
pub open spec fn narrowed(bits: u64) -> nat {
    narrowed_magnitude(bits) + (if bits < SIGN {
        0nat
    } else {
        0x8000_0000nat
    })
}

/// Dividing a full significand by at least `2^29` leaves at most 24 bits.
proof fn lemma_rounded_small(m: nat, n: nat)
    requires
        m < 2 * ONE_EXPONENT,
        n >= 29,
    ensures
        rounded(m, n) <= 0x100_0000,
{
    assert(two_to(29) == 0x2000_0000) by {
        reveal_with_fuel(two_to, 30);
    }
    lemma_two_to_grows(29, n);
    let d = two_to(n);
    assert(m / d <= m / 0x2000_0000) by (nonlinear_arith)
        requires
            d >= 0x2000_0000,
            m >= 0,
    ;
    assert(m / 0x2000_0000 < 0x100_0000);
}

/// The bits of the single-precision number nearest to a finite one.
pub fn narrow(bits: u64) -> (r: u32)
    requires
        f64_finite(bits),
    ensures
        r == narrowed(bits),
{
    let e: u64 = bits % SIGN / ONE_EXPONENT;
    let m: u64 = ONE_EXPONENT + bits % ONE_EXPONENT;
    let magnitude: u64 = if e == 0 {
        0
    } else if e >= 897 {
        proof {
            lemma_rounded_small(m as nat, 29);
        }
        let magnitude: u64 = (e - 897) * 0x80_0000 + round(m, 29);
        if magnitude > 0x7f80_0000 {
            0x7f80_0000
        } else {
            magnitude
        }
    } else {
        proof {
            lemma_rounded_small(m as nat, (926 - e) as nat);
        }
        round(m, 926 - e)
    };
    if bits < SIGN {
        magnitude as u32
    } else {
        magnitude as u32 + 0x8000_0000
    }
}

} // verus!
