//! Single precision numbers carried as their IEEE 754 bits. Layout compares
//! and selects lengths; it does so here on the bits, exactly.
use vstd::arithmetic::power2::*;
use vstd::prelude::*;

verus! {

/// A single precision number, as its bits.
pub type Bits = u32;

/// The bits of `0.0`.
pub const ZERO: u32 = 0;

/// The bits of `0.5`.
pub const HALF: u32 = 0x3f00_0000;

/// The bits of `1.0`.
pub const ONE: u32 = 0x3f80_0000;

/// The bits of `16.0`.
pub const SIXTEEN: u32 = 0x4180_0000;

/// The bits of `150.0`.
pub const ONE_HUNDRED_FIFTY: u32 = 0x4316_0000;

/// The bits of `300.0`.
pub const THREE_HUNDRED: u32 = 0x4396_0000;

/// The bits of `400.0`.
pub const FOUR_HUNDRED: u32 = 0x43c8_0000;

/// The bits of a number without its sign.
pub open spec fn magnitude(x: Bits) -> int {
    if x >= 0x8000_0000 {
        x - 0x8000_0000
    } else {
        x as int
    }
}

/// Where a number stands in the order of all numbers: the two zeros stand at
/// zero, and the bits of the positive numbers grow with them.
pub open spec fn rank(x: Bits) -> int {
    if x >= 0x8000_0000 {
        -magnitude(x)
    } else {
        magnitude(x)
    }
}

/// Whether the bits are of no number.
pub open spec fn is_nan(x: Bits) -> bool {
    magnitude(x) > 0x7f80_0000
}

/// Whether a number is neither infinite nor no number.
pub open spec fn is_finite(x: Bits) -> bool {
    magnitude(x) < 0x7f80_0000
}

/// `a < b`, which is false where either is no number.
pub open spec fn lt(a: Bits, b: Bits) -> bool {
    !is_nan(a) && !is_nan(b) && rank(a) < rank(b)
}

/// `a <= b`, which is false where either is no number.
pub open spec fn le(a: Bits, b: Bits) -> bool {
    !is_nan(a) && !is_nan(b) && rank(a) <= rank(b)
}

/// Whether `|a| > b` for a `b` that is positive.
pub open spec fn beyond(a: Bits, b: Bits) -> bool {
    !is_nan(a) && magnitude(a) > rank(b)
}

fn rank_of(x: Bits) -> (r: i64)
    ensures
        r == rank(x),
{
    if x >= 0x8000_0000 {
        0 - ((x - 0x8000_0000) as i64)
    } else {
        x as i64
    }
}

fn magnitude_of(x: Bits) -> (r: u32)
    ensures
        r == magnitude(x),
{
    if x >= 0x8000_0000 {
        x - 0x8000_0000
    } else {
        x
    }
}

/// Whether a number is neither infinite nor no number.
pub fn finite(x: Bits) -> (r: bool)
    ensures
        r == is_finite(x),
{
    magnitude_of(x) < 0x7f80_0000
}

/// `a < b`.
pub fn less(a: Bits, b: Bits) -> (r: bool)
    ensures
        r == lt(a, b),
{
    magnitude_of(a) <= 0x7f80_0000 && magnitude_of(b) <= 0x7f80_0000 && rank_of(a) < rank_of(b)
}

/// `a <= b`.
pub fn at_most(a: Bits, b: Bits) -> (r: bool)
    ensures
        r == le(a, b),
{
    magnitude_of(a) <= 0x7f80_0000 && magnitude_of(b) <= 0x7f80_0000 && rank_of(a) <= rank_of(b)
}

/// `|a| > b` for a positive `b`.
pub fn exceeds(a: Bits, b: Bits) -> (r: bool)
    ensures
        r == beyond(a, b),
{
    magnitude_of(a) <= 0x7f80_0000 && (magnitude_of(a) as i64) > rank_of(b)
}

// ---------------------------------------------------------------------------
// Rounding up
// ---------------------------------------------------------------------------
/// The significand of a finite number, as a whole number.
pub open spec fn significand(x: Bits) -> nat {
    if magnitude(x) < 0x80_0000 {
        magnitude(x) as nat
    } else {
        (magnitude(x) % 0x80_0000 + 0x80_0000) as nat
    }
}

/// The power of two that the significand of a finite number is scaled by.
pub open spec fn scale(x: Bits) -> int {
    if magnitude(x) < 0x80_0000 {
        -149
    } else {
        magnitude(x) / 0x80_0000 - 150
    }
}

/// The least whole number that is not below a number, for one that is finite
/// and not negative.
pub open spec fn ceiling(x: Bits) -> nat {
    if scale(x) >= 0 {
        significand(x) * pow2(scale(x) as nat)
    } else {
        ((significand(x) + pow2((-scale(x)) as nat) - 1) / pow2((-scale(x)) as nat) as int) as nat
    }
}

/// A number rounded up, as a 32-bit number: zero for what is negative or no
/// number, the greatest 32-bit number for what is beyond it.
pub open spec fn ceil_u32_of(x: Bits) -> u32 {
    if is_nan(x) || x >= 0x8000_0000 {
        0
    } else if !is_finite(x) || ceiling(x) > u32::MAX {
        u32::MAX
    } else {
        ceiling(x) as u32
    }
}

fn two_to(k: u32) -> (r: u64)
    requires
        k < 32,
    ensures
        r == pow2(k as nat),
        1 <= r <= 0x8000_0000,
{
    let mut r: u64 = 1;
    let mut i: u32 = 0;
    proof {
        lemma2_to64();
    }
    while i < k
        invariant
            i <= k < 32,
            r == pow2(i as nat),
            1 <= r <= pow2(31),
            pow2(31) == 0x8000_0000,
        decreases k - i,
    {
        proof {
            lemma_pow2_unfold((i + 1) as nat);
            if i + 1 < 31 {
                lemma_pow2_strictly_increases((i + 1) as nat, 31);
            }
        }
        r = r * 2;
        i += 1;
    }
    r
}

/// A number rounded up, as a 32-bit number.
pub fn ceil_u32(x: Bits) -> (r: u32)
    ensures
        r == ceil_u32_of(x),
{
    if x >= 0x8000_0000 || x > 0x7f80_0000 {
        return 0;
    }
    if x == 0x7f80_0000 {
        return u32::MAX;
    }
    let e: u32 = x / 0x80_0000;
    let m: u32 = x % 0x80_0000;
    let sig: u64 = if e == 0 { m as u64 } else { m as u64 + 0x80_0000 };
    assert(sig == significand(x));
    proof {
        lemma2_to64();
    }
    if e >= 159 {
        proof {
            let p = scale(x) as nat;
            if p > 9 {
                lemma_pow2_strictly_increases(9, p);
            }
            assert(pow2(9) == 512);
            assert(sig * pow2(p) >= 0x80_0000 * 512) by (nonlinear_arith)
                requires
                    sig >= 0x80_0000,
                    pow2(p) >= 512,
            ;
        }
        u32::MAX
    } else if e >= 150 {
        let p: u64 = two_to(e - 150);
        proof {
            let k = (e - 150) as nat;
            if k < 8 {
                lemma_pow2_strictly_increases(k, 8);
            }
            assert(p <= 256);
            assert(sig * p <= 0xff_ffff * 256) by (nonlinear_arith)
                requires
                    sig <= 0xff_ffff,
                    p <= 256,
            ;
        }
        (sig * p) as u32
    } else if e >= 127 {
        let q: u64 = two_to(150 - e);
        assert(scale(x) == e - 150);
        assert(ceiling(x) == (sig + q - 1) / q as int);
        proof {
            assert((sig + q - 1) / (q as int) <= sig + q - 1) by (nonlinear_arith)
                requires
                    sig >= 0,
                    q >= 1,
            ;
        }
        ((sig + q - 1) / q) as u32
    } else {
        proof {
            let k = (-scale(x)) as nat;
            assert(k >= 24);
            if k > 24 {
                lemma_pow2_strictly_increases(24, k);
            }
            assert(pow2(24) == 0x100_0000);
            let d = pow2(k) as int;
            if sig == 0 {
                assert((0 + d - 1) / d == 0) by (nonlinear_arith)
                    requires
                        d >= 1,
                ;
            } else {
                assert((sig + d - 1) / d == 1) by (nonlinear_arith)
                    requires
                        1 <= sig <= d,
                ;
            }
        }
        if sig == 0 {
            0
        } else {
            1
        }
    }
}

// ---------------------------------------------------------------------------
// The numbers behind the bits
// ---------------------------------------------------------------------------
/// How many of the smallest positive numbers make up a finite number.
pub open spec fn units(x: Bits) -> nat {
    significand(x) * pow2((scale(x) + 149) as nat)
}

proof fn lemma_units_grow(a: Bits, b: Bits)
    requires
        a < b < 0x7f80_0000,
    ensures
        units(a) < units(b),
{
    let i = (scale(a) + 149) as nat;
    let j = (scale(b) + 149) as nat;
    let s = significand(a);
    let t = significand(b);
    lemma_pow2_pos(i);
    assert(a / 0x80_0000 <= b / 0x80_0000);
    assert(s < 0x100_0000);
    if i == j {
        assert(s < t);
        assert(s * pow2(i) < t * pow2(i)) by (nonlinear_arith)
            requires
                s < t,
                pow2(i) > 0,
        ;
    } else {
        assert(i < j);
        assert(t >= 0x80_0000);
        if i + 1 < j {
            lemma_pow2_strictly_increases(i + 1, j);
        }
        lemma_pow2_unfold(i + 1);
        assert(s * pow2(i) < t * pow2(j)) by (nonlinear_arith)
            requires
                s < 0x100_0000,
                t >= 0x80_0000,
                pow2(i) > 0,
                pow2(j) >= 2 * pow2(i),
        ;
    }
}

/// The bits of numbers stand in the order of the numbers, with zero at zero and
/// one at a power of two; those of negative numbers below, turned about.
pub proof fn bits_stand_in_the_order_of_numbers(a: Bits, b: Bits)
    requires
        is_finite(a),
        is_finite(b),
    ensures
        a < 0x8000_0000 && b < 0x8000_0000 ==> {
            &&& lt(a, b) <==> units(a) < units(b)
            &&& le(a, b) <==> units(a) <= units(b)
            &&& beyond(a, b) <==> units(a) > units(b)
        },
        a >= 0x8000_0000 && b >= 0x8000_0000 ==> {
            &&& lt(a, b) <==> units(a) > units(b)
            &&& le(a, b) <==> units(a) >= units(b)
        },
        a >= 0x8000_0000 && b < 0x8000_0000 ==> {
            &&& lt(a, b) <==> units(a) > 0 || units(b) > 0
            &&& le(a, b)
            &&& beyond(a, b) <==> units(a) > units(b)
        },
        units(ZERO) == 0,
        units(ONE) == pow2(149),
{
    let m = magnitude(a) as u32;
    let n = magnitude(b) as u32;
    if m < n {
        lemma_units_grow(m, n);
    }
    if n < m {
        lemma_units_grow(n, m);
    }
    assert(magnitude(m) == magnitude(a) && magnitude(n) == magnitude(b));
    assert(units(m) == units(a) && units(n) == units(b));
    assert(units(ZERO) == 0) by {
        assert(significand(ZERO) == 0);
        assert(0 * pow2((scale(ZERO) + 149) as nat) == 0) by (nonlinear_arith);
    }
    if m > 0 {
        lemma_units_grow(ZERO, m);
    }
    if n > 0 {
        lemma_units_grow(ZERO, n);
    }
    lemma2_to64();
    lemma_pow2_adds(23, 126);
    assert(significand(ONE) == 0x80_0000 && scale(ONE) == -23);
}

proof fn lemma_ceiling(x: Bits)
    requires
        x < 0x7f80_0000,
    ensures
        units(x) <= ceiling(x) * pow2(149),
        (ceiling(x) - 1) * pow2(149) < units(x),
{
    let s = significand(x);
    lemma_pow2_pos(149);
    if scale(x) >= 0 {
        let k = scale(x) as nat;
        lemma_pow2_adds(k, 149);
        let p = pow2(k);
        let q = pow2(149);
        assert(s * (p * q) == (s * p) * q) by (nonlinear_arith);
        assert((s * p - 1) * q < (s * p) * q) by (nonlinear_arith)
            requires
                q > 0,
        ;
    } else {
        let k = (-scale(x)) as nat;
        let i = (scale(x) + 149) as nat;
        lemma_pow2_adds(k, i);
        lemma_pow2_pos(k);
        lemma_pow2_pos(i);
        let d = pow2(k) as int;
        let e = pow2(i) as int;
        let c = (s + d - 1) / d;
        assert(c * d >= s && (c - 1) * d < s) by (nonlinear_arith)
            requires
                c == (s + d - 1) / d,
                d > 0,
        ;
        assert(c >= 0) by (nonlinear_arith)
            requires
                c * d >= s,
                s >= 0,
                d > 0,
        ;
        assert(ceiling(x) == c);
        assert(s * e <= c * (d * e) && (c - 1) * (d * e) < s * e) by (nonlinear_arith)
            requires
                c * d >= s,
                (c - 1) * d < s,
                e > 0,
        ;
    }
}

/// A number rounds up to the first whole number that is not below it, and to the
/// greatest there is where it is beyond that; what is negative or no number rounds
/// to zero.
pub proof fn rounding_up_finds_the_first_whole_number(x: Bits)
    ensures
        is_nan(x) || x >= 0x8000_0000 ==> ceil_u32_of(x) == 0,
        x == 0x7f80_0000 ==> ceil_u32_of(x) == u32::MAX,
        x < 0x7f80_0000 ==> {
            &&& (ceil_u32_of(x) - 1) * pow2(149) < units(x)
            &&& ceil_u32_of(x) < u32::MAX ==> units(x) <= ceil_u32_of(x) * pow2(149)
        },
{
    if x < 0x7f80_0000 {
        lemma_ceiling(x);
        let c = ceiling(x);
        let r = ceil_u32_of(x);
        let q = pow2(149);
        assert((r - 1) * q <= (c - 1) * q) by (nonlinear_arith)
            requires
                r <= c,
                q >= 0,
        ;
    }
}

} // verus!
