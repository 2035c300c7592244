//! Non-negative IEEE 754 single-precision numbers, held by their bit patterns.
//!
//! Scores are single-precision numbers. They are computed here with integer
//! arithmetic, so that every rounding step is part of what is proved. A number is
//! the `u32` that holds its bits; only numbers with a clear sign bit occur, and for
//! those the order of the bit patterns is the order of the numbers. The exceptions are
//! `plus_signed` and `times_signed`, which take any pattern.
use vstd::arithmetic::power2::*;
use vstd::prelude::*;

verus! {

/// The bit pattern of a non-negative single-precision number.
pub type Single = u32;

/// The bit pattern of zero.
pub const ZERO: Single = 0;

/// The bit pattern of one.
pub const ONE: Single = 0x3f80_0000;

/// The bit pattern of positive infinity. Every pattern below it is a finite number.
pub const INFINITY: Single = 0x7f80_0000;

/// The value with bit pattern `b`, in units of two to the power of -149 (the smallest
/// positive value). Infinity counts as two to the power of 128, the value that would
/// follow the largest finite one.
pub open spec fn magnitude(b: int) -> nat {
    if b < 0x80_0000 {
        b as nat
    } else {
        ((0x80_0000 + b % 0x80_0000) * pow2((b / 0x80_0000 - 1) as nat)) as nat
    }
}

/// Whether `num / den` (in the unit of `magnitude`) lies on or above the midpoint
/// between the value with pattern `r` and the value just below it. The midpoint itself
/// belongs to the even one of the two patterns.
pub open spec fn reaches(r: int, num: nat, den: nat) -> bool {
    let midpoint_twice = den * (magnitude(r - 1) + magnitude(r));
    ||| r <= 0
    ||| midpoint_twice < 2 * num
    ||| midpoint_twice == 2 * num && r % 2 == 0
}

/// Whether `r` is `num / den` rounded to nearest, ties to even.
pub open spec fn is_nearest(r: Single, num: nat, den: nat) -> bool {
    &&& r <= INFINITY
    &&& reaches(r as int, num, den)
    &&& r < INFINITY ==> !reaches(r + 1, num, den)
}

/// `num / den` (in the unit of `magnitude`) rounded to nearest, ties to even.
pub open spec fn rounded(num: nat, den: nat) -> Single {
    choose|r: Single| is_nearest(r, num, den)
}

/// The single-precision number nearest to the integer `n`.
pub open spec fn from_integer(n: nat) -> Single {
    rounded(n * pow2(149), 1)
}

/// The single-precision sum.
pub open spec fn sum(a: Single, b: Single) -> Single {
    rounded(magnitude(a as int) + magnitude(b as int), 1)
}

/// The single-precision difference, for `b` at most `a`.
pub open spec fn difference(a: Single, b: Single) -> Single {
    rounded((magnitude(a as int) - magnitude(b as int)) as nat, 1)
}

/// The single-precision product.
pub open spec fn product(a: Single, b: Single) -> Single {
    rounded(magnitude(a as int) * magnitude(b as int), pow2(149))
}

/// The single-precision quotient, for a `b` other than zero.
pub open spec fn quotient(a: Single, b: Single) -> Single {
    rounded(magnitude(a as int) * pow2(149), magnitude(b as int))
}

/// The significand `s` at exponent `q` has the pattern `q * 2^23 + s`.
proof fn lemma_magnitude_parts(q: nat, s: nat)
    requires
        s <= 0x100_0000,
        q == 0 || s >= 0x80_0000,
    ensures
        magnitude((q * 0x80_0000 + s) as int) == s * pow2(q),
{
    let b = (q * 0x80_0000 + s) as int;
    lemma_pow2(0);
    assert(pow2(0) == 1) by { lemma2_to64(); }
    if b < 0x80_0000 {
        assert(q == 0);
    } else if s == 0x100_0000 {
        assert(b / 0x80_0000 - 1 == q + 1);
        assert(b % 0x80_0000 == 0);
        lemma_pow2_unfold((q + 1) as nat);
        assert(0x80_0000 * (2 * pow2(q)) == 0x100_0000 * pow2(q)) by (nonlinear_arith);
    } else {
        assert(b / 0x80_0000 - 1 == q);
        assert(b % 0x80_0000 == s - 0x80_0000);
    }
}

/// The values grow with their patterns.
pub proof fn lemma_magnitude_step(b: int)
    requires
        0 <= b,
    ensures
        magnitude(b) < magnitude(b + 1),
{
    let q = if b < 0x80_0000 { 0 } else { (b / 0x80_0000 - 1) as nat };
    let s = (b - q * 0x80_0000) as nat;
    lemma_magnitude_parts(q, s);
    lemma_magnitude_parts(q, (s + 1) as nat);
    lemma_pow2_pos(q);
    assert((s + 1) * pow2(q) > s * pow2(q)) by (nonlinear_arith)
        requires
            pow2(q) > 0,
    ;
}

/// The values grow with their patterns.
pub proof fn lemma_magnitude_monotone(a: int, b: int)
    requires
        0 <= a <= b,
    ensures
        magnitude(a) <= magnitude(b),
        a < b ==> magnitude(a) < magnitude(b),
    decreases b - a,
{
    if a < b {
        lemma_magnitude_monotone(a, b - 1);
        lemma_magnitude_step(b - 1);
    }
}

/// What reaches a pattern reaches every lower one.
proof fn lemma_reaches_down(r: int, t: int, num: nat, den: nat)
    requires
        den > 0,
        r < t,
        reaches(t, num, den),
    ensures
        reaches(r, num, den),
{
    if r > 0 {
        lemma_magnitude_monotone(r - 1, t - 1);
        lemma_magnitude_monotone(r, t);
        let low = magnitude(r - 1) + magnitude(r);
        let high = magnitude(t - 1) + magnitude(t);
        assert(den * low < den * high) by (nonlinear_arith)
            requires
                den > 0,
                low < high,
        ;
    }
}

/// At most one pattern is the nearest.
proof fn lemma_nearest_unique(r: Single, t: Single, num: nat, den: nat)
    requires
        den > 0,
        is_nearest(r, num, den),
        is_nearest(t, num, den),
    ensures
        r == t,
{
    if r < t {
        if r + 1 < t {
            lemma_reaches_down(r + 1, t as int, num, den);
        }
    } else if t < r {
        if t + 1 < r {
            lemma_reaches_down(t + 1, r as int, num, den);
        }
    }
}

/// Some pattern at most `top` that is reached, with `top` or a pattern above it that is
/// not reached.
proof fn lemma_nearest_exists(top: Single, num: nat, den: nat) -> (r: Single)
    requires
        top <= INFINITY,
        top < INFINITY ==> !reaches(top + 1, num, den),
    ensures
        is_nearest(r, num, den),
    decreases top,
{
    if reaches(top as int, num, den) {
        top
    } else {
        lemma_nearest_exists((top - 1) as Single, num, den)
    }
}

/// `rounded` is the nearest pattern, and the only one.
pub proof fn lemma_rounded(num: nat, den: nat)
    requires
        den > 0,
    ensures
        is_nearest(rounded(num, den), num, den),
        forall|r: Single| is_nearest(r, num, den) ==> r == rounded(num, den),
{
    let _ = lemma_nearest_exists(INFINITY, num, den);
    assert forall|r: Single| is_nearest(r, num, den) implies r == rounded(num, den) by {
        lemma_nearest_unique(r, rounded(num, den), num, den);
    }
}

/// A number that is at least `b` is rounded to at least `b`.
pub proof fn lemma_rounded_at_least(b: Single, num: nat, den: nat)
    requires
        den > 0,
        b <= INFINITY,
        den * magnitude(b as int) <= num,
    ensures
        b <= rounded(num, den),
{
    lemma_rounded(num, den);
    let r = rounded(num, den);
    if r < b {
        lemma_magnitude_step(b - 1);
        let pair = magnitude(b - 1) + magnitude(b as int);
        assert(den * pair < 2 * (den * magnitude(b as int))) by (nonlinear_arith)
            requires
                den > 0,
                pair < 2 * magnitude(b as int),
        ;
        if r + 1 < b {
            lemma_reaches_down(r + 1, b as int, num, den);
        }
    }
}

/// A number that is at most `b` is rounded to at most `b`.
pub proof fn lemma_rounded_at_most(b: Single, num: nat, den: nat)
    requires
        den > 0,
        b <= INFINITY,
        num <= den * magnitude(b as int),
    ensures
        rounded(num, den) <= b,
{
    lemma_rounded(num, den);
    let r = rounded(num, den);
    if b < r {
        lemma_magnitude_step(b as int);
        let pair = magnitude(b as int) + magnitude(b + 1);
        assert(den * pair > 2 * (den * magnitude(b as int))) by (nonlinear_arith)
            requires
                den > 0,
                pair > 2 * magnitude(b as int),
        ;
        if b + 1 < r {
            lemma_reaches_down(b + 1, r as int, num, den);
        }
    }
}

/// Rounding keeps the order of the numbers.
pub proof fn lemma_rounded_monotone(num1: nat, den1: nat, num2: nat, den2: nat)
    requires
        den1 > 0,
        den2 > 0,
        num1 * den2 <= num2 * den1,
    ensures
        rounded(num1, den1) <= rounded(num2, den2),
{
    lemma_rounded(num1, den1);
    lemma_rounded(num2, den2);
    let r = rounded(num1, den1);
    let t = rounded(num2, den2);
    if t < r {
        let pair = magnitude(r - 1) + magnitude(r as int);
        // `num1 / den1` reaches `r`, so `num2 / den2` does too.
        assert(den2 * (den1 * pair) <= den2 * (2 * num1)) by (nonlinear_arith)
            requires
                den1 * pair <= 2 * num1,
        ;
        assert(den1 * (den2 * pair) == den2 * (den1 * pair)) by (nonlinear_arith);
        assert(den2 * (2 * num1) == 2 * (num1 * den2)) by (nonlinear_arith);
        assert(den1 * (2 * num2) == 2 * (num2 * den1)) by (nonlinear_arith);
        assert(den2 * pair <= 2 * num2) by (nonlinear_arith)
            requires
                den1 > 0,
                den1 * (den2 * pair) <= den1 * (2 * num2),
        ;
        if den2 * pair == 2 * num2 {
            assert(den1 * pair == 2 * num1) by (nonlinear_arith)
                requires
                    den2 > 0,
                    den2 * (den1 * pair) == den2 * (2 * num1),
            ;
        }
        assert(reaches(r as int, num2, den2));
        if t + 1 < r {
            lemma_reaches_down(t + 1, r as int, num2, den2);
        }
    }
}

/// A value that is itself a single-precision number is not changed by rounding.
pub proof fn lemma_rounded_exact(b: Single, num: nat, den: nat)
    requires
        den > 0,
        b <= INFINITY,
        num == den * magnitude(b as int),
    ensures
        rounded(num, den) == b,
{
    lemma_rounded_at_least(b, num, den);
    lemma_rounded_at_most(b, num, den);
}

proof fn lemma_pow2_127()
    ensures
        pow2(127) == 0x8000_0000_0000_0000_0000_0000_0000_0000,
{
    lemma2_to64();
    lemma2_to64_rest();
    lemma_pow2_adds(63, 64);
}

/// Two to the power of `n`.
fn power_of_two(n: u32) -> (p: u128)
    requires
        n <= 127,
    ensures
        p == pow2(n as nat),
{
    proof {
        lemma2_to64();
        lemma_pow2_127();
    }
    let mut p: u128 = 1;
    let mut i: u32 = 0;
    while i < n
        invariant
            i <= n <= 127,
            p == pow2(i as nat),
            pow2(127) == 0x8000_0000_0000_0000_0000_0000_0000_0000,
        decreases n - i,
    {
        proof {
            lemma_pow2_unfold((i + 1) as nat);
            if i + 1 < 127 {
                lemma_pow2_strictly_increases((i + 1) as nat, 127);
            }
        }
        p = 2 * p;
        i = i + 1;
    }
    p
}

/// The number of bits of `m`.
fn bit_length(m: u128) -> (length: u32)
    requires
        m < pow2(127),
    ensures
        length <= 127,
        m < pow2(length as nat),
        length > 0 ==> pow2((length - 1) as nat) <= m,
{
    proof {
        lemma2_to64();
        lemma_pow2_127();
    }
    let mut length: u32 = 0;
    let mut p: u128 = 1;
    while p <= m
        invariant
            length <= 127,
            m < pow2(127),
            p == pow2(length as nat),
            length > 0 ==> pow2((length - 1) as nat) <= m,
            pow2(127) == 0x8000_0000_0000_0000_0000_0000_0000_0000,
        decreases 127 - length,
    {
        proof {
            if length >= 127 {
                assert(false);
            }
            lemma_pow2_unfold((length + 1) as nat);
            if length + 1 < 127 {
                lemma_pow2_strictly_increases((length + 1) as nat, 127);
            }
        }
        p = 2 * p;
        length = length + 1;
    }
    length
}

/// A multiple of the unit of `magnitude`, scaled by `den` and by two to the power of 512.
proof fn lemma_scale(q: nat, s: nat, den: nat)
    ensures
        den * (s * pow2(q)) * pow2(512) == s * (den * pow2(q + 512)),
{
    lemma_pow2_adds(q, 512);
    assert(den * (s * pow2(q)) * pow2(512) == s * (den * (pow2(q) * pow2(512))))
        by (nonlinear_arith);
}

/// A number on `s` or above it, up to the midpoint above `s`, is rounded down to `s`.
proof fn lemma_round_down(q: nat, s: nat, num: nat, den: nat)
    requires
        den > 0,
        s < 0x100_0000,
        q <= 253,
        q == 0 || s >= 0x80_0000,
        ({
            let place = den * pow2(q + 512);
            let scaled = num * pow2(512);
            &&& s * place <= scaled
            &&& 2 * scaled <= (2 * s + 1) * place
            &&& s % 2 == 1 ==> 2 * scaled < (2 * s + 1) * place
        }),
    ensures
        is_nearest((q * 0x80_0000 + s) as Single, num, den),
{
    let place = den * pow2(q + 512);
    let scaled = num * pow2(512);
    let r = (q * 0x80_0000 + s) as int;
    lemma_pow2_pos(512);
    lemma_magnitude_parts(q, s);
    lemma_magnitude_parts(q, s + 1);
    lemma_scale(q, s, den);
    lemma_scale(q, s + 1, den);
    let here = magnitude(r);
    let above = magnitude(r + 1);
    assert((2 * s + 1) * place == s * place + (s + 1) * place) by (nonlinear_arith);
    assert(den * (here + above) * pow2(512) == den * here * pow2(512) + den * above * pow2(512))
        by (nonlinear_arith);
    assert(2 * num * pow2(512) == 2 * scaled) by (nonlinear_arith)
        requires
            scaled == num * pow2(512),
    ;
    assert(2 * num <= den * (here + above)) by (nonlinear_arith)
        requires
            pow2(512) > 0,
            2 * num * pow2(512) <= den * (here + above) * pow2(512),
    ;
    if s % 2 == 1 {
        assert(2 * num < den * (here + above)) by (nonlinear_arith)
            requires
                2 * num * pow2(512) < den * (here + above) * pow2(512),
        ;
    }
    assert(!reaches(r + 1, num, den));
    if r > 0 {
        lemma_magnitude_step(r - 1);
        let below = magnitude(r - 1);
        assert(den * here <= num) by (nonlinear_arith)
            requires
                pow2(512) > 0,
                den * here * pow2(512) <= num * pow2(512),
        ;
        assert(den * (below + here) < 2 * (den * here)) by (nonlinear_arith)
            requires
                den > 0,
                below < here,
        ;
    }
}

/// A number below `s + 1`, from the midpoint below `s + 1`, is rounded up to `s + 1`.
proof fn lemma_round_up(q: nat, s: nat, num: nat, den: nat)
    requires
        den > 0,
        s < 0x100_0000,
        q <= 253,
        q == 0 || s >= 0x80_0000,
        ({
            let place = den * pow2(q + 512);
            let scaled = num * pow2(512);
            &&& scaled < (s + 1) * place
            &&& (2 * s + 1) * place <= 2 * scaled
            &&& s % 2 == 0 ==> (2 * s + 1) * place < 2 * scaled
        }),
    ensures
        is_nearest((q * 0x80_0000 + s + 1) as Single, num, den),
{
    let place = den * pow2(q + 512);
    let scaled = num * pow2(512);
    let r = (q * 0x80_0000 + s + 1) as int;
    lemma_pow2_pos(512);
    lemma_magnitude_parts(q, s);
    lemma_magnitude_parts(q, s + 1);
    lemma_scale(q, s, den);
    lemma_scale(q, s + 1, den);
    let below = magnitude(r - 1);
    let here = magnitude(r);
    assert((2 * s + 1) * place == s * place + (s + 1) * place) by (nonlinear_arith);
    assert(den * (below + here) * pow2(512) == den * below * pow2(512) + den * here * pow2(512))
        by (nonlinear_arith);
    assert(2 * num * pow2(512) == 2 * scaled) by (nonlinear_arith)
        requires
            scaled == num * pow2(512),
    ;
    assert(den * (below + here) <= 2 * num) by (nonlinear_arith)
        requires
            pow2(512) > 0,
            den * (below + here) * pow2(512) <= 2 * num * pow2(512),
    ;
    if s % 2 == 0 {
        assert(den * (below + here) < 2 * num) by (nonlinear_arith)
            requires
                den * (below + here) * pow2(512) < 2 * num * pow2(512),
        ;
    }
    assert(reaches(r, num, den));
    lemma_magnitude_step(r);
    let above = magnitude(r + 1);
    assert(num < den * here) by (nonlinear_arith)
        requires
            pow2(512) > 0,
            num * pow2(512) < den * here * pow2(512),
    ;
    assert(2 * (den * here) < den * (here + above)) by (nonlinear_arith)
        requires
            den > 0,
            here < above,
    ;
}

/// Whether `num / den` is `m * 2^(k - 512)`, or, where `inexact`, lies strictly between
/// that and the next multiple of `2^(k - 512)`.
spec fn stands_for(m: nat, k: nat, inexact: bool, num: nat, den: nat) -> bool {
    let step = den * pow2(k);
    let scaled = num * pow2(512);
    if inexact {
        m * step < scaled < (m + 1) * step
    } else {
        m * step == scaled
    }
}

/// What is left below the last place decides which way the number is rounded.
proof fn lemma_round_at(
    m: nat,
    k: nat,
    inexact: bool,
    q: nat,
    shift: nat,
    num: nat,
    den: nat,
)
    requires
        den > 0,
        stands_for(m, k, inexact, num, den),
        shift > 0,
        k + shift == q + 512,
        q <= 253,
        m < 0x100_0000 * pow2(shift),
        q == 0 || m >= 0x80_0000 * pow2(shift),
    ensures
        ({
            let s = m / pow2(shift);
            let rest = m % pow2(shift);
            let half = pow2((shift - 1) as nat);
            let up = rest > half || (rest == half && (inexact || s % 2 == 1));
            &&& s < 0x100_0000
            &&& is_nearest((q * 0x80_0000 + s + if up { 1int } else { 0 }) as Single, num, den)
        }),
{
    let t = pow2(shift);
    let half = pow2((shift - 1) as nat);
    let s = m / t;
    let rest = m % t;
    lemma_pow2_pos(shift);
    lemma_pow2_unfold(shift);
    assert(m == s * t + rest && rest < t && s < 0x100_0000) by (nonlinear_arith)
        requires
            t > 0,
            s == m / t,
            rest == m % t,
            m < 0x100_0000 * t,
    ;
    if q > 0 {
        assert(s >= 0x80_0000) by (nonlinear_arith)
            requires
                t > 0,
                s == m / t,
                m >= 0x80_0000 * t,
        ;
    }
    let step = den * pow2(k);
    let place = den * pow2(q + 512);
    let scaled = num * pow2(512);
    lemma_pow2_adds(k, shift);
    assert(place == t * step) by (nonlinear_arith)
        requires
            place == den * (pow2(k) * t),
            step == den * pow2(k),
    ;
    lemma_pow2_pos(k);
    assert(step > 0) by (nonlinear_arith)
        requires
            step == den * pow2(k),
            den > 0,
            pow2(k) > 0,
    ;
    assert(m * step == s * place + rest * step) by (nonlinear_arith)
        requires
            m == s * t + rest,
            place == t * step,
    ;
    assert((m + 1) * step == m * step + step) by (nonlinear_arith);
    assert((s + 1) * place == s * place + place) by (nonlinear_arith);
    assert((2 * s + 1) * place == 2 * (s * place) + place) by (nonlinear_arith);
    assert(place == 2 * (half * step)) by (nonlinear_arith)
        requires
            place == t * step,
            t == 2 * half,
    ;
    assert(rest * step + step <= place) by (nonlinear_arith)
        requires
            rest + 1 <= t,
            step > 0,
            place == t * step,
    ;
    if rest > half {
        assert(rest * step >= half * step + step) by (nonlinear_arith)
            requires
                rest >= half + 1,
                step > 0,
        ;
        lemma_round_up(q, s, num, den);
    } else if rest == half {
        if inexact || s % 2 == 1 {
            lemma_round_up(q, s, num, den);
        } else {
            lemma_round_down(q, s, num, den);
        }
    } else {
        assert(rest * step + step <= half * step) by (nonlinear_arith)
            requires
                rest + 1 <= half,
                step > 0,
        ;
        lemma_round_down(q, s, num, den);
    }
}

/// A multiple of the last place is not changed.
proof fn lemma_round_exact(m: nat, k: nat, q: nat, shift: nat, num: nat, den: nat)
    requires
        den > 0,
        stands_for(m, k, false, num, den),
        k == q + 512 + shift,
        q <= 253,
        m * pow2(shift) < 0x100_0000,
        q == 0 || m * pow2(shift) >= 0x80_0000,
    ensures
        is_nearest((q * 0x80_0000 + m * pow2(shift)) as Single, num, den),
{
    let place = den * pow2(q + 512);
    lemma_pow2_pos(q + 512);
    lemma_pow2_adds(q + 512, shift);
    assert(m * (den * pow2(k)) == (m * pow2(shift)) * place) by (nonlinear_arith)
        requires
            pow2(k) == pow2(q + 512) * pow2(shift),
            place == den * pow2(q + 512),
    ;
    let s = m * pow2(shift);
    assert((2 * s + 1) * place == 2 * (s * place) + place) by (nonlinear_arith);
    assert(place > 0) by (nonlinear_arith)
        requires
            place == den * pow2(q + 512),
            den > 0,
            pow2(q + 512) > 0,
    ;
    lemma_round_down(q, s, num, den);
}

/// Rounds `m * 2^(k - 512)`, or, where `inexact`, a number just above it.
#[verifier::spinoff_prover]
fn round(m: u128, k: u32, inexact: bool, Ghost(num): Ghost<nat>, Ghost(den): Ghost<nat>) -> (r:
    Single)
    requires
        den > 0,
        m < pow2(127),
        k <= 2000,
        inexact ==> m >= 0x100_0000,
        stands_for(m as nat, k as nat, inexact, num, den),
    ensures
        r == rounded(num, den),
        r <= INFINITY,
{
    proof {
        lemma2_to64();
        lemma_pow2_127();
        lemma_rounded(num, den);
        lemma_pow2_pos(512);
        lemma_pow2_pos(k as nat);
    }
    if m == 0 {
        proof {
            assert(0 * (den * pow2(k as nat)) == 0);
            assert(num == 0) by (nonlinear_arith)
                requires
                    num * pow2(512) == 0,
                    pow2(512) > 0,
            ;
            assert(is_nearest(ZERO, num, den));
        }
        return ZERO;
    }
    let length = bit_length(m);
    let q: u32 = if length + k > 536 {
        length + k - 536
    } else {
        0
    };
    let ghost step = den * pow2(k as nat);
    if q > 253 {
        proof {
            // At least two to the power of 128.
            lemma_pow2_adds((length - 1) as nat, k as nat);
            lemma_pow2_adds(277, 512);
            if length - 1 + k > 277 + 512 {
                lemma_pow2_strictly_increases(277 + 512, (length - 1 + k) as nat);
            }
            assert(m * step <= num * pow2(512));
            assert(m * step >= den * (pow2(277) * pow2(512))) by (nonlinear_arith)
                requires
                    step == den * pow2(k as nat),
                    m >= pow2((length - 1) as nat),
                    pow2((length - 1) as nat) * pow2(k as nat) >= pow2(277) * pow2(512),
            ;
            assert(den * pow2(277) <= num) by (nonlinear_arith)
                requires
                    pow2(512) > 0,
                    den * (pow2(277) * pow2(512)) <= num * pow2(512),
            ;
            lemma_pow2_adds(23, 254);
            assert(magnitude(INFINITY as int) == pow2(277));
            lemma_rounded_at_least(INFINITY, num, den);
        }
        return INFINITY;
    }
    let s: u128;
    if k >= q + 512 {
        let shift: u32 = k - 512 - q;
        proof {
            assert(!inexact) by {
                if inexact && length < 25 {
                    lemma_pow2_strictly_increases(length as nat, 25);
                    if length < 24 {
                        lemma_pow2_strictly_increases(length as nat, 24);
                    }
                }
            }
            lemma_pow2_adds(length as nat, shift as nat);
            lemma_pow2_pos(shift as nat);
            assert(m * pow2(shift as nat) < pow2(length as nat) * pow2(shift as nat))
                by (nonlinear_arith)
                requires
                    m < pow2(length as nat),
                    pow2(shift as nat) > 0,
            ;
            if length + shift < 24 {
                lemma_pow2_strictly_increases((length + shift) as nat, 24);
            }
            if q > 0 {
                lemma_pow2_adds((length - 1) as nat, shift as nat);
                assert(m * pow2(shift as nat) >= pow2((length - 1) as nat) * pow2(shift as nat))
                    by (nonlinear_arith)
                    requires
                        m >= pow2((length - 1) as nat),
                ;
            }
            lemma_round_exact(m as nat, k as nat, q as nat, shift as nat, num, den);
        }
        let scale = power_of_two(shift);
        s = m * scale;
    } else {
        let shift: u32 = q + 512 - k;
        if shift > 127 {
            proof {
                // Less than half of the smallest positive value.
                assert(num * pow2(512) < (m + 1) * step) by (nonlinear_arith)
                    requires
                        num * pow2(512) == m * step || num * pow2(512) < (m + 1) * step,
                        step == den * pow2(k as nat),
                        den > 0,
                        pow2(k as nat) > 0,
                ;
                lemma_pow2_adds(127, k as nat);
                if 127 + k < 511 {
                    lemma_pow2_strictly_increases((127 + k) as nat, 511);
                }
                lemma_pow2_unfold(512);
                assert((m + 1) * step <= den * pow2(511)) by (nonlinear_arith)
                    requires
                        step == den * pow2(k as nat),
                        m + 1 <= pow2(127),
                        pow2(127) * pow2(k as nat) <= pow2(511),
                ;
                assert(2 * num < den) by (nonlinear_arith)
                    requires
                        num * (2 * pow2(511)) < den * pow2(511),
                        pow2(511) > 0,
                ;
                assert(den * 1 == den);
                assert(is_nearest(ZERO, num, den));
            }
            return ZERO;
        }
        let scale = power_of_two(shift);
        proof {
            lemma_pow2_adds(24, shift as nat);
            lemma_pow2_pos(shift as nat);
            if length < 24 + shift {
                lemma_pow2_strictly_increases(length as nat, (24 + shift) as nat);
            }
            if q > 0 {
                lemma_pow2_adds(23, shift as nat);
            }
            lemma_round_at(m as nat, k as nat, inexact, q as nat, shift as nat, num, den);
            lemma_pow2_unfold(shift as nat);
        }
        let whole = m / scale;
        let rest = m % scale;
        let half = scale / 2;
        if rest > half || (rest == half && (inexact || whole % 2 == 1)) {
            s = whole + 1;
        } else {
            s = whole;
        }
    }
    q * 0x80_0000 + s as u32
}

/// The significand and the exponent of the last place (in units of `magnitude`).
fn parts(b: Single) -> (p: (u32, u32))
    requires
        b <= INFINITY,
    ensures
        magnitude(b as int) == p.0 * pow2(p.1 as nat),
        p.0 < 0x100_0000,
        p.1 <= 254,
        p.1 > 0 ==> p.0 >= 0x80_0000,
        p.0 == 0 <==> b == 0,
{
    if b < 0x80_0000 {
        proof {
            lemma_magnitude_parts(0, b as nat);
        }
        (b, 0)
    } else {
        let s: u32 = 0x80_0000 + b % 0x80_0000;
        let q: u32 = b / 0x80_0000 - 1;
        proof {
            lemma_magnitude_parts(q as nat, s as nat);
            assert(b == q * 0x80_0000 + s);
        }
        (s, q)
    }
}

/// The single-precision number nearest to `n`.
pub fn of_u64(n: u64) -> (r: Single)
    ensures
        r == from_integer(n as nat),
        r <= INFINITY,
{
    proof {
        lemma_pow2_127();
        lemma_pow2_adds(149, 512);
        assert(n * (1 * pow2(661)) == (n * pow2(149)) * pow2(512)) by (nonlinear_arith)
            requires
                pow2(661) == pow2(149) * pow2(512),
        ;
    }
    round(n as u128, 661, false, Ghost((n * pow2(149)) as nat), Ghost(1))
}

/// Significands that lie on a common place add up there.
proof fn lemma_align(sa: nat, qa: nat, sb: nat, qb: nat)
    requires
        qa >= qb,
    ensures
        (sa * pow2((qa - qb) as nat)) * pow2(qb) == sa * pow2(qa),
        (sa * pow2((qa - qb) as nat) + sb) * (1 * pow2(qb + 512)) == (sa * pow2(qa) + sb * pow2(
            qb,
        )) * pow2(512),
        sa * pow2((qa - qb) as nat) >= sb ==> (sa * pow2((qa - qb) as nat) - sb) * (1 * pow2(
            qb + 512,
        )) == (sa * pow2(qa) - sb * pow2(qb)) * pow2(512),
{
    let d = (qa - qb) as nat;
    lemma_pow2_adds(d, qb);
    lemma_pow2_adds(qb, 512);
    let m = sa * pow2(d);
    assert(m * pow2(qb) == sa * pow2(qa)) by (nonlinear_arith)
        requires
            m == sa * pow2(d),
            pow2(qa) == pow2(d) * pow2(qb),
    ;
    assert((m + sb) * (1 * (pow2(qb) * pow2(512))) == (m * pow2(qb) + sb * pow2(qb)) * pow2(512))
        by (nonlinear_arith);
    assert((m - sb) * (1 * (pow2(qb) * pow2(512))) == (m * pow2(qb) - sb * pow2(qb)) * pow2(512))
        by (nonlinear_arith);
}

/// A significand far below another one is less than one step of it.
proof fn lemma_far_below(sa: nat, qa: nat, sb: nat, qb: nat)
    requires
        qa >= qb + 84,
        sb < 0x100_0000,
    ensures
        (sa * pow2(60)) * (1 * pow2((qa + 452) as nat)) == sa * pow2(qa) * pow2(512),
        sb * pow2(qb) * pow2(512) < 1 * pow2((qa + 452) as nat),
{
    lemma2_to64();
    lemma2_to64_rest();
    lemma_pow2_adds(60, (qa + 452) as nat);
    lemma_pow2_adds(qa, 512);
    assert((sa * pow2(60)) * (1 * pow2((qa + 452) as nat)) == sa * (pow2(60) * pow2(
        (qa + 452) as nat,
    ))) by (nonlinear_arith);
    assert(sa * pow2(qa) * pow2(512) == sa * (pow2(qa) * pow2(512))) by (nonlinear_arith);
    lemma_pow2_adds(24, qb);
    lemma_pow2_adds(24 + qb, 512);
    lemma_pow2_pos(qb);
    lemma_pow2_pos(512);
    assert(sb * pow2(qb) * pow2(512) < pow2(24) * pow2(qb) * pow2(512)) by (nonlinear_arith)
        requires
            sb < pow2(24),
            pow2(qb) > 0,
            pow2(512) > 0,
    ;
    if 24 + qb + 512 < qa + 452 {
        lemma_pow2_strictly_increases((24 + qb + 512) as nat, (qa + 452) as nat);
    }
}

/// The larger of two numbers has the higher last place.
proof fn lemma_places_ordered(sa: nat, qa: nat, sb: nat, qb: nat)
    requires
        sa < 0x100_0000,
        qb > 0 ==> sb >= 0x80_0000,
        sb * pow2(qb) <= sa * pow2(qa),
    ensures
        qb <= qa,
{
    if qa < qb {
        lemma_pow2_unfold(qb);
        if qa + 1 < qb {
            lemma_pow2_strictly_increases(qa, (qb - 1) as nat);
        }
        lemma_pow2_pos(qa);
        assert(sa * pow2(qa) < sb * pow2(qb)) by (nonlinear_arith)
            requires
                sa < 0x100_0000,
                sb >= 0x80_0000,
                pow2(qb) >= 2 * pow2(qa),
                pow2(qa) > 0,
        ;
    }
}

/// The sum of `a` and `b`, where the last place of `a` is not below that of `b`.
fn plus_ordered(a: Single, b: Single) -> (r: Single)
    requires
        b <= a <= INFINITY,
    ensures
        r == sum(a, b),
        r <= INFINITY,
{
    let (sa, qa) = parts(a);
    let (sb, qb) = parts(b);
    proof {
        lemma_magnitude_monotone(b as int, a as int);
        lemma_places_ordered(sa as nat, qa as nat, sb as nat, qb as nat);
        lemma_pow2_127();
        lemma2_to64();
        lemma2_to64_rest();
        lemma_pow2_adds(60, 24);
        lemma_pow2_strictly_increases(84, 127);
        lemma_pow2_adds(103, 24);
    }
    let ghost num = magnitude(a as int) + magnitude(b as int);
    let d: u32 = qa - qb;
    if d <= 103 {
        let scale = power_of_two(d);
        proof {
            lemma_align(sa as nat, qa as nat, sb as nat, qb as nat);
            if d < 103 {
                lemma_pow2_strictly_increases(d as nat, 103);
            }
            assert(sa * scale <= 0xff_ffff * pow2(103)) by (nonlinear_arith)
                requires
                    sa <= 0xff_ffff,
                    scale <= pow2(103),
            ;
        }
        round(sa as u128 * scale + sb as u128, qb + 512, false, Ghost(num), Ghost(1))
    } else {
        let scale = power_of_two(60);
        proof {
            lemma_far_below(sa as nat, qa as nat, sb as nat, qb as nat);
            assert(0x80_0000 * pow2(60) <= sa * scale < 0x100_0000 * pow2(60)) by (nonlinear_arith)
                requires
                    0x80_0000 <= sa < 0x100_0000,
                    scale == pow2(60),
                    pow2(60) > 0,
            ;
            let hi = sa * pow2(qa as nat);
            let lo = sb * pow2(qb as nat);
            assert((hi + lo) * pow2(512) == hi * pow2(512) + lo * pow2(512)) by (nonlinear_arith);
            let m = sa * scale;
            let step = 1 * pow2((qa + 452) as nat);
            assert((m + 1) * step == m * step + step) by (nonlinear_arith);
            lemma_pow2_pos(qb as nat);
            lemma_pow2_pos(512);
            assert(sb > 0 ==> lo * pow2(512) > 0) by (nonlinear_arith)
                requires
                    lo == sb * pow2(qb as nat),
                    pow2(qb as nat) > 0,
                    pow2(512) > 0,
            ;
        }
        round(sa as u128 * scale, qa + 452, sb > 0, Ghost(num), Ghost(1))
    }
}

/// The single-precision sum.
pub fn plus(a: Single, b: Single) -> (r: Single)
    requires
        a <= INFINITY,
        b <= INFINITY,
    ensures
        r == sum(a, b),
        r <= INFINITY,
{
    if b <= a {
        plus_ordered(a, b)
    } else {
        plus_ordered(b, a)
    }
}

/// The single-precision difference.
pub fn minus(a: Single, b: Single) -> (r: Single)
    requires
        b <= a <= INFINITY,
    ensures
        r == difference(a, b),
        r <= INFINITY,
{
    let (sa, qa) = parts(a);
    let (sb, qb) = parts(b);
    proof {
        lemma_magnitude_monotone(b as int, a as int);
        lemma_places_ordered(sa as nat, qa as nat, sb as nat, qb as nat);
        lemma_pow2_127();
        lemma2_to64();
        lemma2_to64_rest();
        lemma_pow2_adds(60, 24);
        lemma_pow2_strictly_increases(84, 127);
        lemma_pow2_adds(103, 24);
    }
    let ghost num = (magnitude(a as int) - magnitude(b as int)) as nat;
    let d: u32 = qa - qb;
    if d <= 103 {
        let scale = power_of_two(d);
        proof {
            lemma_align(sa as nat, qa as nat, sb as nat, qb as nat);
            if d < 103 {
                lemma_pow2_strictly_increases(d as nat, 103);
            }
            assert(sa * scale <= 0xff_ffff * pow2(103)) by (nonlinear_arith)
                requires
                    sa <= 0xff_ffff,
                    scale <= pow2(103),
            ;
            lemma_pow2_pos(qb as nat);
            assert(sa * scale >= sb) by (nonlinear_arith)
                requires
                    sb * pow2(qb as nat) <= (sa * scale) * pow2(qb as nat),
                    pow2(qb as nat) > 0,
            ;
        }
        round(sa as u128 * scale - sb as u128, qb + 512, false, Ghost(num), Ghost(1))
    } else {
        let scale = power_of_two(60);
        proof {
            lemma_far_below(sa as nat, qa as nat, sb as nat, qb as nat);
            assert(0x80_0000 * pow2(60) <= sa * scale < 0x100_0000 * pow2(60)) by (nonlinear_arith)
                requires
                    0x80_0000 <= sa < 0x100_0000,
                    scale == pow2(60),
                    pow2(60) > 0,
            ;
            let hi = sa * pow2(qa as nat);
            let lo = sb * pow2(qb as nat);
            assert((hi - lo) * pow2(512) == hi * pow2(512) - lo * pow2(512)) by (nonlinear_arith);
            let m = sa * scale;
            let step = 1 * pow2((qa + 452) as nat);
            assert((m - 1) * step == m * step - step) by (nonlinear_arith);
            assert((m - 1 + 1) * step == m * step);
            lemma_pow2_pos(qb as nat);
            lemma_pow2_pos(512);
            assert(sb > 0 ==> lo * pow2(512) > 0) by (nonlinear_arith)
                requires
                    lo == sb * pow2(qb as nat),
                    pow2(qb as nat) > 0,
                    pow2(512) > 0,
            ;
        }
        if sb > 0 {
            round(sa as u128 * scale - 1, qa + 452, true, Ghost(num), Ghost(1))
        } else {
            round(sa as u128 * scale, qa + 452, false, Ghost(num), Ghost(1))
        }
    }
}

/// The single-precision product.
pub fn times(a: Single, b: Single) -> (r: Single)
    requires
        a < INFINITY,
        b < INFINITY,
    ensures
        r == product(a, b),
        r <= INFINITY,
{
    let (sa, qa) = parts(a);
    let (sb, qb) = parts(b);
    let ghost num = magnitude(a as int) * magnitude(b as int);
    proof {
        lemma_pow2_127();
        lemma2_to64();
        assert(sa * sb < 0x100_0000 * 0x100_0000) by (nonlinear_arith)
            requires
                sa < 0x100_0000,
                sb < 0x100_0000,
        ;
        lemma_pow2_pos(149);
        lemma_pow2_adds(qa as nat, qb as nat);
        lemma_pow2_adds((qa + qb) as nat, 512);
        lemma_pow2_adds(149, (qa + qb + 363) as nat);
        assert((sa * sb) * (pow2(149) * pow2((qa + qb + 363) as nat)) == (sa * pow2(qa as nat)) * (
        sb * pow2(qb as nat)) * pow2(512)) by (nonlinear_arith)
            requires
                pow2(149) * pow2((qa + qb + 363) as nat) == pow2(qa as nat) * pow2(qb as nat)
                    * pow2(512),
        ;
    }
    round(sa as u128 * sb as u128, qa + qb + 363, false, Ghost(num), Ghost(pow2(149)))
}

/// The single-precision quotient.
pub fn over(a: Single, b: Single) -> (r: Single)
    requires
        a < INFINITY,
        0 < b < INFINITY,
    ensures
        r == quotient(a, b),
        r <= INFINITY,
{
    let (sa, qa) = parts(a);
    let (sb, qb) = parts(b);
    let ghost num = magnitude(a as int) * pow2(149);
    let ghost den = magnitude(b as int);
    let scale = power_of_two(100);
    proof {
        lemma_magnitude_monotone(0, b as int);
        lemma_pow2_127();
        lemma2_to64();
        lemma2_to64_rest();
        lemma_pow2_adds(100, 24);
        lemma_pow2_strictly_increases(124, 127);
        lemma_pow2_adds(24, 24);
        lemma_pow2_adds(48, 52);
        assert(sa * scale < pow2(127)) by (nonlinear_arith)
            requires
                sa < pow2(24),
                scale == pow2(100),
                pow2(124) == pow2(100) * pow2(24),
                pow2(124) < pow2(127),
                scale > 0,
        ;
    }
    let dividend: u128 = sa as u128 * scale;
    let divisor: u128 = sb as u128;
    let whole = dividend / divisor;
    let rest = dividend % divisor;
    proof {
        assert(dividend == whole * divisor + rest && rest < divisor && whole <= dividend)
            by (nonlinear_arith)
            requires
                divisor > 0,
                whole == dividend / divisor,
                rest == dividend % divisor,
        ;
        if sa > 0 {
            assert(whole >= 0x100_0000) by (nonlinear_arith)
                requires
                    sa > 0,
                    dividend == sa * scale,
                    scale == 0x100_0000 * 0x100_0000 * pow2(52),
                    pow2(52) > 0,
                    dividend == whole * divisor + rest,
                    rest < divisor < 0x100_0000,
            ;
        } else {
            assert(dividend == 0);
            assert(whole == 0 && rest == 0) by (nonlinear_arith)
                requires
                    0 == whole * divisor + rest,
                    divisor > 0,
                    whole >= 0,
                    rest >= 0,
            ;
        }
        // Both sides, scaled by the places of `a` and `b`.
        let k = (qa + 561 - qb) as nat;
        lemma_pow2_adds(qb as nat, k);
        let wide = pow2((qa + 561) as nat);
        lemma_pow2_pos((qa + 561) as nat);
        lemma_pow2_adds(100, (qa + 561) as nat);
        lemma_pow2_adds(qa as nat, 149);
        lemma_pow2_adds((qa + 149) as nat, 512);
        assert(den * pow2(k) == divisor * wide) by (nonlinear_arith)
            requires
                den == divisor * pow2(qb as nat),
                wide == pow2(qb as nat) * pow2(k),
        ;
        assert(num * pow2(512) == dividend * wide) by (nonlinear_arith)
            requires
                num == (sa * pow2(qa as nat)) * pow2(149),
                dividend == sa * pow2(100),
                pow2(100) * wide == pow2(qa as nat) * pow2(149) * pow2(512),
        ;
        assert(dividend * wide == whole * (divisor * wide) + rest * wide) by (nonlinear_arith)
            requires
                dividend == whole * divisor + rest,
        ;
        assert((whole + 1) * (divisor * wide) == whole * (divisor * wide) + divisor * wide)
            by (nonlinear_arith);
        assert(0 <= rest * wide < divisor * wide) by (nonlinear_arith)
            requires
                0 <= rest < divisor,
                wide > 0,
        ;
        assert(rest > 0 <==> rest * wide > 0) by (nonlinear_arith)
            requires
                wide > 0,
        ;
        let step = den * pow2(k);
        assert(whole * step + rest * wide == num * pow2(512));
        assert((whole + 1) * step == whole * step + divisor * wide);
    }
    round(whole, qa + 561 - qb, rest > 0, Ghost(num), Ghost(den))
}

/// A significand that is shifted up until it fills its 24 bits has a pattern.
proof fn lemma_pattern_exists(s: nat, q: nat) -> (b: Single)
    requires
        0 < s < 0x100_0000,
        q <= 253,
    ensures
        b < INFINITY,
        magnitude(b as int) == s * pow2(q),
    decreases 0x100_0000 - s,
{
    if s >= 0x80_0000 || q == 0 {
        lemma_magnitude_parts(q, s);
        (q * 0x80_0000 + s) as Single
    } else {
        lemma_pow2_unfold(q);
        let lower = pow2((q - 1) as nat);
        assert((2 * s) * lower == s * pow2(q)) by (nonlinear_arith)
            requires
                pow2(q) == 2 * lower,
        ;
        lemma_pattern_exists(2 * s, (q - 1) as nat)
    }
}

/// An integer of at most 24 bits is a single-precision number.
pub proof fn lemma_from_integer_exact(n: nat)
    requires
        n < 0x100_0000,
    ensures
        magnitude(from_integer(n) as int) == n * pow2(149),
        from_integer(n) < INFINITY,
{
    if n == 0 {
        lemma_rounded_exact(ZERO, 0, 1);
        assert(0 * pow2(149) == 0);
    } else {
        let b = lemma_pattern_exists(n, 149);
        lemma_rounded_exact(b, n * pow2(149), 1);
    }
}

/// The number nearest to the fraction `n / d`, where a significand `s` at the exponent `q`
/// is close enough to it.
pub proof fn lemma_fraction(n: nat, d: nat, q: nat, s: nat)
    requires
        d > 0,
        q <= 149,
        0x80_0000 < s < 0xff_ffff,
        d * (2 * s - 1) < 2 * (n * pow2((149 - q) as nat)) < d * (2 * s + 1),
    ensures
        rounded(n * pow2(149), d) == (q * 0x80_0000 + s) as Single,
{
    let r = (q * 0x80_0000 + s) as int;
    let p = pow2(q);
    lemma_pow2_pos(q);
    lemma_pow2_adds((149 - q) as nat, q);
    lemma_magnitude_parts(q, (s - 1) as nat);
    lemma_magnitude_parts(q, s);
    lemma_magnitude_parts(q, s + 1);
    let m = 2 * (n * pow2((149 - q) as nat));
    assert(2 * (n * pow2(149)) == m * p) by (nonlinear_arith)
        requires
            m == 2 * (n * pow2((149 - q) as nat)),
            pow2(149) == pow2((149 - q) as nat) * p,
    ;
    assert(d * ((s - 1) * p + s * p) == (d * (2 * s - 1)) * p) by (nonlinear_arith);
    assert(d * (s * p + (s + 1) * p) == (d * (2 * s + 1)) * p) by (nonlinear_arith);
    assert((d * (2 * s - 1)) * p < m * p) by (nonlinear_arith)
        requires
            d * (2 * s - 1) < m,
            p > 0,
    ;
    assert(m * p < (d * (2 * s + 1)) * p) by (nonlinear_arith)
        requires
            m < d * (2 * s + 1),
            p > 0,
    ;
    assert(is_nearest(r as Single, n * pow2(149), d));
    lemma_rounded(n * pow2(149), d);
}

/// The bit pattern of minus zero: the sign bit.
pub const NEGATIVE_ZERO: u32 = 0x8000_0000;

/// A bit pattern that is no number.
pub const NOT_A_NUMBER: u32 = 0x7fc0_0000;

/// The pattern without its sign bit.
pub open spec fn absolute(b: u32) -> Single {
    b % NEGATIVE_ZERO
}

/// The pattern `b`, with the sign bit of `sign`.
pub open spec fn with_sign_of(b: Single, sign: u32) -> u32 {
    if sign >= NEGATIVE_ZERO {
        (b + NEGATIVE_ZERO) as u32
    } else {
        b
    }
}

/// The single-precision sum of any two patterns. Where it is no number, the result is
/// `NOT_A_NUMBER`.
pub open spec fn signed_sum(a: u32, b: u32) -> u32 {
    let larger = if absolute(a) >= absolute(b) {
        a
    } else {
        b
    };
    let smaller = if absolute(a) >= absolute(b) {
        b
    } else {
        a
    };
    if absolute(larger) > INFINITY {
        NOT_A_NUMBER
    } else if (a >= NEGATIVE_ZERO) == (b >= NEGATIVE_ZERO) {
        with_sign_of(sum(absolute(larger), absolute(smaller)), larger)
    } else if absolute(a) == absolute(b) {
        if absolute(a) == INFINITY {
            NOT_A_NUMBER
        } else {
            ZERO
        }
    } else if absolute(larger) == INFINITY {
        larger
    } else {
        with_sign_of(difference(absolute(larger), absolute(smaller)), larger)
    }
}

/// The single-precision sum of any two patterns.
pub fn plus_signed(a: u32, b: u32) -> (r: u32)
    ensures
        r == signed_sum(a, b),
{
    let a_absolute: Single = a % NEGATIVE_ZERO;
    let b_absolute: Single = b % NEGATIVE_ZERO;
    let a_is_larger = a_absolute >= b_absolute;
    let larger: u32 = if a_is_larger {
        a
    } else {
        b
    };
    let (high, low): (Single, Single) = if a_is_larger {
        (a_absolute, b_absolute)
    } else {
        (b_absolute, a_absolute)
    };
    if high > INFINITY {
        return NOT_A_NUMBER;
    }
    let r: Single;
    if (a >= NEGATIVE_ZERO) == (b >= NEGATIVE_ZERO) {
        r = plus(high, low);
    } else if high == low {
        return if high == INFINITY {
            NOT_A_NUMBER
        } else {
            ZERO
        };
    } else if high == INFINITY {
        return larger;
    } else {
        r = minus(high, low);
    }
    if larger >= NEGATIVE_ZERO {
        r + NEGATIVE_ZERO
    } else {
        r
    }
}

/// The single-precision product of any pattern `a` with a number `b` that is not negative.
/// Where it is no number, the result is `NOT_A_NUMBER`.
pub open spec fn signed_product(a: u32, b: Single) -> u32 {
    if absolute(a) > INFINITY {
        NOT_A_NUMBER
    } else if absolute(a) < INFINITY {
        with_sign_of(product(absolute(a), b), a)
    } else if b == ZERO {
        NOT_A_NUMBER
    } else {
        a
    }
}

/// The single-precision product of any pattern with a number that is not negative.
pub fn times_signed(a: u32, b: Single) -> (r: u32)
    requires
        b < INFINITY,
    ensures
        r == signed_product(a, b),
        a < INFINITY ==> r <= INFINITY,
{
    let a_absolute: Single = a % NEGATIVE_ZERO;
    if a_absolute > INFINITY {
        return NOT_A_NUMBER;
    }
    if a_absolute == INFINITY {
        return if b == ZERO {
            NOT_A_NUMBER
        } else {
            a
        };
    }
    let r: Single = times(a_absolute, b);
    if a >= NEGATIVE_ZERO {
        r + NEGATIVE_ZERO
    } else {
        r
    }
}

/// What patterns stand for: the first of them count in steps of one, up to two to the power of
/// 24, and from two to the power of 23 on each value doubles 23 bits further on.
pub proof fn law_values_of_patterns(b: int)
    requires
        0 <= b,
    ensures
        b <= 0x100_0000 ==> magnitude(b) == b,
        b >= 0x80_0000 ==> magnitude(b + 0x80_0000) == 2 * magnitude(b),
{
    lemma2_to64();
    if b >= 0x80_0000 {
        let q = (b / 0x80_0000 - 1) as nat;
        lemma_pow2_unfold((q + 1) as nat);
        assert((b + 0x80_0000) / 0x80_0000 - 1 == q + 1);
        assert((b + 0x80_0000) % 0x80_0000 == b % 0x80_0000);
        let s = 0x80_0000 + b % 0x80_0000;
        assert(s * (2 * pow2(q)) == 2 * (s * pow2(q))) by (nonlinear_arith);
    }
    if b <= 0x100_0000 {
        lemma_magnitude_parts(0, b as nat);
    }
}

/// Neighbours differ by one, or by at most one part in two to the power of 23.
pub proof fn law_values_lie_close(b: int)
    requires
        0 <= b,
    ensures
        ({
            let step = magnitude(b + 1) - magnitude(b);
            step >= 1 && (step == 1 || step * 0x80_0000 <= magnitude(b))
        }),
{
    let q = if b < 0x80_0000 {
        0
    } else {
        (b / 0x80_0000 - 1) as nat
    };
    let s = (b - q * 0x80_0000) as nat;
    lemma2_to64();
    lemma_magnitude_parts(q, s);
    lemma_magnitude_parts(q, (s + 1) as nat);
    lemma_pow2_pos(q);
    assert((s + 1) * pow2(q) == s * pow2(q) + pow2(q)) by (nonlinear_arith);
    if b >= 0x80_0000 {
        assert(pow2(q) * 0x80_0000 <= s * pow2(q)) by (nonlinear_arith)
            requires
                s >= 0x80_0000,
                pow2(q) > 0,
        ;
    }
}

/// No single-precision number lies nearer to a fraction than the one that it is rounded to.
/// Where another one lies as near, the pattern of the one that is taken is even.
pub proof fn law_rounding_is_nearest(num: nat, den: nat, other: Single)
    requires
        den > 0,
        other <= INFINITY,
    ensures
        ({
            let taken = rounded(num, den);
            let error = num - den * magnitude(taken as int);
            let distance = num - den * magnitude(other as int);
            let nearer = if error < 0 {
                -error
            } else {
                error
            };
            let farther = if distance < 0 {
                -distance
            } else {
                distance
            };
            &&& taken <= INFINITY
            &&& nearer <= farther
            &&& nearer == farther && other != taken ==> taken % 2 == 0
        }),
{
    lemma_rounded(num, den);
    let taken = rounded(num, den);
    let m = magnitude(taken as int);
    let t = magnitude(other as int);
    if other > taken {
        let up = magnitude(taken + 1);
        lemma_magnitude_monotone(taken + 1, other as int);
        lemma_magnitude_step(taken as int);
        assert(den * (m + up) == den * m + den * up) by (nonlinear_arith);
        assert(den * up <= den * t) by (nonlinear_arith)
            requires
                up <= t,
        ;
        assert(den * m < den * up) by (nonlinear_arith)
            requires
                m < up,
                den > 0,
        ;
    } else if other < taken {
        let down = magnitude(taken - 1);
        lemma_magnitude_monotone(other as int, taken - 1);
        lemma_magnitude_step(taken - 1);
        assert(den * (down + m) == den * down + den * m) by (nonlinear_arith);
        assert(den * t <= den * down) by (nonlinear_arith)
            requires
                t <= down,
        ;
        assert(den * down < den * m) by (nonlinear_arith)
            requires
                down < m,
                den > 0,
        ;
    }
}

/// What a finite pattern of either sign stands for.
pub open spec fn signed_value(b: u32) -> int {
    if b >= 0x8000_0000 {
        -magnitude(b - 0x8000_0000)
    } else {
        magnitude(b as int) as int
    }
}

/// Whether a pattern stands for a number that is not infinite.
pub open spec fn is_finite(b: u32) -> bool {
    b < 0x7f80_0000 || 0x8000_0000 <= b < 0xff80_0000
}

/// Whether a pattern stands for no number.
pub open spec fn is_no_number(b: u32) -> bool {
    0x7f80_0000 < b < 0x8000_0000 || 0xff80_0000 < b
}

/// Whether `r` is the pattern nearest to `num / den`, with the sign of that fraction.
pub open spec fn rounds_to(r: u32, num: int, den: nat) -> bool {
    if num >= 0 {
        is_nearest(r, num as nat, den)
    } else {
        r >= 0x8000_0000 && is_nearest((r - 0x8000_0000) as u32, (-num) as nat, den)
    }
}

/// The sum of two patterns does not depend on their order.
pub proof fn law_signed_sum_commutes(a: u32, b: u32)
    ensures
        signed_sum(a, b) == signed_sum(b, a),
{
    let x = absolute(a);
    let y = absolute(b);
    assert(sum(x, y) == sum(y, x));
    if x == y && (a >= NEGATIVE_ZERO) == (b >= NEGATIVE_ZERO) {
        assert(a == b);
    }
}

/// The sum of two patterns is no number where one of them is none, or where they are opposite
/// infinities. Any other infinity outweighs what is added to it.
#[verifier::spinoff_prover]
#[verifier::rlimit(30)]
pub proof fn law_signed_sum_with_infinity(a: u32, b: u32)
    ensures
        is_no_number(a) ==> signed_sum(a, b) == 0x7fc0_0000,
        a == 0x7f80_0000 && b == 0xff80_0000 ==> signed_sum(a, b) == 0x7fc0_0000,
        (a == 0x7f80_0000 || a == 0xff80_0000) && (is_finite(b) || a == b) ==> signed_sum(a, b) == a,
{
    let x = absolute(a);
    let y = absolute(b);
    if x == INFINITY && y <= INFINITY {
        assert(sum(x, y) == INFINITY) by {
            let num = magnitude(x as int) + magnitude(y as int);
            lemma_rounded(num, 1);
            lemma_rounded_at_least(x, num, 1);
        }
    }
}

/// The sum of two opposites is zero, and minus zero only of two minus zeros. Minus zero adds
/// nothing.
#[verifier::spinoff_prover]
#[verifier::rlimit(30)]
pub proof fn law_signed_sum_with_zero(a: u32, b: u32)
    ensures
        is_finite(a) && is_finite(b) && signed_value(a) + signed_value(b) == 0 ==> signed_sum(a, b)
            == (if a == 0x8000_0000 && b == 0x8000_0000 {
            0x8000_0000u32
        } else {
            0u32
        }),
        a == 0x8000_0000 && !is_no_number(b) ==> signed_sum(a, b) == b,
{
    let x = absolute(a);
    let y = absolute(b);
    assert(magnitude(0) == 0);
    if y <= INFINITY {
        assert(sum(y, ZERO) == y && difference(y, ZERO) == y) by {
            lemma_rounded_exact(y, magnitude(y as int), 1);
        }
    }
    if is_finite(a) && is_finite(b) && signed_value(a) + signed_value(b) == 0 {
        assert(signed_value(a) == magnitude(x as int) || signed_value(a) == -magnitude(x as int));
        assert(signed_value(b) == magnitude(y as int) || signed_value(b) == -magnitude(y as int));
        assert(x == y) by {
            lemma_magnitude_monotone(0, x as int);
            lemma_magnitude_monotone(0, y as int);
            if x < y {
                lemma_magnitude_monotone(x as int, y as int);
            } else if y < x {
                lemma_magnitude_monotone(y as int, x as int);
            }
        }
        assert((a >= NEGATIVE_ZERO) == (b >= NEGATIVE_ZERO) ==> x == 0) by {
            lemma_magnitude_monotone(0, x as int);
        }
    }
}

/// The sum of two patterns is the number nearest to the sum of what they stand for.
#[verifier::spinoff_prover]
#[verifier::rlimit(30)]
pub proof fn law_signed_sum(a: u32, b: u32)
    requires
        is_finite(a),
        is_finite(b),
        signed_value(a) + signed_value(b) != 0,
    ensures
        rounds_to(signed_sum(a, b), signed_value(a) + signed_value(b), 1),
{
    let x = absolute(a);
    let y = absolute(b);
    let m = magnitude(x as int);
    let n = magnitude(y as int);
    let near = if (a >= NEGATIVE_ZERO) == (b >= NEGATIVE_ZERO) {
        m + n
    } else if x >= y {
        (m - n) as nat
    } else {
        (n - m) as nat
    };
    assert(m > n <==> x > y) by {
        if x > y {
            lemma_magnitude_monotone(y as int, x as int);
        } else {
            lemma_magnitude_monotone(x as int, y as int);
        }
    }
    assert(rounded(near, 1) <= INFINITY) by {
        lemma_rounded(near, 1);
    }
    let r = signed_sum(a, b);
    let total = signed_value(a) + signed_value(b);
    assert(is_nearest(rounded(near, 1), near, 1)) by {
        lemma_rounded(near, 1);
    }
    if a >= NEGATIVE_ZERO && b >= NEGATIVE_ZERO {
        assert(total == -(m + n));
        assert(r == rounded(near, 1) + NEGATIVE_ZERO);
    } else if a < NEGATIVE_ZERO && b < NEGATIVE_ZERO {
        assert(total == m + n);
        assert(r == rounded(near, 1));
    } else if x > y {
        assert(near == m - n);
        assert(r == with_sign_of(rounded(near, 1), a));
    } else {
        assert(x != y);
        assert(near == n - m);
        assert(r == with_sign_of(rounded(near, 1), b));
    }
}

/// The product of a pattern and a number that is not negative is the number nearest to the
/// product of what they stand for, with the sign of the pattern. An infinity stays what it is,
/// but zero times it is no number.
#[verifier::spinoff_prover]
#[verifier::rlimit(30)]
pub proof fn law_signed_product(a: u32, b: u32)
    requires
        b < 0x7f80_0000,
    ensures
        is_finite(a) ==> is_nearest(
            (signed_product(a, b) % 0x8000_0000) as u32,
            magnitude((a % 0x8000_0000) as int) * magnitude(b as int),
            pow2(149),
        ) && (signed_product(a, b) >= 0x8000_0000 <==> a >= 0x8000_0000),
        is_no_number(a) ==> signed_product(a, b) == 0x7fc0_0000,
        a == 0x7f80_0000 || a == 0xff80_0000 ==> signed_product(a, b) == (if b == 0 {
            0x7fc0_0000u32
        } else {
            a
        }),
{
    let x = absolute(a);
    let num = magnitude(x as int) * magnitude(b as int);
    let near = rounded(num, pow2(149));
    assert(near <= INFINITY && is_nearest(near, num, pow2(149))) by {
        lemma_pow2_pos(149);
        lemma_rounded(num, pow2(149));
    }
    if is_finite(a) {
        assert(x < INFINITY);
        assert(signed_product(a, b) == with_sign_of(near, a));
        assert(signed_product(a, b) % 0x8000_0000 == near);
    }
}

/// The sum, the difference, the product and the quotient of two numbers are the numbers nearest
/// to those of what they stand for; so is the number for an integer.
pub proof fn law_results_are_nearest(a: Single, b: Single, n: nat)
    requires
        a < INFINITY,
        b < INFINITY,
    ensures
        is_nearest(sum(a, b), magnitude(a as int) + magnitude(b as int), 1),
        b <= a ==> is_nearest(
            difference(a, b),
            (magnitude(a as int) - magnitude(b as int)) as nat,
            1,
        ),
        is_nearest(product(a, b), magnitude(a as int) * magnitude(b as int), pow2(149)),
        b > 0 ==> is_nearest(
            quotient(a, b),
            magnitude(a as int) * pow2(149),
            magnitude(b as int),
        ),
        is_nearest(from_integer(n), n * pow2(149), 1),
{
    lemma_pow2_pos(149);
    lemma_rounded(magnitude(a as int) + magnitude(b as int), 1);
    lemma_rounded((magnitude(a as int) - magnitude(b as int)) as nat, 1);
    lemma_rounded(magnitude(a as int) * magnitude(b as int), pow2(149));
    if b > 0 {
        lemma_magnitude_monotone(0, b as int);
        lemma_rounded(magnitude(a as int) * pow2(149), magnitude(b as int));
    }
    lemma_rounded(n * pow2(149), 1);
}

} // verus!
