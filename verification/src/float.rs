//! Arithmetic as single and double precision do it, on numbers from 0 up, in whole numbers.

use vstd::arithmetic::power2::{
    lemma2_to64, lemma2_to64_rest, lemma_pow2_adds, lemma_pow2_pos, lemma_pow2_strictly_increases,
    lemma_pow2_unfold, pow2,
};
use vstd::prelude::*;

verus! {

/// One more than the largest significand of single precision.
pub const SINGLE: u64 = 0x100_0000;

/// One more than the largest significand of double precision.
pub const DOUBLE: u64 = 0x20_0000_0000_0000;

/// The number `mant * 2^exp`.
pub struct Dyadic {
    pub mant: int,
    pub exp: int,
}

/// The number `mant * 2^exp`.
#[derive(Debug, Clone, Copy, PartialEq, Eq, Structural)]
pub struct Binary {
    pub mant: u64,
    pub exp: i32,
}

impl View for Binary {
    type V = Dyadic;

    open spec fn view(&self) -> Dyadic {
        Dyadic { mant: self.mant as int, exp: self.exp as int }
    }
}

/// The whole number nearest to `p / q`, the even one of two that are as near.
pub open spec fn half_even(p: int, q: int) -> int {
    let below = p / q;
    let rest = p % q;
    if 2 * rest < q {
        below
    } else if 2 * rest > q {
        below + 1
    } else {
        below + below % 2
    }
}

/// How far `p` is from a significand's place below `hi`.
pub open spec fn off_scale(p: int, hi: int) -> int {
    if 2 * p < hi {
        hi - p
    } else if p >= hi {
        p - hi + 1
    } else {
        0
    }
}

/// `p / q` with its significand rounded, where `hi` is `q` times the end of the significands: the
/// fraction is doubled or halved until its whole part is a significand.
pub open spec fn rounded(p: int, q: int, hi: int) -> Dyadic
    decreases off_scale(p, hi),
{
    if p <= 0 || q <= 0 || hi <= 0 {
        Dyadic { mant: 0, exp: 0 }
    } else if 2 * p < hi {
        let b = rounded(2 * p, q, hi);
        Dyadic { mant: b.mant, exp: b.exp - 1 }
    } else if p >= hi {
        let b = rounded(p, 2 * q, 2 * hi);
        Dyadic { mant: b.mant, exp: b.exp + 1 }
    } else {
        Dyadic { mant: half_even(p, q), exp: 0 }
    }
}

/// The number of a precision that is nearest to `p / q`; `top` is the end of its significands.
pub open spec fn nearest(p: int, q: int, top: int) -> Dyadic {
    rounded(p, q, top * q)
}

/// A number times `2^e`.
pub open spec fn scaled(b: Dyadic, e: int) -> Dyadic {
    if b.mant == 0 {
        b
    } else {
        Dyadic { mant: b.mant, exp: b.exp + e }
    }
}

/// The quotient of two numbers.
pub open spec fn quotient(a: Dyadic, b: Dyadic, top: int) -> Dyadic {
    scaled(nearest(a.mant, b.mant, top), a.exp - b.exp)
}

/// The product of two numbers.
pub open spec fn product(a: Dyadic, b: Dyadic, top: int) -> Dyadic {
    scaled(nearest(a.mant * b.mant, 1, top), a.exp + b.exp)
}

/// What a number leaves of 1; nothing where it is not below 1.
pub open spec fn one_less(x: Dyadic, top: int) -> Dyadic {
    if x.mant == 0 {
        nearest(1, 1, top)
    } else if x.exp >= 0 || pow2((-x.exp) as nat) <= x.mant {
        Dyadic { mant: 0, exp: 0 }
    } else {
        scaled(nearest(pow2((-x.exp) as nat) - x.mant, 1, top), x.exp)
    }
}

/// A number rounded down to a whole one.
pub open spec fn whole_part(b: Dyadic) -> int {
    if b.exp >= 0 {
        b.mant * pow2(b.exp as nat)
    } else {
        b.mant / pow2((-b.exp) as nat) as int
    }
}

/// A number rounded to the nearest whole one, up from halfway.
pub open spec fn to_whole(b: Dyadic) -> int {
    (whole_part(Dyadic { mant: b.mant, exp: b.exp + 1 }) + 1) / 2
}

/// The smaller of two numbers.
pub open spec fn at_most(n: int, most: int) -> int {
    if n < most {
        n
    } else {
        most
    }
}

/// A rounded number has a significand of its precision, and an exponent no further from 0 than its
/// size asks for.
pub proof fn lemma_rounded(p: int, q: int, hi: int, top: int)
    requires
        p > 0,
        q > 0,
        top > 0,
        top % 2 == 0,
        hi == top * q,
    ensures
        ({
            let b = rounded(p, q, hi);
            &&& top <= 2 * b.mant
            &&& b.mant <= top
            &&& b.exp < 0 ==> p * pow2((-b.exp) as nat) <= hi
            &&& b.exp > 0 ==> hi * pow2(b.exp as nat) <= 2 * p
            &&& 2 * p >= hi ==> b.exp >= 0
            &&& p < hi ==> b.exp <= 0
        }),
    decreases off_scale(p, hi),
{
    let b = rounded(p, q, hi);
    lemma2_to64();
    assert(hi > 0) by (nonlinear_arith)
        requires
            hi == top * q,
            top > 0,
            q > 0,
    ;
    if 2 * p < hi {
        lemma_rounded(2 * p, q, hi, top);
        let c = rounded(2 * p, q, hi);
        let k = (-c.exp) as nat;
        lemma_pow2_unfold(k + 1);
        let h = pow2(k) as int;
        let w = pow2(k + 1) as int;
        assert(p * w == (2 * p) * h) by (nonlinear_arith)
            requires
                w == 2 * h,
        ;
        if c.exp == 0 {
            assert((2 * p) * h == 2 * p) by (nonlinear_arith)
                requires
                    h == 1,
            ;
        }
    } else if p >= hi {
        assert(2 * hi == top * (2 * q)) by (nonlinear_arith)
            requires
                hi == top * q,
        ;
        lemma_rounded(p, 2 * q, 2 * hi, top);
        let c = rounded(p, 2 * q, 2 * hi);
        let k = c.exp as nat;
        lemma_pow2_unfold(k + 1);
        let h = pow2(k) as int;
        let w = pow2(k + 1) as int;
        assert(hi * w == (2 * hi) * h) by (nonlinear_arith)
            requires
                w == 2 * h,
        ;
        if c.exp == 0 {
            assert((2 * hi) * h == 2 * hi) by (nonlinear_arith)
                requires
                    h == 1,
            ;
        }
    } else {
        lemma_half_even(p, q, top);
    }
}

proof fn lemma_half_even(p: int, q: int, top: int)
    requires
        q > 0,
        top > 0,
        top % 2 == 0,
        top * q <= 2 * p,
        p < top * q,
    ensures
        top <= 2 * half_even(p, q),
        half_even(p, q) <= top,
        2 * (half_even(p, q) * q) <= 2 * p + q,
        2 * (half_even(p, q) * q) >= 2 * p - q,
{
    let f = p / q;
    let r = p % q;
    let h = top / 2;
    vstd::arithmetic::div_mod::lemma_fundamental_div_mod(p, q);
    assert(f < top) by (nonlinear_arith)
        requires
            p == q * f + r,
            0 <= r < q,
            p < top * q,
            q > 0,
    ;
    assert(f >= h) by (nonlinear_arith)
        requires
            p == q * f + r,
            0 <= r < q,
            (2 * h) * q <= 2 * p,
            q > 0,
    ;
    assert(f * q == q * f && (f + 1) * q == q * f + q) by (nonlinear_arith);
    assert(f % 2 == 0 || f % 2 == 1);
}

/// An exponent goes no lower than it takes to bring the fraction up to a significand.
proof fn lemma_exponent_above(p: int, q: int, hi: int, top: int, low: nat)
    requires
        p > 0,
        q > 0,
        top > 0,
        top % 2 == 0,
        hi == top * q,
        low > 0,
        p * pow2(low) > hi,
    ensures
        rounded(p, q, hi).exp > -low,
{
    lemma_rounded(p, q, hi, top);
    let e = rounded(p, q, hi).exp;
    if e <= -low {
        let k = (-e) as nat;
        if k > low {
            lemma_pow2_strictly_increases(low, k);
        }
        assert(hi > 0) by (nonlinear_arith)
            requires
                hi == top * q,
                top > 0,
                q > 0,
        ;
        let a = pow2(low) as int;
        let b = pow2(k) as int;
        assert(p * a <= p * b) by (nonlinear_arith)
            requires
                a <= b,
                p > 0,
        ;
    }
}

/// An exponent goes no higher than it takes to bring the fraction down to a significand.
proof fn lemma_exponent_below(p: int, q: int, hi: int, top: int, high: nat)
    requires
        p > 0,
        q > 0,
        top > 0,
        top % 2 == 0,
        hi == top * q,
        high > 0,
        hi * pow2(high) > 2 * p,
    ensures
        rounded(p, q, hi).exp < high,
{
    lemma_rounded(p, q, hi, top);
    let e = rounded(p, q, hi).exp;
    if e >= high {
        let k = e as nat;
        if k > high {
            lemma_pow2_strictly_increases(high, k);
        }
        assert(hi > 0) by (nonlinear_arith)
            requires
                hi == top * q,
                top > 0,
                q > 0,
        ;
        let a = pow2(high) as int;
        let b = pow2(k) as int;
        assert(hi * a <= hi * b) by (nonlinear_arith)
            requires
                a <= b,
                hi > 0,
        ;
    }
}

/// A fraction that takes `j` doublings is rounded there.
pub proof fn lemma_rounded_down(p: int, q: int, hi: int, j: nat)
    requires
        p > 0,
        q > 0,
        hi > 0,
        hi <= 2 * (p * pow2(j)),
        p * pow2(j) < hi,
    ensures
        rounded(p, q, hi) == (Dyadic { mant: half_even(p * pow2(j), q), exp: -j }),
    decreases j,
{
    lemma2_to64();
    let w = pow2(j) as int;
    if j == 0 {
        assert(p * w == p) by (nonlinear_arith)
            requires
                w == 1,
        ;
    } else {
        lemma_pow2_unfold(j);
        let h = pow2((j - 1) as nat) as int;
        lemma_pow2_pos((j - 1) as nat);
        assert(p * w == (2 * p) * h && 2 * p <= p * w) by (nonlinear_arith)
            requires
                w == 2 * h,
                h >= 1,
                p > 0,
        ;
        lemma_rounded_down(2 * p, q, hi, (j - 1) as nat);
    }
}

/// A fraction that takes `j` halvings is rounded there.
pub proof fn lemma_rounded_up(p: int, q: int, hi: int, j: nat)
    requires
        p > 0,
        q > 0,
        hi > 0,
        hi * pow2(j) <= 2 * p,
        p < hi * pow2(j),
    ensures
        rounded(p, q, hi) == (Dyadic { mant: half_even(p, q * pow2(j)), exp: j as int }),
    decreases j,
{
    lemma2_to64();
    let w = pow2(j) as int;
    if j == 0 {
        assert(hi * w == hi && q * w == q) by (nonlinear_arith)
            requires
                w == 1,
        ;
    } else {
        lemma_pow2_unfold(j);
        let h = pow2((j - 1) as nat) as int;
        lemma_pow2_pos((j - 1) as nat);
        assert(hi * w == (2 * hi) * h && q * w == (2 * q) * h && 2 * hi <= hi * w) by (nonlinear_arith)
            requires
                w == 2 * h,
                h >= 1,
                hi > 0,
        ;
        lemma_rounded_up(p, 2 * q, 2 * hi, (j - 1) as nat);
    }
}

/// A whole number below the end of the significands is a number of the precision.
pub proof fn lemma_whole_exact(n: int, top: int)
    requires
        0 < n < top,
        top % 2 == 0,
    ensures
        ({
            let b = nearest(n, 1, top);
            &&& b.exp <= 0
            &&& b.mant == n * pow2((-b.exp) as nat)
            &&& whole_part(b) == n
        }),
{
    lemma_whole_shifts(n, top);
    let b = nearest(n, 1, top);
    let w = pow2((-b.exp) as nat) as int;
    lemma_pow2_pos((-b.exp) as nat);
    if b.exp == 0 {
        lemma2_to64();
        assert(n * w == n && b.mant * w == b.mant) by (nonlinear_arith)
            requires
                w == 1,
        ;
    } else {
        vstd::arithmetic::div_mod::lemma_div_by_multiple(n, w);
    }
}

proof fn lemma_whole_shifts(n: int, top: int)
    requires
        0 < n < top,
        top % 2 == 0,
    ensures
        rounded(n, 1, top).exp <= 0,
        rounded(n, 1, top).mant == n * pow2((-rounded(n, 1, top).exp) as nat),
    decreases top - n,
{
    lemma2_to64();
    if 2 * n < top {
        lemma_whole_shifts(2 * n, top);
        let c = rounded(2 * n, 1, top);
        let k = (-c.exp) as nat;
        lemma_pow2_unfold(k + 1);
        let h = pow2(k) as int;
        let w = pow2(k + 1) as int;
        assert(n * w == (2 * n) * h) by (nonlinear_arith)
            requires
                w == 2 * h,
        ;
    } else {
        assert(n / 1 == n && n % 1 == 0);
        let w = pow2(0) as int;
        assert(n * w == n) by (nonlinear_arith)
            requires
                w == 1,
        ;
    }
}

/// Round `p / q`.
fn round(p: u128, q: u128, hi: u128, top: u64) -> (b: Binary)
    requires
        p > 0,
        q > 0,
        0 < top <= DOUBLE,
        top % 2 == 0,
        hi == top * q,
        p <= 0x4000_0000_0000_0000_0000_0000_0000_0000,
        hi <= 0x4000_0000_0000_0000_0000_0000_0000_0000,
        p >= hi ==> 2 * p <= 0x4000_0000_0000_0000_0000_0000_0000_0000,
    ensures
        b@ == rounded(p as int, q as int, hi as int),
    decreases off_scale(p as int, hi as int),
{
    proof {
        lemma_rounded(p as int, q as int, hi as int, top as int);
        lemma_exponent_small(p as int, q as int, hi as int, top as int);
        assert(q <= hi) by (nonlinear_arith)
            requires
                hi == top * q,
                top > 0,
                q > 0,
        ;
    }
    if 2 * p < hi {
        proof {
            lemma_exponent_small(2 * p, q as int, hi as int, top as int);
        }
        let b = round(2 * p, q, hi, top);
        Binary { mant: b.mant, exp: b.exp - 1 }
    } else if p >= hi {
        proof {
            assert(2 * hi == top * (2 * q)) by (nonlinear_arith)
                requires
                    hi == top * q,
            ;
            lemma_exponent_small(p as int, 2 * q, 2 * hi, top as int);
        }
        let b = round(p, 2 * q, 2 * hi, top);
        Binary { mant: b.mant, exp: b.exp + 1 }
    } else {
        let below: u128 = p / q;
        let rest: u128 = p % q;
        let mant: u128 = if 2 * rest < q {
            below
        } else if 2 * rest > q {
            below + 1
        } else {
            below + below % 2
        };
        Binary { mant: mant as u64, exp: 0 }
    }
}

proof fn lemma_exponent_small(p: int, q: int, hi: int, top: int)
    requires
        p > 0,
        q > 0,
        top > 0,
        top % 2 == 0,
        hi == top * q,
        p <= 0x4000_0000_0000_0000_0000_0000_0000_0000,
        hi <= 0x4000_0000_0000_0000_0000_0000_0000_0000,
    ensures
        -128 < rounded(p, q, hi).exp < 128,
{
    lemma_pow2_adds(64, 64);
    lemma2_to64();
    lemma2_to64_rest();
    let w = pow2(128) as int;
    assert(w == 0x1_0000_0000_0000_0000_0000_0000_0000_0000int) by (nonlinear_arith)
        requires
            w == pow2(64) * pow2(64),
            pow2(64) == 0x1_0000_0000_0000_0000int,
    ;
    assert(hi > 0) by (nonlinear_arith)
        requires
            hi == top * q,
            top > 0,
            q > 0,
    ;
    assert(p * w > hi && hi * w > 2 * p) by (nonlinear_arith)
        requires
            p > 0,
            hi > 0,
            p <= 0x4000_0000_0000_0000_0000_0000_0000_0000,
            hi <= 0x4000_0000_0000_0000_0000_0000_0000_0000,
            w == 0x1_0000_0000_0000_0000_0000_0000_0000_0000int,
    ;
    lemma_exponent_above(p, q, hi, top, 128);
    lemma_exponent_below(p, q, hi, top, 128);
}

/// How many bits the significands below `top` have.
pub open spec fn bits(top: int) -> nat {
    if top == SINGLE {
        24
    } else {
        53
    }
}

/// Whether `top` is the end of a precision's significands.
pub open spec fn is_precision(top: int) -> bool {
    top == SINGLE || top == DOUBLE
}

impl Dyadic {
    /// Whether this is 0, or has a full significand and an exponent of the given range.
    pub open spec fn normal(self, top: int, low: int, high: int) -> bool {
        (self.mant == 0 && self.exp == 0) || (top <= 2 * self.mant && self.mant <= top && low <= self.exp <= high)
    }
}

proof fn lemma_precision(top: int)
    requires
        is_precision(top),
    ensures
        top == pow2(bits(top)),
        pow2(bits(top) + 1) == 2 * top,
        pow2(bits(top) + 2) == 4 * top,
        pow2(1) == 2,
        pow2(43) == 0x800_0000_0000,
{
    lemma2_to64();
    lemma2_to64_rest();
}

/// The number of a precision that is nearest to a whole number.
pub(crate) fn from_whole(n: u128, top: u64) -> (b: Binary)
    requires
        is_precision(top as int),
        n <= 0x2_0000_0000_0000_0000,
    ensures
        b@ == nearest(n as int, 1, top as int),
        b@.normal(top as int, -bits(top as int), 42),
        b.mant == 0 <==> n == 0,
{
    if n == 0 {
        return Binary { mant: 0, exp: 0 };
    }
    let b = round(n, 1, top as u128, top);
    proof {
        let p = n as int;
        let t = top as int;
        lemma_precision(t);
        lemma_rounded(p, 1, t, t);
        assert(p * pow2(bits(t) + 1) > t) by (nonlinear_arith)
            requires
                p >= 1,
                pow2(bits(t) + 1) == 2 * t,
                t > 0,
        ;
        assert(t * pow2(43) > 2 * p);
        lemma_exponent_above(p, 1, t, t, bits(t) + 1);
        lemma_exponent_below(p, 1, t, t, 43);
    }
    b
}

/// The quotient of two numbers of a precision.
pub(crate) fn divide(a: Binary, b: Binary, top: u64) -> (c: Binary)
    requires
        is_precision(top as int),
        a@.normal(top as int, -1000, 1000),
        b@.normal(top as int, -1000, 1000),
        b.mant > 0,
    ensures
        c@ == quotient(a@, b@, top as int),
        c@.normal(top as int, a.exp - b.exp - bits(top as int) - 1, a.exp - b.exp),
        c.mant == 0 <==> a.mant == 0,
{
    if a.mant == 0 {
        return Binary { mant: 0, exp: 0 };
    }
    let ghost t = top as int;
    let ghost p = a.mant as int;
    let ghost q = b.mant as int;
    proof {
        lemma_precision(t);
        assert(t * q <= DOUBLE * DOUBLE && t * q > 0) by (nonlinear_arith)
            requires
                0 < t <= DOUBLE,
                0 < q <= DOUBLE,
        ;
    }
    let c = round(a.mant as u128, b.mant as u128, top as u128 * b.mant as u128, top);
    proof {
        lemma_rounded(p, q, t * q, t);
        let w = pow2(bits(t) + 2) as int;
        assert(p * w > t * q && (t * q) * 2 > 2 * p) by (nonlinear_arith)
            requires
                w == 4 * t,
                t <= 2 * p,
                p <= t,
                t <= 2 * q,
                q <= t,
                t >= 0x100_0000,
        ;
        lemma_exponent_above(p, q, t * q, t, bits(t) + 2);
        lemma_exponent_below(p, q, t * q, t, 1);
    }
    Binary { mant: c.mant, exp: c.exp + (a.exp - b.exp) }
}

/// The product of two numbers of a precision.
pub(crate) fn multiply(a: Binary, b: Binary, top: u64) -> (c: Binary)
    requires
        is_precision(top as int),
        a@.normal(top as int, -1000, 1000),
        b@.normal(top as int, -1000, 1000),
    ensures
        c@ == product(a@, b@, top as int),
        c@.normal(top as int, a.exp + b.exp, a.exp + b.exp + bits(top as int) + 1),
        c.mant == 0 <==> a.mant == 0 || b.mant == 0,
{
    let ghost t = top as int;
    let ghost x = a.mant as int;
    let ghost y = b.mant as int;
    if a.mant == 0 || b.mant == 0 {
        assert(x * y == 0) by (nonlinear_arith)
            requires
                x == 0 || y == 0,
        ;
        return Binary { mant: 0, exp: 0 };
    }
    proof {
        lemma_precision(t);
        assert(0 < x * y <= DOUBLE * DOUBLE) by (nonlinear_arith)
            requires
                0 < x <= DOUBLE,
                0 < y <= DOUBLE,
        ;
    }
    let c = round(a.mant as u128 * b.mant as u128, 1, top as u128, top);
    proof {
        lemma_rounded(x * y, 1, t, t);
        let w = pow2(bits(t) + 2) as int;
        assert((x * y) * 2 > t && t * w > 2 * (x * y)) by (nonlinear_arith)
            requires
                w == 4 * t,
                t <= 2 * x,
                x <= t,
                t <= 2 * y,
                y <= t,
                t >= 0x100_0000,
        ;
        lemma_exponent_above(x * y, 1, t, t, 1);
        lemma_exponent_below(x * y, 1, t, t, bits(t) + 2);
    }
    Binary { mant: c.mant, exp: c.exp + (a.exp + b.exp) }
}

/// `2^k`.
fn power(k: u32) -> (n: u128)
    requires
        k < 128,
    ensures
        n == pow2(k as nat),
{
    let mut n: u128 = 1;
    let mut i: u32 = 0;
    proof {
        lemma2_to64();
    }
    while i < k
        invariant
            i <= k < 128,
            n == pow2(i as nat),
        decreases k - i,
    {
        proof {
            lemma_pow2_unfold((i + 1) as nat);
            lemma_pow2_128((i + 1) as nat);
        }
        n = 2 * n;
        i = i + 1;
    }
    n
}

proof fn lemma_pow2_128(k: nat)
    requires
        k < 128,
    ensures
        2 * pow2(k) <= 0x1_0000_0000_0000_0000_0000_0000_0000_0000int,
{
    lemma_pow2_adds(64, 64);
    lemma2_to64_rest();
    lemma_pow2_unfold(k + 1);
    if k + 1 < 128 {
        lemma_pow2_strictly_increases(k + 1, 128);
    }
    let h = pow2(64) as int;
    assert(h * h == 0x1_0000_0000_0000_0000_0000_0000_0000_0000int) by (nonlinear_arith)
        requires
            h == 0x1_0000_0000_0000_0000int,
    ;
}

/// What a number leaves of 1.
pub(crate) fn one_minus(x: Binary, top: u64) -> (b: Binary)
    requires
        is_precision(top as int),
        x@.normal(top as int, -120, 1000),
    ensures
        b@ == one_less(x@, top as int),
        b@.normal(top as int, -300, 300),
{
    let ghost t = top as int;
    if x.mant == 0 {
        return from_whole(1, top);
    }
    if x.exp >= 0 {
        return Binary { mant: 0, exp: 0 };
    }
    let k: u32 = (-x.exp) as u32;
    let whole = power(k);
    if whole <= x.mant as u128 {
        return Binary { mant: 0, exp: 0 };
    }
    let p: u128 = whole - x.mant as u128;
    proof {
        lemma_precision(t);
        lemma_pow2_adds(60, 60);
        lemma2_to64_rest();
        if k < 120 {
            lemma_pow2_strictly_increases(k as nat, 120);
        }
        let h = pow2(60) as int;
        assert(h * h == 0x100_0000_0000_0000_0000_0000_0000_0000int) by (nonlinear_arith)
            requires
                h == 0x1000_0000_0000_0000int,
        ;
        lemma_rounded(p as int, 1, t, t);
        lemma_exponent_small(p as int, 1, t, t);
    }
    let b = round(p, 1, top as u128, top);
    Binary { mant: b.mant, exp: b.exp + x.exp }
}

/// A number rounded down to a whole one, as far as `most`.
pub(crate) fn whole_upto(b: Binary, most: u128) -> (n: u128)
    requires
        b.mant <= DOUBLE,
        -1000 <= b.exp <= 1000,
        most <= 0x4_0000_0000_0000_0000,
    ensures
        n == at_most(whole_part(b@), most as int),
{
    let ghost m = b.mant as int;
    if b.mant == 0 {
        proof {
            if b.exp >= 0 {
                assert(0 * pow2(b.exp as nat) == 0);
            } else {
                lemma_pow2_pos((-b.exp) as nat);
                vstd::arithmetic::div_mod::lemma_basic_div(0, pow2((-b.exp) as nat) as int);
            }
        }
        return 0;
    }
    if b.exp >= 72 {
        proof {
            lemma_pow2_adds(64, 8);
            lemma2_to64();
            lemma2_to64_rest();
            if b.exp > 72 {
                lemma_pow2_strictly_increases(72, b.exp as nat);
            }
            let w = pow2(b.exp as nat) as int;
            assert(m * w >= w) by (nonlinear_arith)
                requires
                    m >= 1,
                    w > 0,
            ;
        }
        return most;
    }
    let n: u128 = if b.exp >= 0 {
        let w = power(b.exp as u32);
        proof {
            lemma_pow2_adds(64, 8);
            lemma2_to64();
            lemma2_to64_rest();
            lemma_pow2_strictly_increases(b.exp as nat, 72);
            assert(m * w <= DOUBLE * 0x100_0000_0000_0000_0000) by (nonlinear_arith)
                requires
                    0 <= m <= DOUBLE,
                    0 <= w <= 0x100_0000_0000_0000_0000,
            ;
        }
        b.mant as u128 * w
    } else if b.exp > -64 {
        let w = power((-b.exp) as u32);
        proof {
            lemma_pow2_pos((-b.exp) as nat);
        }
        b.mant as u128 / w
    } else {
        proof {
            lemma2_to64_rest();
            if b.exp < -64 {
                lemma_pow2_strictly_increases(64, (-b.exp) as nat);
            }
            vstd::arithmetic::div_mod::lemma_basic_div(m, pow2((-b.exp) as nat) as int);
        }
        0
    };
    if n < most {
        n
    } else {
        most
    }
}

/// A number rounded to the nearest whole one, as far as a `usize` goes.
pub(crate) fn nearest_whole(b: Binary) -> (n: usize)
    requires
        b.mant <= DOUBLE,
        -1000 <= b.exp < 1000,
    ensures
        n == at_most(to_whole(b@), usize::MAX as int),
{
    let most: u128 = usize::MAX as u128;
    let halves = whole_upto(Binary { mant: b.mant, exp: b.exp + 1 }, 2 * most + 1);
    let n: u128 = (halves + 1) / 2;
    if n < most {
        n as usize
    } else {
        usize::MAX
    }
}

/// A number rounded down, as far as a `usize` goes.
pub(crate) fn floor(b: Binary) -> (n: usize)
    requires
        b.mant <= DOUBLE,
        -1000 <= b.exp <= 1000,
    ensures
        n == at_most(whole_part(b@), usize::MAX as int),
{
    whole_upto(b, usize::MAX as u128) as usize
}

/// `2^e`.
pub open spec fn scale(e: int) -> real {
    if e >= 0 {
        pow2(e as nat) as real
    } else {
        1 as real / pow2((-e) as nat) as real
    }
}

impl Dyadic {
    /// The number itself.
    pub open spec fn value(self) -> real {
        self.mant as real * scale(self.exp)
    }
}

/// A product of whole numbers is that of the same numbers among all.
pub proof fn lemma_real_product(a: int, b: int)
    ensures
        (a * b) as real == a as real * b as real,
{
    assert((a * b) as real == a as real * b as real) by (nonlinear_arith);
}

/// An inequality is kept by a factor that is not below 0.
pub proof fn lemma_real_order(a: real, b: real, c: real)
    requires
        a <= b,
        c >= 0 as real,
    ensures
        a * c <= b * c,
{
    assert(a * c <= b * c) by (nonlinear_arith)
        requires
            a <= b,
            c >= 0 as real,
    ;
}

/// A product of numbers that are not below 0 is not below 0.
pub proof fn lemma_real_product_positive(a: real, b: real)
    requires
        a >= 0 as real,
        b >= 0 as real,
    ensures
        a * b >= 0 as real,
{
    assert(a * b >= 0 as real) by (nonlinear_arith)
        requires
            a >= 0 as real,
            b >= 0 as real,
    ;
}

proof fn lemma_scale_up(e: int)
    ensures
        scale(e + 1) == 2 as real * scale(e),
        scale(e) > 0 as real,
{
    lemma2_to64();
    if e >= 0 {
        lemma_pow2_unfold((e + 1) as nat);
        lemma_pow2_pos(e as nat);
    } else {
        lemma_pow2_unfold((-e) as nat);
        lemma_pow2_pos((-e) as nat);
        lemma_pow2_pos((-e - 1) as nat);
        let h = pow2((-e - 1) as nat) as real;
        let w = pow2((-e) as nat) as real;
        assert(1 as real / h == 2 as real * (1 as real / w)) by (nonlinear_arith)
            requires
                w == 2 as real * h,
                h > 0 as real,
        ;
        assert(1 as real / w > 0 as real) by (nonlinear_arith)
            requires
                w > 0 as real,
        ;
        if e == -1 {
            assert(1 as real / h == h) by (nonlinear_arith)
                requires
                    h == 1 as real,
            ;
        }
    }
}

proof fn lemma_scale_adds(a: int, b: int)
    ensures
        scale(a + b) == scale(a) * scale(b),
    decreases (if b >= 0 {
        b
    } else {
        -b
    }),
{
    lemma2_to64();
    let x = scale(a);
    if b == 0 {
        let y = scale(b);
        assert(x * y == x) by (nonlinear_arith)
            requires
                y == 1 as real,
        ;
    } else if b > 0 {
        lemma_scale_adds(a, b - 1);
        lemma_scale_up(a + b - 1);
        lemma_scale_up(b - 1);
        let y = scale(b - 1);
        let z = scale(b);
        assert(x * z == 2 as real * (x * y)) by (nonlinear_arith)
            requires
                z == 2 as real * y,
        ;
    } else {
        lemma_scale_adds(a, b + 1);
        lemma_scale_up(a + b);
        lemma_scale_up(b);
        let y = scale(b + 1);
        let z = scale(b);
        assert(2 as real * (x * z) == x * y) by (nonlinear_arith)
            requires
                y == 2 as real * z,
        ;
    }
}

proof fn lemma_value_shifts(b: Dyadic, e: int)
    ensures
        (Dyadic { mant: b.mant, exp: b.exp + e }).value() == b.value() * scale(e),
{
    lemma_scale_adds(b.exp, e);
    let m = b.mant as real;
    let x = scale(b.exp);
    let y = scale(e);
    assert(m * (x * y) == (m * x) * y) by (nonlinear_arith);
}

/// Rounding errs by no more than one part in as many as there are significands.
pub proof fn lemma_rounding_error(p: int, q: int, hi: int, top: int)
    requires
        p >= 0,
        q > 0,
        top > 0,
        top % 2 == 0,
        hi == top * q,
    ensures
        ({
            let v = rounded(p, q, hi).value() * q as real * top as real;
            (top - 1) as real * p as real <= v <= (top + 1) as real * p as real
        }),
    decreases off_scale(p, hi),
{
    let b = rounded(p, q, hi);
    lemma2_to64();
    assert(hi > 0) by (nonlinear_arith)
        requires
            hi == top * q,
            top > 0,
            q > 0,
    ;
    if p == 0 {
        let s = scale(0);
        let qr = q as real;
        let tr = top as real;
        assert(0 as real * s * qr * tr == 0 as real) by (nonlinear_arith);
        assert((top - 1) as real * 0 as real == 0 as real) by (nonlinear_arith);
        assert((top + 1) as real * 0 as real == 0 as real) by (nonlinear_arith);
    } else if 2 * p < hi {
        lemma_rounding_error(2 * p, q, hi, top);
        let c = rounded(2 * p, q, hi);
        lemma_scale_up(c.exp - 1);
        let m = c.mant as real;
        let x = scale(c.exp);
        let y = scale(c.exp - 1);
        let qr = q as real;
        let tr = top as real;
        let pr = p as real;
        assert(m * x * qr * tr == 2 as real * (m * y * qr * tr)) by (nonlinear_arith)
            requires
                x == 2 as real * y,
        ;
        assert((tr - 1 as real) * (2 as real * pr) == 2 as real * ((tr - 1 as real) * pr)) by (nonlinear_arith);
        assert((tr + 1 as real) * (2 as real * pr) == 2 as real * ((tr + 1 as real) * pr)) by (nonlinear_arith);
    } else if p >= hi {
        assert(2 * hi == top * (2 * q)) by (nonlinear_arith)
            requires
                hi == top * q,
        ;
        lemma_rounding_error(p, 2 * q, 2 * hi, top);
        let c = rounded(p, 2 * q, 2 * hi);
        lemma_scale_up(c.exp);
        let m = c.mant as real;
        let x = scale(c.exp);
        let y = scale(c.exp + 1);
        let qr = q as real;
        let tr = top as real;
        assert(m * x * (2 as real * qr) * tr == m * y * qr * tr) by (nonlinear_arith)
            requires
                y == 2 as real * x,
        ;
    } else {
        lemma_half_even(p, q, top);
        lemma_real_product(b.mant, q);
        lemma_real_product(top, q);
        let m = b.mant as real;
        let s = scale(0);
        let qr = q as real;
        let tr = top as real;
        let pr = p as real;
        assert((tr - 1 as real) * pr <= m * s * qr * tr <= (tr + 1 as real) * pr) by (nonlinear_arith)
            requires
                s == 1 as real,
                2 as real * (m * qr) <= 2 as real * pr + qr,
                2 as real * (m * qr) >= 2 as real * pr - qr,
                tr * qr <= 2 as real * pr,
                tr > 0 as real,
        ;
    }
}

/// A whole number errs by no more than that when it is taken for a number of the precision.
pub proof fn lemma_nearest_error(n: int, top: int)
    requires
        n >= 0,
        top > 0,
        top % 2 == 0,
    ensures
        ({
            let v = nearest(n, 1, top).value() * top as real;
            (top - 1) as real * n as real <= v <= (top + 1) as real * n as real
        }),
        nearest(n, 1, top).mant >= 0,
        n > 0 ==> nearest(n, 1, top).mant > 0,
{
    lemma_rounding_error(n, 1, top, top);
    if n > 0 {
        lemma_rounded(n, 1, top, top);
    }
    let v = nearest(n, 1, top).value();
    assert(v * 1 as real == v) by (nonlinear_arith);
}

/// A quotient is no larger than that error allows.
pub proof fn lemma_quotient_error(a: Dyadic, b: Dyadic, top: int)
    requires
        a.mant >= 0,
        b.mant > 0,
        top > 0,
        top % 2 == 0,
    ensures
        quotient(a, b, top).value() * b.value() * top as real <= (top + 1) as real * a.value(),
        quotient(a, b, top).mant >= 0,
{
    lemma_rounding_error(a.mant, b.mant, top * b.mant, top);
    let r = nearest(a.mant, b.mant, top);
    let c = quotient(a, b, top);
    if a.mant > 0 {
        lemma_rounded(a.mant, b.mant, top * b.mant, top);
    }
    lemma_value_shifts(r, a.exp - b.exp);
    lemma_scale_adds(a.exp - b.exp, b.exp);
    lemma_scale_up(a.exp);
    let v = r.value();
    let d = scale(a.exp - b.exp);
    if r.mant == 0 {
        let z = scale(0);
        assert(0 as real * z == 0 as real && 0 as real * d == 0 as real) by (nonlinear_arith);
    }
    assert(c.value() == v * d);
    let x = scale(a.exp);
    let y = scale(b.exp);
    let m = a.mant as real;
    let n = b.mant as real;
    let t = top as real;
    assert((v * d) * (n * y) * t <= (t + 1 as real) * (m * x)) by (nonlinear_arith)
        requires
            v * n * t <= (t + 1 as real) * m,
            x == d * y,
            x > 0 as real,
    {
        assert((v * d) * (n * y) * t == (v * n * t) * x);
        assert((v * n * t) * x <= ((t + 1 as real) * m) * x);
    }
}

/// A product is no larger than that error allows.
pub proof fn lemma_product_error(a: Dyadic, b: Dyadic, top: int)
    requires
        a.mant >= 0,
        b.mant >= 0,
        top > 0,
        top % 2 == 0,
    ensures
        product(a, b, top).value() * top as real <= (top + 1) as real * (a.value() * b.value()),
        product(a, b, top).mant >= 0,
{
    let p = a.mant * b.mant;
    assert(p >= 0) by (nonlinear_arith)
        requires
            p == a.mant * b.mant,
            a.mant >= 0,
            b.mant >= 0,
    ;
    lemma_nearest_error(p, top);
    lemma_real_product(a.mant, b.mant);
    let r = nearest(p, 1, top);
    lemma_value_shifts(r, a.exp + b.exp);
    lemma_scale_adds(a.exp, b.exp);
    lemma_scale_up(a.exp + b.exp);
    let v = r.value();
    let d = scale(a.exp + b.exp);
    if r.mant == 0 {
        let z = scale(0);
        assert(0 as real * z == 0 as real && 0 as real * d == 0 as real) by (nonlinear_arith);
    }
    assert(product(a, b, top).value() == v * d);
    let x = scale(a.exp);
    let y = scale(b.exp);
    let m = a.mant as real;
    let n = b.mant as real;
    let t = top as real;
    assert((v * d) * t <= (t + 1 as real) * ((m * x) * (n * y))) by (nonlinear_arith)
        requires
            v * t <= (t + 1 as real) * (m * n),
            d == x * y,
            d > 0 as real,
    {
        assert((v * d) * t == (v * t) * d);
        assert((v * t) * d <= ((t + 1 as real) * (m * n)) * d);
    }
}

/// What a number is rounded down to is not above it.
pub proof fn lemma_whole_part(b: Dyadic)
    requires
        b.mant >= 0,
    ensures
        whole_part(b) >= 0,
        whole_part(b) as real <= b.value(),
{
    if b.exp >= 0 {
        let w = pow2(b.exp as nat) as int;
        lemma_pow2_pos(b.exp as nat);
        lemma_real_product(b.mant, w);
        assert(b.mant * w >= 0) by (nonlinear_arith)
            requires
                b.mant >= 0,
                w > 0,
        ;
    } else {
        let w = pow2((-b.exp) as nat) as int;
        lemma_pow2_pos((-b.exp) as nat);
        let f = b.mant / w;
        vstd::arithmetic::div_mod::lemma_fundamental_div_mod(b.mant, w);
        vstd::arithmetic::div_mod::lemma_div_pos_is_pos(b.mant, w);
        lemma_real_product(w, f);
        let m = b.mant as real;
        let wr = w as real;
        let fr = f as real;
        assert(fr <= m * (1 as real / wr)) by (nonlinear_arith)
            requires
                wr * fr <= m,
                wr > 0 as real,
        {
            let z = 1 as real / wr;
            assert(z > 0 as real);
            assert(wr * z == 1 as real);
            assert((wr * fr) * z <= m * z);
            assert((wr * fr) * z == fr);
        }
    }
}

/// What a number is rounded to is at most half above it.
pub proof fn lemma_to_whole(b: Dyadic)
    requires
        b.mant >= 0,
    ensures
        to_whole(b) >= 0,
        (2 * to_whole(b) - 1) as real <= 2 as real * b.value(),
{
    let twice = Dyadic { mant: b.mant, exp: b.exp + 1 };
    lemma_whole_part(twice);
    lemma_scale_up(b.exp);
    let m = b.mant as real;
    let x = scale(b.exp);
    let y = scale(b.exp + 1);
    assert(m * y == 2 as real * (m * x)) by (nonlinear_arith)
        requires
            y == 2 as real * x,
    ;
}

/// A number is not below 0.
pub proof fn lemma_value_positive(b: Dyadic)
    requires
        b.mant >= 0,
    ensures
        b.value() >= 0 as real,
{
    lemma_scale_up(b.exp);
    lemma_real_product_positive(b.mant as real, scale(b.exp));
}

/// A quotient is no smaller than that error allows.
pub proof fn lemma_quotient_error_below(a: Dyadic, b: Dyadic, top: int)
    requires
        a.mant >= 0,
        b.mant > 0,
        top > 0,
        top % 2 == 0,
    ensures
        quotient(a, b, top).value() * b.value() * top as real >= (top - 1) as real * a.value(),
{
    lemma_rounding_error(a.mant, b.mant, top * b.mant, top);
    let r = nearest(a.mant, b.mant, top);
    let c = quotient(a, b, top);
    lemma_value_shifts(r, a.exp - b.exp);
    lemma_scale_adds(a.exp - b.exp, b.exp);
    lemma_scale_up(a.exp);
    let v = r.value();
    let d = scale(a.exp - b.exp);
    if r.mant == 0 {
        let z = scale(0);
        assert(0 as real * z == 0 as real && 0 as real * d == 0 as real) by (nonlinear_arith);
        if a.mant > 0 {
            lemma_rounded(a.mant, b.mant, top * b.mant, top);
        }
    }
    assert(c.value() == v * d);
    let x = scale(a.exp);
    let y = scale(b.exp);
    let m = a.mant as real;
    let n = b.mant as real;
    let t = top as real;
    assert((v * d) * (n * y) * t >= (t - 1 as real) * (m * x)) by (nonlinear_arith)
        requires
            v * n * t >= (t - 1 as real) * m,
            x == d * y,
            x > 0 as real,
    {
        assert((v * d) * (n * y) * t == (v * n * t) * x);
        assert((v * n * t) * x >= ((t - 1 as real) * m) * x);
    }
}

/// A product is no smaller than that error allows.
pub proof fn lemma_product_error_below(a: Dyadic, b: Dyadic, top: int)
    requires
        a.mant >= 0,
        b.mant >= 0,
        top > 0,
        top % 2 == 0,
    ensures
        product(a, b, top).value() * top as real >= (top - 1) as real * (a.value() * b.value()),
{
    let p = a.mant * b.mant;
    assert(p >= 0) by (nonlinear_arith)
        requires
            p == a.mant * b.mant,
            a.mant >= 0,
            b.mant >= 0,
    ;
    lemma_nearest_error(p, top);
    lemma_real_product(a.mant, b.mant);
    let r = nearest(p, 1, top);
    lemma_value_shifts(r, a.exp + b.exp);
    lemma_scale_adds(a.exp, b.exp);
    lemma_scale_up(a.exp + b.exp);
    let v = r.value();
    let d = scale(a.exp + b.exp);
    if r.mant == 0 {
        let z = scale(0);
        assert(0 as real * z == 0 as real && 0 as real * d == 0 as real) by (nonlinear_arith);
    }
    assert(product(a, b, top).value() == v * d);
    let x = scale(a.exp);
    let y = scale(b.exp);
    let m = a.mant as real;
    let n = b.mant as real;
    let t = top as real;
    assert((v * d) * t >= (t - 1 as real) * ((m * x) * (n * y))) by (nonlinear_arith)
        requires
            v * t >= (t - 1 as real) * (m * n),
            d == x * y,
            d > 0 as real,
    {
        assert((v * d) * t == (v * t) * d);
        assert((v * t) * d >= ((t - 1 as real) * (m * n)) * d);
    }
}

/// A number is less than 1 above what it is rounded down to.
pub proof fn lemma_whole_part_above(b: Dyadic)
    requires
        b.mant >= 0,
    ensures
        b.value() < (whole_part(b) + 1) as real,
{
    if b.exp >= 0 {
        let w = pow2(b.exp as nat) as int;
        lemma_real_product(b.mant, w);
    } else {
        let w = pow2((-b.exp) as nat) as int;
        lemma_pow2_pos((-b.exp) as nat);
        let f = b.mant / w;
        vstd::arithmetic::div_mod::lemma_fundamental_div_mod(b.mant, w);
        assert(w * (f + 1) == w * f + w) by (nonlinear_arith);
        lemma_real_product(w, f + 1);
        let m = b.mant as real;
        let wr = w as real;
        let fr = (f + 1) as real;
        assert(m * (1 as real / wr) < fr) by (nonlinear_arith)
            requires
                m < wr * fr,
                wr > 0 as real,
        {
            let z = 1 as real / wr;
            assert(z > 0 as real);
            assert(wr * z == 1 as real);
            assert(m * z < (wr * fr) * z);
            assert((wr * fr) * z == fr);
        }
    }
}

/// A number is less than a half above what it is rounded to.
pub proof fn lemma_to_whole_above(b: Dyadic)
    requires
        b.mant >= 0,
    ensures
        2 as real * b.value() < (2 * to_whole(b) + 1) as real,
{
    let twice = Dyadic { mant: b.mant, exp: b.exp + 1 };
    lemma_whole_part_above(twice);
    lemma_whole_part(twice);
    lemma_scale_up(b.exp);
    let m = b.mant as real;
    let x = scale(b.exp);
    let y = scale(b.exp + 1);
    assert(m * y == 2 as real * (m * x)) by (nonlinear_arith)
        requires
            y == 2 as real * x,
    ;
}

/// A number halfway between two whole ones is rounded to the even one, and any other to the nearer.
pub proof fn lemma_half_even_is_nearest(p: int, q: int)
    requires
        0 <= p,
        0 < q,
    ensures
        2 * (half_even(p, q) * q - p) <= q,
        2 * (half_even(p, q) * q - p) >= -q,
        2 * (half_even(p, q) * q - p) == q || 2 * (half_even(p, q) * q - p) == -q ==> half_even(p, q) % 2
            == 0,
{
    let f = p / q;
    let r = p % q;
    vstd::arithmetic::div_mod::lemma_fundamental_div_mod(p, q);
    assert(f * q == q * f && (f + 1) * q == q * f + q) by (nonlinear_arith);
    assert(f % 2 == 0 || f % 2 == 1);
}

/// Rounding gives the number of the precision that is nearest, the one with an even significand where
/// two are as near: it errs by no more than half of what its last place counts.
pub proof fn lemma_rounded_is_nearest(p: int, q: int, hi: int, top: int)
    requires
        p > 0,
        q > 0,
        top > 0,
        top % 2 == 0,
        hi == top * q,
    ensures
        ({
            let b = rounded(p, q, hi);
            let off = 2 as real * (b.value() * q as real - p as real);
            let place = scale(b.exp) * q as real;
            &&& -place <= off <= place
            &&& off == place || off == -place ==> b.mant % 2 == 0
        }),
    decreases off_scale(p, hi),
{
    let b = rounded(p, q, hi);
    lemma2_to64();
    assert(hi > 0) by (nonlinear_arith)
        requires
            hi == top * q,
            top > 0,
            q > 0,
    ;
    let qr = q as real;
    let pr = p as real;
    if 2 * p < hi {
        lemma_rounded_is_nearest(2 * p, q, hi, top);
        let c = rounded(2 * p, q, hi);
        lemma_scale_up(c.exp - 1);
        let m = c.mant as real;
        let x = scale(c.exp);
        let y = scale(c.exp - 1);
        assert(m * x * qr == 2 as real * (m * y * qr)) by (nonlinear_arith)
            requires
                x == 2 as real * y,
        ;
        assert(x * qr == 2 as real * (y * qr)) by (nonlinear_arith)
            requires
                x == 2 as real * y,
        ;
    } else if p >= hi {
        assert(2 * hi == top * (2 * q)) by (nonlinear_arith)
            requires
                hi == top * q,
        ;
        lemma_rounded_is_nearest(p, 2 * q, 2 * hi, top);
        let c = rounded(p, 2 * q, 2 * hi);
        lemma_scale_up(c.exp);
        let m = c.mant as real;
        let x = scale(c.exp);
        let y = scale(c.exp + 1);
        assert(m * x * (2 as real * qr) == m * y * qr) by (nonlinear_arith)
            requires
                y == 2 as real * x,
        ;
        assert(x * (2 as real * qr) == y * qr) by (nonlinear_arith)
            requires
                y == 2 as real * x,
        ;
    } else {
        lemma_half_even_is_nearest(p, q);
        lemma_real_product(b.mant, q);
        let m = b.mant as real;
        let s = scale(0);
        assert(m * s * qr == m * qr && s * qr == qr) by (nonlinear_arith)
            requires
                s == 1 as real,
        ;
    }
}

/// What a number leaves of 1 is what it is taken to be but for the error of one rounding; a number that
/// is not below 1 leaves nothing.
pub proof fn lemma_one_less_error(x: Dyadic, top: int)
    requires
        x.mant >= 0,
        top > 0,
        top % 2 == 0,
    ensures
        one_less(x, top).mant >= 0,
        x.value() >= 1 as real ==> one_less(x, top).value() == 0 as real,
        x.value() < 1 as real ==> one_less(x, top).value() * top as real <= (top + 1) as real * (1 as real
            - x.value()),
        x.value() < 1 as real ==> one_less(x, top).value() * top as real >= (top - 1) as real * (1 as real
            - x.value()),
{
    lemma2_to64();
    lemma_nearest_error(1, top);
    let m = x.mant as real;
    let zero = scale(0);
    assert(0 as real * zero == 0 as real) by (nonlinear_arith);
    if x.mant == 0 {
        let s = scale(x.exp);
        assert(m * s == 0 as real) by (nonlinear_arith)
            requires
                m == 0 as real,
        ;
    } else if x.exp >= 0 {
        let w = pow2(x.exp as nat) as int;
        lemma_pow2_pos(x.exp as nat);
        let wr = w as real;
        assert(m * wr >= 1 as real) by (nonlinear_arith)
            requires
                m >= 1 as real,
                wr >= 1 as real,
        ;
    } else {
        let w = pow2((-x.exp) as nat) as int;
        lemma_pow2_pos((-x.exp) as nat);
        let wr = w as real;
        let z = 1 as real / wr;
        assert(z > 0 as real && wr * z == 1 as real) by (nonlinear_arith)
            requires
                wr > 0 as real,
                z == 1 as real / wr,
        ;
        assert(x.value() == m * z);
        if w <= x.mant {
            assert(m * z >= 1 as real) by (nonlinear_arith)
                requires
                    m >= wr,
                    z > 0 as real,
                    wr * z == 1 as real,
            ;
        } else {
            assert(m * z < 1 as real) by (nonlinear_arith)
                requires
                    m < wr,
                    z > 0 as real,
                    wr * z == 1 as real,
            ;
            let p = w - x.mant;
            lemma_nearest_error(p, top);
            let r = nearest(p, 1, top);
            lemma_value_shifts(r, x.exp);
            let v = r.value();
            let pr = p as real;
            let t = top as real;
            assert(one_less(x, top).value() == v * z);
            assert(pr * z == 1 as real - m * z) by (nonlinear_arith)
                requires
                    pr == wr - m,
                    wr * z == 1 as real,
            ;
            assert((v * z) * t <= (t + 1 as real) * (pr * z)) by (nonlinear_arith)
                requires
                    v * t <= (t + 1 as real) * pr,
                    z > 0 as real,
            {
                assert((v * z) * t == (v * t) * z);
                assert((v * t) * z <= ((t + 1 as real) * pr) * z);
            }
            assert((v * z) * t >= (t - 1 as real) * (pr * z)) by (nonlinear_arith)
                requires
                    v * t >= (t - 1 as real) * pr,
                    z > 0 as real,
            {
                assert((v * z) * t == (v * t) * z);
                assert((v * t) * z >= ((t - 1 as real) * pr) * z);
            }
        }
    }
}

} // verus!
