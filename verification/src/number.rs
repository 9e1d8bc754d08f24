//! Floating-point numbers carried as their IEEE 754 bits, with the order that they stand in.

use vstd::prelude::*;

verus! {

/// The bits of a single-precision number without its sign.
pub open spec fn magnitude32(b: u32) -> int {
    if b >= 0x8000_0000 {
        b - 0x8000_0000
    } else {
        b as int
    }
}

/// Whether the bits are those of no number.
pub open spec fn is_nan32(b: u32) -> bool {
    magnitude32(b) > 0x7F80_0000
}

/// Where a number stands in the order of all numbers; both zeros stand at 0.
pub open spec fn rank32(b: u32) -> int {
    if b >= 0x8000_0000 {
        -magnitude32(b)
    } else {
        magnitude32(b)
    }
}

/// The bits of the number that stands at `r` in the order of all numbers.
pub open spec fn bits_of_rank(r: int) -> u32 {
    if r >= 0 {
        r as u32
    } else {
        (0x8000_0000 - r) as u32
    }
}

/// `a < b`, for single-precision numbers given by their bits.
pub open spec fn less32(a: u32, b: u32) -> bool {
    !is_nan32(a) && !is_nan32(b) && rank32(a) < rank32(b)
}

/// `a <= b`, for single-precision numbers given by their bits.
pub open spec fn at_most32(a: u32, b: u32) -> bool {
    !is_nan32(a) && !is_nan32(b) && rank32(a) <= rank32(b)
}

/// The bits of a double-precision number without its sign.
pub open spec fn magnitude64(b: u64) -> int {
    if b >= 0x8000_0000_0000_0000 {
        b - 0x8000_0000_0000_0000
    } else {
        b as int
    }
}

/// Whether the bits are those of no number.
pub open spec fn is_nan64(b: u64) -> bool {
    magnitude64(b) > 0x7FF0_0000_0000_0000
}

/// Where a number stands in the order of all numbers; both zeros stand at 0.
pub open spec fn rank64(b: u64) -> int {
    if b >= 0x8000_0000_0000_0000 {
        -magnitude64(b)
    } else {
        magnitude64(b)
    }
}

/// `a < b`, for double-precision numbers given by their bits.
pub open spec fn less64(a: u64, b: u64) -> bool {
    !is_nan64(a) && !is_nan64(b) && rank64(a) < rank64(b)
}

/// `a <= b`, for double-precision numbers given by their bits.
pub open spec fn at_most64(a: u64, b: u64) -> bool {
    !is_nan64(a) && !is_nan64(b) && rank64(a) <= rank64(b)
}

/// Whether the bits are those of no number.
pub fn nan32(b: u32) -> (r: bool)
    ensures
        r == is_nan32(b),
{
    let m: u32 = if b >= 0x8000_0000 {
        b - 0x8000_0000
    } else {
        b
    };
    m > 0x7F80_0000
}

/// Where a number stands in the order of all numbers.
pub fn order32(b: u32) -> (r: i64)
    ensures
        r == rank32(b),
{
    if b >= 0x8000_0000 {
        -((b - 0x8000_0000) as i64)
    } else {
        b as i64
    }
}

/// `a < b`, for single-precision numbers given by their bits.
pub fn lt32(a: u32, b: u32) -> (r: bool)
    ensures
        r == less32(a, b),
{
    !nan32(a) && !nan32(b) && order32(a) < order32(b)
}

/// `a <= b`, for single-precision numbers given by their bits.
pub fn le32(a: u32, b: u32) -> (r: bool)
    ensures
        r == at_most32(a, b),
{
    !nan32(a) && !nan32(b) && order32(a) <= order32(b)
}

/// Whether the bits are those of no number.
pub fn nan64(b: u64) -> (r: bool)
    ensures
        r == is_nan64(b),
{
    let m: u64 = if b >= 0x8000_0000_0000_0000 {
        b - 0x8000_0000_0000_0000
    } else {
        b
    };
    m > 0x7FF0_0000_0000_0000
}

/// Where a number stands in the order of all numbers.
pub fn order64(b: u64) -> (r: i128)
    ensures
        r == rank64(b),
{
    if b >= 0x8000_0000_0000_0000 {
        -((b - 0x8000_0000_0000_0000) as i128)
    } else {
        b as i128
    }
}

/// `a < b`, for double-precision numbers given by their bits.
pub fn lt64(a: u64, b: u64) -> (r: bool)
    ensures
        r == less64(a, b),
{
    !nan64(a) && !nan64(b) && order64(a) < order64(b)
}

/// `a <= b`, for double-precision numbers given by their bits.
pub fn le64(a: u64, b: u64) -> (r: bool)
    ensures
        r == at_most64(a, b),
{
    !nan64(a) && !nan64(b) && order64(a) <= order64(b)
}

/// A single-precision number as it is stored and shown.
#[verifier::ext_equal]
pub struct Shown32 {
    pub bits: u32,
    pub text: Seq<char>,
}

/// A double-precision number as it is stored and shown.
#[verifier::ext_equal]
pub struct Shown64 {
    pub bits: u64,
    pub single: u32,
    pub text: Seq<char>,
}

/// A single-precision number: its bits, and the text that shows it.
#[derive(Debug)]
pub struct Num32 {
    pub bits: u32,
    pub text: String,
}

/// A double-precision number: its bits, the bits of the nearest single-precision number, and the
/// text that shows it.
#[derive(Debug)]
pub struct Num64 {
    pub bits: u64,
    pub single: u32,
    pub text: String,
}

impl View for Num32 {
    type V = Shown32;

    open spec fn view(&self) -> Shown32 {
        Shown32 { bits: self.bits, text: self.text@ }
    }
}

impl View for Num64 {
    type V = Shown64;

    open spec fn view(&self) -> Shown64 {
        Shown64 { bits: self.bits, single: self.single, text: self.text@ }
    }
}

impl Clone for Num32 {
    fn clone(&self) -> (r: Self)
        ensures
            r@ == self@,
    {
        Num32 { bits: self.bits, text: self.text.clone() }
    }
}

impl Clone for Num64 {
    fn clone(&self) -> (r: Self)
        ensures
            r@ == self@,
    {
        Num64 { bits: self.bits, single: self.single, text: self.text.clone() }
    }
}

/// The view of an optional number.
pub open spec fn shown32(n: Option<Num32>) -> Option<Shown32> {
    match n {
        Some(v) => Some(v@),
        None => None,
    }
}

/// The view of an optional number.
pub open spec fn shown64(n: Option<Num64>) -> Option<Shown64> {
    match n {
        Some(v) => Some(v@),
        None => None,
    }
}

/// A stretch of numbers, from a least to a greatest one where there is one; each end belongs to
/// it or not.
#[derive(Debug, Clone, Copy, PartialEq, Eq, Structural)]
pub struct Range32 {
    pub least: u32,
    pub with_least: bool,
    pub greatest: Option<u32>,
}

/// A stretch of numbers, from a least to a greatest one where there is one; each end belongs to
/// it or not.
#[derive(Debug, Clone, Copy, PartialEq, Eq, Structural)]
pub struct Range64 {
    pub least: u64,
    pub with_least: bool,
    pub greatest: Option<u64>,
    pub with_greatest: bool,
}

impl Range32 {
    /// Whether a number, given by its bits, lies in the range.
    pub open spec fn holds(self, b: u32) -> bool {
        &&& if self.with_least {
            at_most32(self.least, b)
        } else {
            less32(self.least, b)
        }
        &&& match self.greatest {
            Some(g) => at_most32(b, g),
            None => true,
        }
    }

    /// Whether a number, given by its bits, lies in the range.
    pub fn contains(&self, b: u32) -> (r: bool)
        ensures
            r == self.holds(b),
    {
        let above = if self.with_least {
            le32(self.least, b)
        } else {
            lt32(self.least, b)
        };
        let below = match self.greatest {
            Some(g) => le32(b, g),
            None => true,
        };
        above && below
    }
}

impl Range64 {
    /// Whether a number, given by its bits, lies in the range.
    pub open spec fn holds(self, b: u64) -> bool {
        &&& if self.with_least {
            at_most64(self.least, b)
        } else {
            less64(self.least, b)
        }
        &&& match self.greatest {
            Some(g) => if self.with_greatest {
                at_most64(b, g)
            } else {
                less64(b, g)
            },
            None => true,
        }
    }

    /// Whether a number, given by its bits, lies in the range.
    pub fn contains(&self, b: u64) -> (r: bool)
        ensures
            r == self.holds(b),
    {
        let above = if self.with_least {
            le64(self.least, b)
        } else {
            lt64(self.least, b)
        };
        let below = match self.greatest {
            Some(g) => if self.with_greatest {
                le64(b, g)
            } else {
                lt64(b, g)
            },
            None => true,
        };
        above && below
    }
}

/// The order of numbers is total on all that are numbers, and no number is in it twice but zero.
pub proof fn lemma_order32(a: u32, b: u32)
    requires
        !is_nan32(a),
        !is_nan32(b),
    ensures
        less32(a, b) || less32(b, a) || (at_most32(a, b) && at_most32(b, a)),
        at_most32(a, b) && at_most32(b, a) ==> a == b || (magnitude32(a) == 0 && magnitude32(b)
            == 0),
{
}

/// The bits are those of the number at their own place in the order, but for the zero with a
/// minus sign.
pub proof fn lemma_rank_round_trip(b: u32)
    ensures
        bits_of_rank(rank32(b)) == (if b == 0x8000_0000 {
            0
        } else {
            b
        }),
{
}

/// Numbers from 0 up stand in the order of their bits, those below 0 in the opposite order and before
/// the others; both zeros stand at the same place, and what is no number stands nowhere.
pub proof fn lemma_order_by_bits32(a: u32, b: u32)
    ensures
        a <= 0x7F80_0000 && b <= 0x7F80_0000 ==> less32(a, b) == (a < b) && at_most32(a, b) == (a <= b),
        0x8000_0000 <= a <= 0xFF80_0000 && 0x8000_0000 <= b <= 0xFF80_0000 ==> less32(a, b) == (a > b)
            && at_most32(a, b) == (a >= b),
        0x8000_0000 <= a <= 0xFF80_0000 && b <= 0x7F80_0000 ==> at_most32(a, b) && less32(a, b) == !(a
            == 0x8000_0000 && b == 0),
        a <= 0x7F80_0000 && 0x8000_0000 <= b <= 0xFF80_0000 ==> !less32(a, b) && at_most32(a, b) == (a
            == 0 && b == 0x8000_0000),
        0x7F80_0000 < a < 0x8000_0000 || a > 0xFF80_0000 || 0x7F80_0000 < b < 0x8000_0000 || b > 0xFF80_0000 ==> !less32(a, b)
            && !at_most32(a, b),
{
}

/// Numbers from 0 up stand in the order of their bits, those below 0 in the opposite order and before
/// the others; both zeros stand at the same place, and what is no number stands nowhere.
pub proof fn lemma_order_by_bits64(a: u64, b: u64)
    ensures
        a <= 0x7FF0_0000_0000_0000 && b <= 0x7FF0_0000_0000_0000 ==> less64(a, b) == (a < b) && at_most64(a, b) == (a <= b),
        0x8000_0000_0000_0000 <= a <= 0xFFF0_0000_0000_0000 && 0x8000_0000_0000_0000 <= b <= 0xFFF0_0000_0000_0000 ==> less64(a, b) == (a > b)
            && at_most64(a, b) == (a >= b),
        0x8000_0000_0000_0000 <= a <= 0xFFF0_0000_0000_0000 && b <= 0x7FF0_0000_0000_0000 ==> at_most64(a, b) && less64(a, b) == !(a
            == 0x8000_0000_0000_0000 && b == 0),
        a <= 0x7FF0_0000_0000_0000 && 0x8000_0000_0000_0000 <= b <= 0xFFF0_0000_0000_0000 ==> !less64(a, b) && at_most64(a, b) == (a
            == 0 && b == 0x8000_0000_0000_0000),
        0x7FF0_0000_0000_0000 < a < 0x8000_0000_0000_0000 || a > 0xFFF0_0000_0000_0000 || 0x7FF0_0000_0000_0000 < b < 0x8000_0000_0000_0000 || b > 0xFFF0_0000_0000_0000 ==> !less64(a, b)
            && !at_most64(a, b),
{
}

/// A range holds what is above its least number and not above its greatest; the ends as it says.
pub proof fn lemma_what_ranges_hold(r: Range32, w: Range64, a: u32, b: u64)
    ensures
        r.holds(a) ==> at_most32(r.least, a) && (r.with_least || less32(r.least, a)),
        r.holds(a) ==> (r.greatest matches Some(g) ==> at_most32(a, g)),
        less32(r.least, a) && (r.greatest matches Some(g) ==> at_most32(a, g)) ==> r.holds(a),
        r.with_least && at_most32(r.least, a) && (r.greatest matches Some(g) ==> at_most32(a, g))
            ==> r.holds(a),
        w.holds(b) ==> at_most64(w.least, b) && (w.with_least || less64(w.least, b)),
        w.holds(b) ==> (w.greatest matches Some(g) ==> at_most64(b, g) && (w.with_greatest || less64(
            b,
            g,
        ))),
        less64(w.least, b) && (w.greatest matches Some(g) ==> less64(b, g)) ==> w.holds(b),
        w.with_least && at_most64(w.least, b) && (w.greatest matches Some(g) ==> less64(b, g))
            ==> w.holds(b),
        less64(w.least, b) && (w.greatest matches Some(g) ==> w.with_greatest && at_most64(b, g))
            ==> w.holds(b),
{
}

} // verus!
