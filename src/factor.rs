use vstd::prelude::*;
use vstd::arithmetic::div_mod::lemma_fundamental_div_mod;

verus! {

/// Stream positions are fixed-point: one input frame spans this many position units.
pub const FRAME_UNITS: u64 = 0x1_0000_0000;

/// The largest ratio, in either direction, that a conversion factor may express.
pub const MAX_RATIO: u64 = 256;

/// The largest filter width that any accepted factor range can produce.
pub const MAX_WIDTH: u64 = 4618;

/// A conversion factor `num / den`: output sample rate over input sample rate.
#[derive(Clone, Copy, Debug, PartialEq, Eq, Structural)]
pub struct Factor {
    pub num: u32,
    pub den: u32,
}

/// Half the number of filter taps on each side of a position, by quality mode.
pub open spec fn half_taps(high_quality: bool) -> nat {
    if high_quality { 18 } else { 6 }
}

/// Filter width for a quality mode and the smallest factor a context accepts:
/// the half-tap count, stretched by `1 / min` when that exceeds one, plus a margin of ten.
pub open spec fn width_of(high_quality: bool, min: Factor) -> nat {
    if min.den <= min.num {
        half_taps(high_quality) + 10
    } else {
        (half_taps(high_quality) * min.den / (min.num as int)) as nat + 10
    }
}

impl Factor {
    /// Both terms positive and the ratio within `[1 / MAX_RATIO, MAX_RATIO]`.
    pub open spec fn in_range(self) -> bool {
        &&& self.num > 0
        &&& self.den > 0
        &&& self.num <= MAX_RATIO * self.den
        &&& self.den <= MAX_RATIO * self.num
    }

    /// `self <= o` as rational numbers (both denominators positive).
    pub open spec fn le(self, o: Factor) -> bool {
        self.num * o.den <= o.num * self.den
    }

    /// Input distance between consecutive output frames, in position units:
    /// `den / num` frames, rounded down.
    pub open spec fn step(self) -> nat {
        (self.den * FRAME_UNITS / (self.num as int)) as nat
    }

    pub fn new(num: u32, den: u32) -> (r: Factor)
        ensures
            r.num == num,
            r.den == den,
    {
        Factor { num, den }
    }

    pub fn is_in_range(&self) -> (r: bool)
        ensures
            r == self.in_range(),
    {
        self.num > 0 && self.den > 0 && (self.num as u64) <= MAX_RATIO * (self.den as u64)
            && (self.den as u64) <= MAX_RATIO * (self.num as u64)
    }

    pub fn at_most(&self, o: &Factor) -> (r: bool)
        ensures
            r == self.le(*o),
    {
        proof {
            lemma_mul_u32(self.num, o.den);
            lemma_mul_u32(o.num, self.den);
        }
        (self.num as u64) * (o.den as u64) <= (o.num as u64) * (self.den as u64)
    }

    pub fn step_units(&self) -> (r: u64)
        requires
            self.in_range(),
        ensures
            r == self.step(),
            0 < r <= MAX_RATIO * FRAME_UNITS,
    {
        proof {
            lemma_step_bounds(*self);
        }
        (self.den as u64) * FRAME_UNITS / (self.num as u64)
    }
}

/// An accepted factor advances the stream by at least one position unit and at most
/// `MAX_RATIO` frames per output frame.
pub proof fn lemma_step_bounds(f: Factor)
    requires
        f.in_range(),
    ensures
        0 < f.step() <= MAX_RATIO * FRAME_UNITS,
{
    let x = f.den * FRAME_UNITS;
    let y = f.num as int;
    assert(y <= x <= MAX_RATIO * FRAME_UNITS * y) by (nonlinear_arith)
        requires
            x == f.den * 0x1_0000_0000,
            0 < y <= 256 * f.den,
            f.den <= 256 * y,
    ;
    lemma_quotient_bounds(x, y, MAX_RATIO * FRAME_UNITS);
}

proof fn lemma_mul_u32(a: u32, b: u32)
    ensures
        a * b <= 0xFFFF_FFFE_0000_0001,
{
    assert(a * b <= 0xFFFF_FFFF * 0xFFFF_FFFF) by (nonlinear_arith)
        requires
            a <= 0xFFFF_FFFF,
            b <= 0xFFFF_FFFF,
    ;
}

/// `y <= x <= k * y` bounds the quotient `x / y` to `[1, k]`.
proof fn lemma_quotient_bounds(x: int, y: int, k: int)
    requires
        0 < y <= x <= k * y,
    ensures
        1 <= x / y <= k,
{
    lemma_fundamental_div_mod(x, y);
    let q = x / y;
    let r = x % y;
    assert(1 <= q <= k) by (nonlinear_arith)
        requires
            x == y * q + r,
            0 <= r < y,
            0 < y <= x <= k * y,
    ;
}

/// The filter width of a context of the given quality whose smallest factor is `min`.
pub fn width_for(high_quality: bool, min: Factor) -> (r: u64)
    requires
        min.in_range(),
    ensures
        r == width_of(high_quality, min),
        r <= MAX_WIDTH,
{
    if min.den <= min.num {
        if high_quality { 28 } else { 16 }
    } else {
        let half: u64 = if high_quality { 18 } else { 6 };
        let x: u64 = half * (min.den as u64);
        let y: u64 = min.num as u64;
        proof {
            assert(x <= half * MAX_RATIO * y) by (nonlinear_arith)
                requires
                    x == half * min.den,
                    min.den <= MAX_RATIO * y,
                    half <= 18,
            ;
            lemma_quotient_bounds(x as int, y as int, half * MAX_RATIO);
        }
        x / y + 10
    }
}

} // verus!
