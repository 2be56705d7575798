use vstd::prelude::*;

use vstd::wrapping::u32_specs::{wrapping_add, wrapping_mul};

verus! {

/// The Mulberry32 pseudo-random generator. A draw `r` stands for the fraction
/// `r / 2^32` in `[0, 1)`; comparisons with a probability `p` are made with the
/// integer threshold `ceil(p * 2^32)` (see [`roll_below`]).
#[derive(Clone, Copy, Debug)]
pub struct Mulberry32 {
    pub s: u32,
}

/// The state after one step.
pub open spec fn mulberry_next_state(s: u32) -> u32 {
    wrapping_add(s, 0x6D2B79F5u32)
}

/// The draw that a step produces from the new state `s`.
pub open spec fn mulberry_output(s: u32) -> u32 {
    let t1 = wrapping_mul(s ^ (s >> 15u32), s | 1u32);
    let t2 = t1 ^ wrapping_add(t1, wrapping_mul(t1 ^ (t1 >> 7u32), t1 | 61u32));
    t2 ^ (t2 >> 14u32)
}

/// Threshold of the probability 0.1: a draw is below 0.1 iff it is below this.
pub const TENTH_THRESHOLD: u64 = 429496730;
/// Threshold of the probability 0.5.
pub const HALF_THRESHOLD: u64 = 2147483648;
/// `2^32`, the threshold of a certain event.
pub const ROLL_RANGE: u64 = 4294967296;

impl Mulberry32 {
    /// A generator seeded with `seed`.
    pub fn new(seed: u32) -> (r: Self)
        ensures
            r.s == seed,
    {
        Mulberry32 { s: seed }
    }

    /// Advances the generator and returns its next 32-bit draw.
    pub fn next_u32(&mut self) -> (r: u32)
        ensures
            final(self).s == mulberry_next_state(old(self).s),
            r == mulberry_output(final(self).s),
    {
        self.s = self.s.wrapping_add(0x6D2B79F5u32);
        let s: u32 = self.s;
        let t1: u32 = (s ^ (s >> 15u32)).wrapping_mul(s | 1u32);
        let t2: u32 = t1 ^ t1.wrapping_add((t1 ^ (t1 >> 7u32)).wrapping_mul(t1 | 61u32));
        t2 ^ (t2 >> 14u32)
    }
}

/// Whether a draw falls below the probability whose threshold is `threshold`.
pub fn roll_below(roll: u32, threshold: u64) -> (r: bool)
    ensures
        r == (roll < threshold),
{
    (roll as u64) < threshold
}

/// `floor(roll / 2^32 * n)`: a draw scaled onto `0..n` (or `n..0` for negative `n`).
pub open spec fn scale_roll_spec(roll: u32, n: int) -> int {
    (roll as int * n) / 0x1_0000_0000
}

/// Scales a draw by `n` and rounds down.
pub fn scale_roll(roll: u32, n: i64) -> (r: i64)
    requires
        -0x7FFF_FFFF <= n <= 0x8000_0000,
    ensures
        r == scale_roll_spec(roll, n as int),
        n >= 0 ==> 0 <= r && (r < n || n == 0),
        n < 0 ==> n <= r <= 0,
{
    let ghost ni: int = n as int;
    let ghost ri: int = roll as int;
    assert(-0x8000_0000_0000_0000 < ri * ni < 0x8000_0000_0000_0000) by (nonlinear_arith)
        requires 0 <= ri < 0x1_0000_0000, -0x7FFF_FFFF <= ni <= 0x8000_0000;
    assert(ri * ni >= -9223372030412324865) by (nonlinear_arith)
        requires 0 <= ri < 0x1_0000_0000, -0x7FFF_FFFF <= ni;
    let prod: i64 = (roll as i64) * n;
    if prod >= 0 {
        let r: i64 = prod / 0x1_0000_0000i64;
        proof {
            if n >= 0 {
                assert(ri * ni < 0x1_0000_0000 * ni || ni == 0) by (nonlinear_arith)
                    requires 0 <= ri < 0x1_0000_0000, ni >= 0;
                assert((ri * ni) / 0x1_0000_0000 < ni || ni == 0) by (nonlinear_arith)
                    requires ri * ni < 0x1_0000_0000 * ni || ni == 0, ri * ni >= 0;
            } else {
                assert(ri * ni <= 0) by (nonlinear_arith)
                    requires 0 <= ri, ni < 0;
            }
        }
        r
    } else {
        let q: i64 = (-prod + 0xFFFF_FFFFi64) / 0x1_0000_0000i64;
        proof {
            let p: int = ri * ni;
            assert(-q == p / 0x1_0000_0000) by (nonlinear_arith)
                requires p < 0, q == (-p + 0xFFFF_FFFF) / 0x1_0000_0000;
            if n < 0 {
                assert(ri * ni >= 0x1_0000_0000 * ni) by (nonlinear_arith)
                    requires 0 <= ri < 0x1_0000_0000, ni < 0;
                assert(p / 0x1_0000_0000 >= ni) by (nonlinear_arith)
                    requires p >= 0x1_0000_0000 * ni;
            } else {
                assert(ri * ni >= 0) by (nonlinear_arith)
                    requires 0 <= ri, ni >= 0;
            }
        }
        -q
    }
}

} // verus!
