//! Small utilities: magnitude clamping, disc sampling, input edge
//! detection.

use vstd::prelude::*;
use crate::fix::{
    mag_sq, normalize_to, sv2_normalize_to, v2_dot_exec, v2_ok, Vec2,
};
use crate::rng::pcg_next_u32;

verus! {

/// `v` rescaled so its magnitude lies within `[lo, hi]`: vectors shorter
/// than `lo` are scaled up, vectors longer than `hi` are scaled down, and
/// anything in between is returned unchanged.
pub open spec fn clamped_magnitude(v: Vec2, lo: int, hi: int) -> Vec2 {
    if mag_sq(v) < lo * lo {
        sv2_normalize_to(v, lo)
    } else if mag_sq(v) <= hi * hi {
        v
    } else {
        sv2_normalize_to(v, hi)
    }
}

/// Clamp the magnitude of `v` into `[lo, hi]`.
pub fn clamp_magnitude(v: Vec2, lo: i64, hi: i64) -> (r: Vec2)
    requires
        v2_ok(v),
        0 <= lo <= hi,
    ensures
        r == clamped_magnitude(v, lo as int, hi as int),
        v2_ok(r),
{
    let m2: i128 = v2_dot_exec(v, v);
    proof {
        crate::fix::lemma_mul_bounds(lo as int, i64::MAX as int, lo as int, i64::MAX as int);
        crate::fix::lemma_mul_bounds(hi as int, i64::MAX as int, hi as int, i64::MAX as int);
    }
    if m2 < lo as i128 * lo as i128 {
        normalize_to(v, lo)
    } else if m2 <= hi as i128 * hi as i128 {
        v
    } else {
        normalize_to(v, hi)
    }
}

/// A uniform-ish sampler over the disc of unit radius (1000 milli-units),
/// by rejection from the enclosing square. The draw count is bounded; if
/// every draw lands outside the disc the centre is returned, so the result
/// always lies in the disc.
pub struct UnitDisc;

impl UnitDisc {
    /// Draw a point of the unit disc using the shared deterministic
    /// generator.
    pub fn sample(&self, rng: &mut rand_pcg::Pcg32) -> (r: Vec2)
        ensures
            mag_sq(r) <= 1000000,
            v2_ok(r),
    {
        let mut tries: u32 = 64;
        while tries > 0
            decreases tries,
        {
            let x: i64 = (pcg_next_u32(rng) % 2001) as i64 - 1000;
            let y: i64 = (pcg_next_u32(rng) % 2001) as i64 - 1000;
            proof {
                assert(0 <= x * x <= 1000000 && 0 <= y * y <= 1000000) by (nonlinear_arith)
                    requires
                        -1000 <= x <= 1000,
                        -1000 <= y <= 1000,
                ;
            }
            if x * x + y * y <= 1000000 {
                return Vec2 { x, y };
            }
            tries = tries - 1;
        }
        Vec2 { x: 0, y: 0 }
    }
}

/// Detects the rising edge of a button: fires exactly on a press that
/// follows a release.
pub struct OneShotButton {
    pub prev: bool,
}

impl OneShotButton {
    /// A fresh button that assumes it was held, so that a button held while
    /// the observer appears does not fire immediately.
    pub fn new() -> (b: OneShotButton)
        ensures
            b.prev,
    {
        OneShotButton { prev: true }
    }

    /// Record this step's input and report whether the button fired: it
    /// fires exactly when pressed now and not pressed before.
    pub fn step_and_is_firing(&mut self, input: bool) -> (r: bool)
        ensures
            final(self).prev == input,
            r == (input && !old(self).prev),
    {
        let prev = self.prev;
        self.prev = input;
        input && !prev
    }
}

} // verus!
