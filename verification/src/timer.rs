//! Frame timing: the duration since the previous frame, converted to a
//! fixed-point time step and capped at the largest step the integrator
//! accepts.  Only the clock readings themselves are taken on trust; the
//! conversion is verified for every possible reading.

use vstd::prelude::*;
use std::time::{Duration, Instant};
use crate::fp::{tdiv, lemma_div_nonneg, SCALE, DT_MAX};

verus! {

#[verifier::external_type_specification]
#[verifier::external_body]
pub struct ExInstant(Instant);

/// Relies on std::time::Instant::now: an opaque reading of the monotonic
/// clock.  Nothing can be promised of the value.
#[verifier::external_body]
fn instant_now() -> (t: Instant) {
    Instant::now()
}

/// Relies on std::time::Instant::elapsed: the time since `t`.  The value
/// depends on the clock, so nothing is promised of it.
#[verifier::external_body]
fn elapsed_of(t: &Instant) -> (d: Duration) {
    t.elapsed()
}

/// Relies on std::time::Duration::as_millis: the duration in whole
/// milliseconds.  The duration is opaque here, so nothing is promised of
/// the value.
#[verifier::external_body]
fn duration_millis(d: &Duration) -> (ms: u128) {
    d.as_millis()
}

/// Converts a frame duration in milliseconds to a fixed-point time step,
/// capped at the largest step the integrator accepts.
pub fn millis_to_dt(ms: u64) -> (dt: i64)
    ensures
        dt as int == if tdiv(ms as int * SCALE as int, 1000) > DT_MAX as int {
            DT_MAX as int
        } else {
            tdiv(ms as int * SCALE as int, 1000)
        },
        0 <= dt <= DT_MAX,
{
    if ms >= 1000 {
        proof {
            let n = ms as int * SCALE as int;
            lemma_div_nonneg(n, 1000);
            vstd::arithmetic::div_mod::lemma_fundamental_div_mod(n, 1000);
            vstd::arithmetic::div_mod::lemma_mod_bound(n, 1000);
            assert(n >= 1000 * 65536) by (nonlinear_arith)
                requires ms as int >= 1000, SCALE as int == 65536, n == ms as int * SCALE as int,
            {}
            assert(n / 1000 >= 65536) by (nonlinear_arith)
                requires
                    n == 1000 * (n / 1000) + n % 1000,
                    0 <= n % 1000 < 1000,
                    n >= 1000 * 65536,
            {}
        }
        DT_MAX
    } else {
        let v: u64 = (ms * 65536) / 1000;
        proof {
            lemma_div_nonneg(ms as int * 65536, 1000);
        }
        if v > DT_MAX as u64 {
            DT_MAX
        } else {
            v as i64
        }
    }
}

/// A frame timer: remembers the instant of the previous reading.
pub struct Timer {
    last_instant: Instant,
}

impl Timer {
    /// A timer starting now.
    pub fn new() -> Timer {
        Timer { last_instant: instant_now() }
    }

    /// The fixed-point time step since the previous reading, capped at the
    /// largest step the integrator accepts, and resets the timer.
    pub fn dt_fixed(&mut self) -> (dt: i64)
        ensures
            0 <= dt <= DT_MAX,
    {
        let d = elapsed_of(&self.last_instant);
        let ms128 = duration_millis(&d);
        let ms: u64 = if ms128 > 0xffff_ffff_ffff_ffff { u64::MAX } else { ms128 as u64 };
        self.last_instant = instant_now();
        millis_to_dt(ms)
    }
}

} // verus!
