//! Durations in nanoseconds, and points in time.
//!
//! A duration in whole notes lasts `duration * 60 / (bpm * beat_duration)`
//! seconds, where `beat_duration` is the part of a whole note that counts as
//! one beat. Here the result is a whole number of nanoseconds, rounded
//! towards zero, and held to what 64 bits can say.

use super::types::{giga, CompileState, Decimal, Note, NoteView, TimeStamp};
use crate::rational::{abs, magnitude, Rational32};
use vstd::arithmetic::div_mod::lemma_fundamental_div_mod_converse;
use vstd::prelude::*;

verus! {

/// There is a tempo: the beat is a positive part of a whole note and there
/// is more than no beat a minute.
pub open spec fn tempo_positive(beat: Rational32, bpm: Decimal) -> bool {
    bpm.0 > 0 && ((beat.0 > 0 && beat.1 > 0) || (beat.0 < 0 && beat.1 < 0))
}

/// The nanoseconds that `duration` lasts at the tempo of `beat` and `bpm`,
/// rounded towards zero; 0 where there is no tempo or the duration is no
/// number.
pub open spec fn exact_nanos(duration: Rational32, beat: Rational32, bpm: Decimal) -> int {
    if duration.1 == 0 || !tempo_positive(beat, bpm) {
        0
    } else {
        let num = abs(duration.0 as int) * abs(beat.1 as int) * 60 * giga() * giga();
        let den = abs(duration.1 as int) * abs(beat.0 as int) * bpm.0;
        let m = num / den;
        if (duration.0 < 0) != (duration.1 < 0) {
            -m
        } else {
            m
        }
    }
}

/// `x` held to the range of 64 bits.
pub open spec fn clamped(x: int) -> i64 {
    if x > i64::MAX {
        i64::MAX
    } else if x < i64::MIN {
        i64::MIN
    } else {
        x as i64
    }
}

pub open spec fn two_to(i: nat) -> int
    decreases i,
{
    if i == 0 {
        1
    } else {
        2 * two_to((i - 1) as nat)
    }
}

/// `x * 2^20 / d`, rounded down.
fn scaled_quotient(x: u128, d: u128) -> (q: u128)
    requires
        x <= 0x4000_0000_0000_0000 * 0x3FFF_FFFF_FFFF,
        0 < d <= 0x8000_0000 * 0x8000_0000 * 0x7FFF_FFFF_FFFF_FFFF,
    ensures
        q == (x * 0x10_0000) / (d as int),
{
    let mut q = x / d;
    let mut r = x % d;
    let mut total = x;
    let mut i: u32 = 0;
    assert(q * d + r == x) by (nonlinear_arith)
        requires
            q == x / d,
            r == x % d,
            d > 0,
    ;
    while i < 20
        invariant
            0 <= i <= 20,
            0 < d <= 0x8000_0000 * 0x8000_0000 * 0x7FFF_FFFF_FFFF_FFFF,
            x <= 0x4000_0000_0000_0000 * 0x3FFF_FFFF_FFFF,
            total == x * two_to(i as nat),
            two_to(i as nat) <= 0x10_0000,
            i < 20 ==> two_to(i as nat) <= 0x8_0000,
            q * d + r == total,
            0 <= r < d,
        decreases 20 - i,
    {
        proof {
            reveal_with_fuel(two_to, 21);
            assert(q <= total) by (nonlinear_arith)
                requires
                    q * d + r == total,
                    d >= 1,
                    r >= 0,
                    q >= 0,
            ;
            assert(total <= 0x4000_0000_0000_0000 * 0x3FFF_FFFF_FFFF * 0x8_0000) by (nonlinear_arith)
                requires
                    total == x * two_to(i as nat),
                    0 <= x <= 0x4000_0000_0000_0000 * 0x3FFF_FFFF_FFFF,
                    0 <= two_to(i as nat) <= 0x8_0000,
            ;
        }
        let ghost old_q = q as int;
        let ghost old_r = r as int;
        let doubled = r * 2;
        q = q * 2;
        if doubled >= d {
            r = doubled - d;
            q = q + 1;
        } else {
            r = doubled;
        }
        total = total * 2;
        i = i + 1;
        proof {
            let di = d as int;
            assert(q * di + r == total) by (nonlinear_arith)
                requires
                    old_q * di + old_r == total / 2,
                    total == 2 * (total / 2),
                    (q == 2 * old_q + 1 && r == 2 * old_r - di) || (q == 2 * old_q && r == 2
                        * old_r),
            ;
            assert(total == x * two_to(i as nat)) by (nonlinear_arith)
                requires
                    total == 2 * (x * two_to((i - 1) as nat)),
                    two_to(i as nat) == 2 * two_to((i - 1) as nat),
            ;
        }
    }
    proof {
        reveal_with_fuel(two_to, 21);
        assert(two_to(20) == 0x10_0000);
        lemma_fundamental_div_mod_converse(x * 0x10_0000, d as int, q as int, r as int);
    }
    q
}

/// The nanoseconds that `duration` lasts at the tempo of `beat` and `bpm`.
pub fn nanos_of(duration: Rational32, beat: Rational32, bpm: Decimal) -> (n: i64)
    ensures
        n == clamped(exact_nanos(duration, beat, bpm)),
{
    if duration.1 == 0 || bpm.0 <= 0 || !((beat.0 > 0 && beat.1 > 0) || (beat.0 < 0 && beat.1
        < 0)) {
        return 0;
    }
    let dn = magnitude(duration.0) as u128;
    let dd = magnitude(duration.1) as u128;
    let bn = magnitude(beat.0) as u128;
    let bd = magnitude(beat.1) as u128;
    let b = bpm.0 as u128;
    proof {
        assert(dn * bd <= 0x8000_0000 * 0x8000_0000) by (nonlinear_arith)
            requires
                0 <= dn <= 0x8000_0000,
                0 <= bd <= 0x8000_0000,
        ;
        assert(dn * bd * 57220458984375 <= 0x4000_0000_0000_0000 * 0x3FFF_FFFF_FFFF)
            by (nonlinear_arith)
            requires
                0 <= dn * bd <= 0x8000_0000 * 0x8000_0000,
        ;
        assert(0 < dd * bn <= 0x8000_0000 * 0x8000_0000) by (nonlinear_arith)
            requires
                0 < dd <= 0x8000_0000,
                0 < bn <= 0x8000_0000,
        ;
        assert(0 < dd * bn * b <= 0x8000_0000 * 0x8000_0000 * 0x7FFF_FFFF_FFFF_FFFF)
            by (nonlinear_arith)
            requires
                0 < dd * bn <= 0x8000_0000 * 0x8000_0000,
                0 < b <= 0x7FFF_FFFF_FFFF_FFFF,
        ;
    }
    let x = dn * bd * 57220458984375;
    let d = dd * bn * b;
    let q = scaled_quotient(x, d);
    proof {
        assert(x * 0x10_0000 == dn * bd * 60 * giga() * giga()) by (nonlinear_arith)
            requires
                x == dn * bd * 57220458984375,
                giga() == 1_000_000_000,
        ;
    }
    let negative = (duration.0 < 0) != (duration.1 < 0);
    if negative {
        if q > 0x8000_0000_0000_0000 {
            i64::MIN
        } else {
            (0 - q as i128) as i64
        }
    } else {
        if q > 0x7FFF_FFFF_FFFF_FFFF {
            i64::MAX
        } else {
            q as i64
        }
    }
}

impl TimeStamp {
    /// The nanoseconds that `duration` lasts in `state`.
    pub fn dur_in_sec(duration: Rational32, state: &CompileState) -> (n: i64)
        ensures
            n == clamped(exact_nanos(duration, state.beat_duration, state.bpm)),
    {
        nanos_of(duration, state.beat_duration, state.bpm)
    }

    /// The point in time `duration` later, or earlier for a negative
    /// duration; the place in the bar is in lowest terms. `None` where a
    /// number does not fit.
    pub open spec fn later(self, duration: Rational32, state: CompileState) -> Option<TimeStamp> {
        let nanos = self.nanos + clamped(exact_nanos(duration, state.beat_duration, state.bpm));
        if self.ticks.sum_fits(duration) && i64::MIN <= nanos <= i64::MAX {
            Some(TimeStamp { nanos: nanos as i64, bars: self.bars, ticks: self.ticks.sum(duration) })
        } else {
            None
        }
    }

    pub fn add_duration(&self, duration: Rational32, state: &CompileState) -> (t: Option<Self>)
        ensures
            t == self.later(duration, *state),
    {
        let ticks = match self.ticks.checked_add(duration) {
            Some(t) => t,
            None => {
                return None;
            },
        };
        let step = TimeStamp::dur_in_sec(duration, state);
        let nanos = self.nanos as i128 + step as i128;
        if nanos < -0x8000_0000_0000_0000 || nanos > 0x7FFF_FFFF_FFFF_FFFF {
            return None;
        }
        Some(TimeStamp { nanos: nanos as i64, bars: self.bars, ticks })
    }

    /// The same point in time with the place in the bar over the least
    /// common multiple of its denominator and that of `quantize`.
    pub open spec fn snapped(self, quantize: Rational32) -> Option<TimeStamp> {
        if self.ticks.scale_fits(quantize.1 as int) {
            Some(TimeStamp { ticks: self.ticks.scaled(quantize.1 as int), ..self })
        } else {
            None
        }
    }

    pub fn reduct_to_quantize(&self, quantize: Rational32) -> (t: Option<Self>)
        ensures
            t == self.snapped(quantize),
    {
        match self.ticks.checked_reduct_to(quantize.1) {
            Some(ticks) => Some(TimeStamp { nanos: self.nanos, bars: self.bars, ticks }),
            None => None,
        }
    }

    /// The start of the next bar, with the place in the bar counted in
    /// parts of `time_signature`'s denominator.
    pub fn next_bar(&self, time_signature: Rational32) -> (t: Option<Self>)
        ensures
            t == if self.bars < u32::MAX && time_signature.1 != 0 && time_signature.1
                != i32::MIN {
                Some(
                    TimeStamp {
                        nanos: self.nanos,
                        bars: (self.bars + 1) as u32,
                        ticks: Rational32(0, abs(time_signature.1 as int) as i32),
                    },
                )
            } else {
                None
            },
    {
        if self.bars == u32::MAX || time_signature.1 == 0 || time_signature.1 == i32::MIN {
            None
        } else {
            let ticks = Rational32::new(0, time_signature.1);
            Some(TimeStamp { nanos: self.nanos, bars: self.bars + 1, ticks })
        }
    }

    /// Whether no time has passed.
    pub fn is_zero(&self) -> (b: bool)
        ensures
            b == (self.nanos == 0),
    {
        self.nanos == 0
    }
}

impl Note {
    /// Gives the note `duration`, and the nanoseconds that it lasts in
    /// `state`.
    pub fn set_duration(&mut self, duration: Rational32, state: &CompileState)
        ensures
            final(self)@ == (NoteView {
                duration,
                duration_nanos: clamped(exact_nanos(duration, state.beat_duration, state.bpm)),
                ..old(self)@
            }),
    {
        self.duration = duration;
        self.duration_nanos = TimeStamp::dur_in_sec(duration, state);
    }
}

} // verus!
