//! Numbers of the encoder: the settings, what can go wrong, keys and pitch
//! bends, microseconds per quarter and ticks.
//!
//! Times are nanoseconds, pitches are millionths of a semitone on the MIDI
//! scale (69 000 000 is the A of 440 Hz), and pitch offsets are millionths
//! of a cent. Where a quotient is rounded, a half goes away from zero.

use crate::compiler::types::Decimal;
use crate::rational::Rational32;
use vstd::arithmetic::div_mod::lemma_div_is_ordered;
use vstd::prelude::*;
use vstd::string::StringExecFns;

verus! {

#[derive(Debug, Clone, Copy)]
pub struct MidiWriterConfig {
    /// The range of the pitch bend, in semitones up and down.
    pub pitch_bend_range_semitones: u16,
    pub ticks_per_quarter: u32,
    /// How far a note may reach into the next one on its track, in
    /// nanoseconds; it is cut short by that much.
    pub time_tolerance_nanos: i64,
    /// How far the pitch bends of notes that start together may lie apart
    /// for the notes to share a channel, in millionths of a cent.
    pub pitch_tolerance_microcents: i64,
}

impl Default for MidiWriterConfig {
    fn default() -> (c: Self)
        ensures
            c.pitch_bend_range_semitones == 2,
            c.ticks_per_quarter == 480,
            c.time_tolerance_nanos == 100_000,
            c.pitch_tolerance_microcents == 3_000_000,
    {
        MidiWriterConfig {
            pitch_bend_range_semitones: 2,
            ticks_per_quarter: 480,
            time_tolerance_nanos: 100_000,
            pitch_tolerance_microcents: 3_000_000,
        }
    }
}

/// Why a score cannot be written as a MIDI file.
#[derive(Debug, Clone, Copy, PartialEq, Eq, Structural)]
pub enum ExportError {
    /// A note has no frequency above zero.
    FrequencyNotPositive,
    /// A note lasts no time.
    DurationNotPositive,
    /// The range of the pitch bend is zero.
    BendRangeZero,
    /// There are no ticks in a quarter.
    TicksPerQuarterZero,
    /// There are more ticks in a quarter than a MIDI file can say.
    TicksPerQuarterTooLarge,
    /// A time signature has a part that is not positive.
    TimeSignatureNotPositive,
    /// The denominator of a time signature is no power of two.
    TimeSignatureNotPowerOfTwo,
    /// A part of a time signature does not fit a byte.
    TimeSignatureOutOfRange,
    /// The tempo is not positive: no beats a minute, or no beat.
    TempoNotPositive,
    /// The notes need more than 16 channels.
    TooManyTracks,
    /// There is not one pitch, or the lack of one, for each event.
    PitchCountMismatch,
    /// An event has a number that a MIDI file cannot say.
    EventOutOfRange,
    /// The bytes could not be written.
    WriteFailed,
}

impl ExportError {
    /// What went wrong, in words.
    pub open spec fn spec_message(self) -> Seq<char> {
        match self {
            ExportError::FrequencyNotPositive => "Note frequency must be > 0 for MIDI export"@,
            ExportError::DurationNotPositive => "Note duration_seconds must be > 0 for MIDI export"@,
            ExportError::BendRangeZero => "pitch_bend_range_semitones must be > 0"@,
            ExportError::TicksPerQuarterZero => "ticks_per_quarter must be > 0"@,
            ExportError::TicksPerQuarterTooLarge => "ticks_per_quarter exceeds MIDI metrical range (32767)"@,
            ExportError::TimeSignatureNotPositive => "Invalid time signature"@,
            ExportError::TimeSignatureNotPowerOfTwo => "Time signature denominator is not a power of 2"@,
            ExportError::TimeSignatureOutOfRange => "Time signature out of MIDI range"@,
            ExportError::TempoNotPositive => "BPM and beat duration must be > 0"@,
            ExportError::TooManyTracks => "Too many note tracks for MIDI channels"@,
            ExportError::PitchCountMismatch => "One pitch is needed for each event"@,
            ExportError::EventOutOfRange => "MIDI event value out of range"@,
            ExportError::WriteFailed => "MIDI bytes could not be written"@,
        }
    }

    /// What went wrong, in words.
    pub fn message(&self) -> (m: String)
        ensures
            m@ == self.spec_message(),
    {
        match self {
            ExportError::FrequencyNotPositive => String::from_str("Note frequency must be > 0 for MIDI export"),
            ExportError::DurationNotPositive => String::from_str("Note duration_seconds must be > 0 for MIDI export"),
            ExportError::BendRangeZero => String::from_str("pitch_bend_range_semitones must be > 0"),
            ExportError::TicksPerQuarterZero => String::from_str("ticks_per_quarter must be > 0"),
            ExportError::TicksPerQuarterTooLarge => String::from_str("ticks_per_quarter exceeds MIDI metrical range (32767)"),
            ExportError::TimeSignatureNotPositive => String::from_str("Invalid time signature"),
            ExportError::TimeSignatureNotPowerOfTwo => String::from_str("Time signature denominator is not a power of 2"),
            ExportError::TimeSignatureOutOfRange => String::from_str("Time signature out of MIDI range"),
            ExportError::TempoNotPositive => String::from_str("BPM and beat duration must be > 0"),
            ExportError::TooManyTracks => String::from_str("Too many note tracks for MIDI channels"),
            ExportError::PitchCountMismatch => String::from_str("One pitch is needed for each event"),
            ExportError::EventOutOfRange => String::from_str("MIDI event value out of range"),
            ExportError::WriteFailed => String::from_str("MIDI bytes could not be written"),
        }
    }
}

/// The number of ticks in a quarter as a MIDI file says it: from 1 to
/// 32767.
pub fn normalize_tpq(tpq: u32) -> (r: Result<u16, ExportError>)
    ensures
        r == if tpq == 0 {
            Err::<u16, ExportError>(ExportError::TicksPerQuarterZero)
        } else if tpq > 0x7FFF {
            Err(ExportError::TicksPerQuarterTooLarge)
        } else {
            Ok(tpq as u16)
        },
{
    if tpq == 0 {
        Err(ExportError::TicksPerQuarterZero)
    } else if tpq > 0x7FFF {
        Err(ExportError::TicksPerQuarterTooLarge)
    } else {
        Ok(tpq as u16)
    }
}

/// `x` held between `low` and `high`.
pub open spec fn held(x: int, low: int, high: int) -> int {
    if x < low {
        low
    } else if x > high {
        high
    } else {
        x
    }
}

/// A pitch bend as the distance from the middle, from -8192 to 8191.
pub open spec fn bend_signed(bend14: int) -> int {
    held(bend14, 0, 16383) - 8192
}

/// The pitch bend for a distance from the middle, from 0 to 16383.
pub open spec fn bend_unsigned(signed: int) -> int {
    held(signed, -8192, 8191) + 8192
}

pub fn bend14_to_signed(bend14: u16) -> (s: i32)
    ensures
        s == bend_signed(bend14 as int),
{
    let held: i32 = if bend14 > 16383 {
        16383
    } else {
        bend14 as i32
    };
    held - 8192
}

pub fn signed_to_bend14(bend_signed: i32) -> (b: u16)
    ensures
        b == bend_unsigned(bend_signed as int),
{
    let held: i32 = if bend_signed < -8192 {
        -8192
    } else if bend_signed > 8191 {
        8191
    } else {
        bend_signed
    };
    (held + 8192) as u16
}

/// `num / den` rounded to the nearest whole number, a half away from zero.
pub open spec fn rounded(num: int, den: int) -> int {
    if num >= 0 {
        (2 * num + den) / (2 * den)
    } else {
        -((2 * (-num) + den) / (2 * den))
    }
}

/// `num / den` rounded, for a denominator above zero and numbers that
/// leave room for the rounding.
pub fn round_div(num: i128, den: i128) -> (q: i128)
    requires
        0 < den <= 0x1FFF_FFFF_FFFF_FFFF_FFFF_FFFF_FFFF_FFFF,
        -0x1FFF_FFFF_FFFF_FFFF_FFFF_FFFF_FFFF_FFFF <= num <= 0x1FFF_FFFF_FFFF_FFFF_FFFF_FFFF_FFFF_FFFF,
    ensures
        q == rounded(num as int, den as int),
        num >= 0 ==> 0 <= q <= 2 * num + den,
        num < 0 ==> -(2 * (-num) + den) <= q <= 0,
{
    if num >= 0 {
        let top = (2 * num + den) as u128;
        let bottom = (2 * den) as u128;
        proof {
            lemma_div_is_ordered(0, top as int, bottom as int);
            vstd::arithmetic::div_mod::lemma_div_nonincreasing(top as int, bottom as int);
        }
        (top / bottom) as i128
    } else {
        let top = (2 * (0 - num) + den) as u128;
        let bottom = (2 * den) as u128;
        proof {
            lemma_div_is_ordered(0, top as int, bottom as int);
            vstd::arithmetic::div_mod::lemma_div_nonincreasing(top as int, bottom as int);
        }
        0 - (top / bottom) as i128
    }
}

/// The key of a pitch: the nearest semitone, from 0 to 127.
pub open spec fn key_of(pitch: int) -> int {
    held(rounded(pitch, 1_000_000), 0, 127)
}

/// How far a pitch lies from its key, in millionths of a cent.
pub open spec fn bend_cents_of(pitch: int) -> int {
    (pitch - key_of(pitch) * 1_000_000) * 100
}

/// The pitch bend that takes the key of a pitch to the pitch, with a bend
/// range of `range` semitones.
pub open spec fn bend14_of(pitch: int, range: int) -> int {
    bend_unsigned(rounded((pitch - key_of(pitch) * 1_000_000) * 8192, range * 1_000_000))
}

/// The key of a pitch, its pitch bend, and its distance from the key in
/// millionths of a cent, held to 64 bits.
pub fn freq_to_key_and_bend(pitch: i64, bend_range: u16) -> (r: Result<(u8, u16, i64), ExportError>)
    ensures
        bend_range == 0 ==> r == Err::<(u8, u16, i64), ExportError>(ExportError::BendRangeZero),
        bend_range > 0 ==> r == Ok::<(u8, u16, i64), ExportError>(
            (
                key_of(pitch as int) as u8,
                bend14_of(pitch as int, bend_range as int) as u16,
                held(bend_cents_of(pitch as int), i64::MIN as int, i64::MAX as int) as i64,
            ),
        ),
{
    if bend_range == 0 {
        return Err(ExportError::BendRangeZero);
    }
    let nearest = round_div(pitch as i128, 1_000_000);
    let key: i128 = if nearest < 0 {
        0
    } else if nearest > 127 {
        127
    } else {
        nearest
    };
    let delta = pitch as i128 - key * 1_000_000;
    let cents = delta * 100;
    let bend = round_div(delta * 8192, bend_range as i128 * 1_000_000);
    let signed: i32 = if bend < -8192 {
        -8192
    } else if bend > 8191 {
        8191
    } else {
        bend as i32
    };
    let held_cents: i64 = if cents < -0x8000_0000_0000_0000 {
        -0x8000_0000_0000_0000
    } else if cents > 0x7FFF_FFFF_FFFF_FFFF {
        0x7FFF_FFFF_FFFF_FFFF
    } else {
        cents as i64
    };
    Ok((key as u8, signed_to_bend14(signed), held_cents))
}

/// The A of 440 Hz is key 69 with the pitch bend in the middle, whatever
/// the range of the pitch bend.
pub proof fn lemma_concert_pitch(range: int)
    requires
        range >= 1,
    ensures
        key_of(69_000_000) == 69,
        bend14_of(69_000_000, range) == 8192,
        bend_cents_of(69_000_000) == 0,
{
    vstd::arithmetic::div_mod::lemma_fundamental_div_mod_converse(
        139_000_000,
        2_000_000,
        69,
        1_000_000,
    );
    assert(rounded(69_000_000, 1_000_000) == 69);
    assert(2 * (range * 1_000_000) > range * 1_000_000 > 0) by (nonlinear_arith)
        requires
            range >= 1,
    ;
    vstd::arithmetic::div_mod::lemma_basic_div(range * 1_000_000, 2 * (range * 1_000_000));
}

/// The microseconds per quarter at `bpm` beats a minute, where a beat is
/// `beat` of a whole note: 60 000 000 over the number of quarters a minute,
/// rounded and held between 1 and 2^24 - 1.
pub open spec fn mpq_of(bpm: Decimal, beat: Rational32) -> int {
    held(
        rounded(
            60_000_000 * 1_000_000_000 * (crate::rational::abs(beat.1 as int) as int),
            bpm.0 * 4 * (crate::rational::abs(beat.0 as int) as int),
        ),
        1,
        16_777_215,
    )
}

pub fn bpm_beat_to_mpq(bpm: Decimal, beat_duration: Rational32) -> (r: Result<u32, ExportError>)
    ensures
        r == if crate::compiler::time::tempo_positive(beat_duration, bpm) {
            Ok::<u32, ExportError>(mpq_of(bpm, beat_duration) as u32)
        } else {
            Err(ExportError::TempoNotPositive)
        },
{
    if bpm.0 <= 0 || !((beat_duration.0 > 0 && beat_duration.1 > 0) || (beat_duration.0 < 0
        && beat_duration.1 < 0)) {
        return Err(ExportError::TempoNotPositive);
    }
    let bn = crate::rational::magnitude(beat_duration.0) as i128;
    let bd = crate::rational::magnitude(beat_duration.1) as i128;
    proof {
        assert(0 < bpm.0 * 4 * bn <= 0x7FFF_FFFF_FFFF_FFFF * 4 * 0x8000_0000) by (nonlinear_arith)
            requires
                0 < bpm.0 <= 0x7FFF_FFFF_FFFF_FFFF,
                0 < bn <= 0x8000_0000,
        ;
    }
    let num = 60_000_000_000_000_000 * bd;
    let den = bpm.0 as i128 * 4 * bn;
    let q = round_div(num, den);
    let mpq: u32 = if q < 1 {
        1
    } else if q > 16_777_215 {
        16_777_215
    } else {
        q as u32
    };
    Ok(mpq)
}

/// The ticks that `nanos` nanoseconds last at `mpq` microseconds per
/// quarter and `tpq` ticks per quarter, rounded; no ticks for no time or
/// less, and no more than 64 bits hold.
pub open spec fn ticks_of(nanos: int, mpq: int, tpq: int) -> int {
    if nanos <= 0 {
        0
    } else {
        held(rounded(nanos * tpq, mpq * 1000), 0, u64::MAX as int)
    }
}

pub fn seconds_to_ticks_with_mpq(nanos: i64, mpq: u32, tpq: u16) -> (t: u64)
    requires
        mpq > 0,
    ensures
        t == ticks_of(nanos as int, mpq as int, tpq as int),
{
    if nanos <= 0 {
        return 0;
    }
    proof {
        assert(0 <= nanos * tpq <= 0x7FFF_FFFF_FFFF_FFFF * 0xFFFF) by (nonlinear_arith)
            requires
                0 < nanos <= 0x7FFF_FFFF_FFFF_FFFF,
                0 <= tpq <= 0xFFFF,
        ;
    }
    let q = round_div(nanos as i128 * tpq as i128, mpq as i128 * 1000);
    if q > 0xFFFF_FFFF_FFFF_FFFF {
        0xFFFF_FFFF_FFFF_FFFF
    } else {
        q as u64
    }
}

/// More time lasts no fewer ticks.
pub proof fn lemma_ticks_monotone(a: int, b: int, mpq: int, tpq: int)
    requires
        a <= b,
        mpq > 0,
        tpq >= 0,
    ensures
        ticks_of(a, mpq, tpq) <= ticks_of(b, mpq, tpq),
{
    if a > 0 {
        assert(2 * (a * tpq) + mpq * 1000 <= 2 * (b * tpq) + mpq * 1000) by (nonlinear_arith)
            requires
                a <= b,
                tpq >= 0,
        ;
        assert(a * tpq >= 0 && b * tpq >= 0) by (nonlinear_arith)
            requires
                0 < a <= b,
                tpq >= 0,
        ;
        lemma_div_is_ordered(
            2 * (a * tpq) + mpq * 1000,
            2 * (b * tpq) + mpq * 1000,
            2 * (mpq * 1000),
        );
    } else if b > 0 {
        assert(b * tpq >= 0) by (nonlinear_arith)
            requires
                0 < b,
                tpq >= 0,
        ;
        lemma_div_is_ordered(0, 2 * (b * tpq) + mpq * 1000, 2 * (mpq * 1000));
    }
}

} // verus!
