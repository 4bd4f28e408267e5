//! Reading the text of a token: spelled pitches, numbers, ratios and the
//! numbers between brackets.

use super::types::{Decimal, Pitch};
use crate::rational::Rational32;
use crate::syntax::scan::{
    at, digits_capped, digits_value, is_digit, is_note_letter, lemma_run_end, run_end, ByteClass,
};
use vstd::prelude::*;
use vstd::string::StringSliceAdditionalSpecFns;

verus! {

/// Every byte from `from` to `to` is a digit, and there is at least one.
pub open spec fn are_digits(bytes: Seq<u8>, from: int, to: int) -> bool {
    0 <= from < to <= bytes.len() && forall|j: int|
        from <= j < to ==> is_digit(#[trigger] bytes[j] as int)
}

/// The whole number that the bytes from `from` to `to` spell: digits with
/// an optional `-` before them, of a magnitude up to 2^31. `None` where
/// the bytes are of another form or spell a larger number.
pub open spec fn number_in(bytes: Seq<u8>, from: int, to: int) -> Option<int> {
    let negative = from < to && at(bytes, from) == 0x2D;
    let s = if negative {
        from + 1
    } else {
        from
    };
    if are_digits(bytes, s, to) && digits_value(bytes, s, to) <= 0x8000_0000 {
        Some(
            if negative {
                -(digits_value(bytes, s, to) as int)
            } else {
                digits_value(bytes, s, to) as int
            },
        )
    } else {
        None
    }
}

/// Whether every byte from `from` to `to` is a digit, with at least one.
pub fn check_digits(bytes: &[u8], from: usize, to: usize) -> (ok: bool)
    requires
        from <= to <= bytes@.len(),
    ensures
        ok == are_digits(bytes@, from as int, to as int),
{
    if from == to {
        return false;
    }
    let mut i = from;
    while i < to
        invariant
            from <= i <= to <= bytes@.len(),
            forall|j: int| from <= j < i ==> is_digit(#[trigger] bytes@[j] as int),
        decreases to - i,
    {
        if !(0x30 <= bytes[i] && bytes[i] <= 0x39) {
            return false;
        }
        i += 1;
    }
    true
}

/// The whole number that the bytes from `from` to `to` spell.
pub fn read_number(bytes: &[u8], from: usize, to: usize) -> (n: Option<i64>)
    requires
        from <= to <= bytes@.len(),
    ensures
        n.is_some() == number_in(bytes@, from as int, to as int).is_some(),
        n matches Some(v) ==> number_in(bytes@, from as int, to as int) == Some(v as int),
{
    let negative = from < to && bytes[from] == 0x2D;
    let s = if negative {
        from + 1
    } else {
        from
    };
    if !check_digits(bytes, s, to) {
        return None;
    }
    let magnitude = digits_capped(bytes, s, to, 0x8000_0000);
    if magnitude > 0x8000_0000 {
        None
    } else if negative {
        Some(0 - magnitude as i64)
    } else {
        Some(magnitude as i64)
    }
}

/// The first place from `from` to `to` that holds `byte`, or `to`.
pub open spec fn first_of(bytes: Seq<u8>, byte: u8, from: int, to: int) -> int
    decreases to - from,
{
    if from >= to || at(bytes, from) == byte {
        from
    } else {
        first_of(bytes, byte, from + 1, to)
    }
}

pub fn find_byte(bytes: &[u8], byte: u8, from: usize, to: usize) -> (k: usize)
    requires
        from <= to <= bytes@.len(),
    ensures
        k == first_of(bytes@, byte, from as int, to as int),
        from <= k <= to,
        k < to ==> bytes@[k as int] == byte,
{
    let mut k = from;
    while k < to && bytes[k] != byte
        invariant
            from <= k <= to <= bytes@.len(),
            first_of(bytes@, byte, k as int, to as int) == first_of(
                bytes@,
                byte,
                from as int,
                to as int,
            ),
        decreases to - k,
    {
        k += 1;
    }
    k
}

/// The two whole numbers, each of 32 bits, that `bytes` spells with `sep`
/// between them.
pub open spec fn two_numbers(bytes: Seq<u8>, sep: u8) -> Option<(int, int)> {
    let k = first_of(bytes, sep, 0, bytes.len() as int);
    if k < bytes.len() {
        match (number_in(bytes, 0, k), number_in(bytes, k + 1, bytes.len() as int)) {
            (Some(a), Some(b)) => if a <= i32::MAX && b <= i32::MAX {
                Some((a, b))
            } else {
                None
            },
            _ => None,
        }
    } else {
        None
    }
}

fn read_two_numbers(bytes: &[u8], sep: u8) -> (r: Option<(i32, i32)>)
    ensures
        r.is_some() == two_numbers(bytes@, sep).is_some(),
        r matches Some(p) ==> two_numbers(bytes@, sep) == Some((p.0 as int, p.1 as int)),
{
    let n = bytes.len();
    let k = find_byte(bytes, sep, 0, n);
    if k >= n {
        return None;
    }
    let a = read_number(bytes, 0, k);
    let b = read_number(bytes, k + 1, n);
    match (a, b) {
        (Some(a), Some(b)) => {
            if a <= 0x7FFF_FFFF && b <= 0x7FFF_FFFF {
                Some((a as i32, b as i32))
            } else {
                None
            }
        },
        _ => None,
    }
}

/// The semitone of a note letter above C.
pub open spec fn letter_semitone(b: int) -> int {
    if b == 0x43 {
        0
    } else if b == 0x44 {
        2
    } else if b == 0x45 {
        4
    } else if b == 0x46 {
        5
    } else if b == 0x47 {
        7
    } else if b == 0x41 {
        9
    } else {
        11
    }
}

/// The semitone of the note letter `c` above C; `None` for another
/// character.
pub fn char_to_semitone(c: char) -> (s: Option<i16>)
    ensures
        s == if is_note_letter(c as int) {
            Some(letter_semitone(c as int) as i16)
        } else {
            None
        },
{
    match c {
        'C' => Some(0),
        'D' => Some(2),
        'E' => Some(4),
        'F' => Some(5),
        'G' => Some(7),
        'A' => Some(9),
        'B' => Some(11),
        _ => None,
    }
}

/// What the accidentals from `from` to `to` add: one for each `#`, minus
/// one for each `b`.
pub open spec fn accidentals(bytes: Seq<u8>, from: int, to: int) -> int
    decreases to - from,
{
    if to <= from {
        0
    } else {
        accidentals(bytes, from, to - 1) + if bytes[to - 1] == 0x23 {
            1int
        } else {
            -1int
        }
    }
}

/// The pitch class that a note letter with accidentals spells, where
/// `bytes` is such a spelling up to `end`.
pub open spec fn spelled_class(bytes: Seq<u8>, end: int) -> int {
    letter_semitone(at(bytes, 0)) + accidentals(bytes, 1, end)
}

/// The semitones from a base note up to what a spelling without octave
/// names under it: the octaves that the spelling `spell` itself counts, and
/// the pitch class of its distance from the base note, from 0 to 11.
pub open spec fn class_steps(spell: int, base_note: int) -> int {
    (spell / 12) * 12 + (spell - base_note) % 12
}

/// The semitones from a base note up to what a spelling without octave
/// names under it.
pub fn steps_from_base(spell: i16, base_note: i16) -> (steps: i32)
    ensures
        steps == class_steps(spell as int, base_note as int),
{
    // 32772 and 65544 are multiples of 12 that make the numbers positive.
    let octaves = (spell as i32 + 32772) / 12 - 2731;
    let class = (spell as i32 - base_note as i32 + 65544) % 12;
    octaves * 12 + class
}

/// The pitch class of a note, counted towards zero: from 0 to 11 for a
/// note from 0 on, and from -11 to 0 for a note below 0.
pub open spec fn class_towards_zero(note: int) -> int {
    if note >= 0 {
        note % 12
    } else {
        -((-note) % 12)
    }
}

/// The semitones from a base up to the spelling `spell` without octave,
/// where the base is one that the atom to the right in a chain has left:
/// the spelling is counted from the pitch class of the base note.
pub fn steps_from_local_base(spell: i16, base_note: i16) -> (steps: i32)
    ensures
        steps == spell - class_towards_zero(base_note as int),
{
    let class = if base_note >= 0 {
        base_note as i32 % 12
    } else {
        0 - ((0 - base_note as i32) % 12)
    };
    spell as i32 - class
}

/// The semitone number that `bytes` spells: a note letter, accidentals and
/// an octave number, where octave -1 starts at 0. `None` where `bytes` is
/// of another form or the number does not fit 16 bits.
pub open spec fn spelled_octave(bytes: Seq<u8>) -> Option<int> {
    let a = run_end(bytes, 1, ByteClass::Accidental);
    if !is_note_letter(at(bytes, 0)) {
        None
    } else {
        match number_in(bytes, a, bytes.len() as int) {
            Some(octave) => {
                let spell = spelled_class(bytes, a) + (octave + 1) * 12;
                if i16::MIN <= octave <= i16::MAX && i16::MIN <= spell <= i16::MAX {
                    Some(spell)
                } else {
                    None
                }
            },
            None => None,
        }
    }
}

/// The pitch class that `bytes` spells: a note letter and accidentals.
pub open spec fn spelled_simple(bytes: Seq<u8>) -> Option<int> {
    let a = run_end(bytes, 1, ByteClass::Accidental);
    if is_note_letter(at(bytes, 0)) && a == bytes.len() && i16::MIN <= spelled_class(bytes, a)
        <= i16::MAX {
        Some(spelled_class(bytes, a))
    } else {
        None
    }
}

/// The note letter and the accidentals at the start of `bytes`: where the
/// accidentals end, and the pitch class they spell with the letter.
fn read_class(bytes: &[u8]) -> (r: Option<(usize, i128)>)
    ensures
        r.is_some() == is_note_letter(at(bytes@, 0)),
        r matches Some(p) ==> p.0 == run_end(bytes@, 1, ByteClass::Accidental) && p.1
            == spelled_class(bytes@, p.0 as int) && 1 <= p.0 <= bytes@.len() && -(p.0 as int)
            <= p.1 <= 11 + p.0,
{
    if bytes.len() == 0 {
        return None;
    }
    let letter = bytes[0];
    if !(0x41 <= letter && letter <= 0x47) {
        return None;
    }
    let base: i128 = if letter == 0x43 {
        0
    } else if letter == 0x44 {
        2
    } else if letter == 0x45 {
        4
    } else if letter == 0x46 {
        5
    } else if letter == 0x47 {
        7
    } else if letter == 0x41 {
        9
    } else {
        11
    };
    let mut class = base;
    let mut i: usize = 1;
    while i < bytes.len() && (bytes[i] == 0x23 || bytes[i] == 0x62)
        invariant
            1 <= i <= bytes@.len(),
            run_end(bytes@, i as int, ByteClass::Accidental) == run_end(
                bytes@,
                1,
                ByteClass::Accidental,
            ),
            class == base + accidentals(bytes@, 1, i as int),
            0 <= base <= 11,
            -(i as int) <= class - base <= i,
        decreases bytes@.len() - i,
    {
        if bytes[i] == 0x23 {
            class += 1;
        } else {
            class -= 1;
        }
        i += 1;
    }
    Some((i, class))
}

/// The digits from `from` to `to`, at most nine, as a number of `places`
/// digits: zeros are added behind them.
pub open spec fn fraction_nanos_short(bytes: Seq<u8>, from: int, to: int, places: int) -> int
    decreases places,
{
    if places <= to - from || places <= 0 {
        digits_value(bytes, from, to) as int
    } else {
        10 * fraction_nanos_short(bytes, from, to, places - 1)
    }
}

/// The number with up to nine places that `bytes` spells, in billionths:
/// digits, an optional `-` before them, and an optional point with more
/// digits behind them. `None` where `bytes` is of another form or the whole
/// part is 10^9 or more.
pub open spec fn decimal_of(bytes: Seq<u8>) -> Option<int> {
    let n = bytes.len() as int;
    let negative = at(bytes, 0) == 0x2D;
    let s = if negative {
        1int
    } else {
        0int
    };
    let d = run_end(bytes, s, ByteClass::Digit);
    if d == s || digits_value(bytes, s, d) >= 1_000_000_000 {
        None
    } else if d == n {
        Some(signed(negative, digits_value(bytes, s, d) as int * 1_000_000_000))
    } else if at(bytes, d) == 0x2E && are_digits(bytes, d + 1, n) {
        Some(
            signed(
                negative,
                digits_value(bytes, s, d) as int * 1_000_000_000 + fraction_nanos_short(
                    bytes,
                    d + 1,
                    if n - (d + 1) > 9 {
                        d + 10
                    } else {
                        n
                    },
                    9,
                ),
            ),
        )
    } else {
        None
    }
}

pub open spec fn signed(negative: bool, magnitude: int) -> int {
    if negative {
        -magnitude
    } else {
        magnitude
    }
}

/// Whether `bytes` spells a number without a point.
pub open spec fn is_whole(bytes: Seq<u8>) -> bool {
    first_of(bytes, 0x2E, 0, bytes.len() as int) == bytes.len()
}

proof fn lemma_digits_bound(bytes: Seq<u8>, from: int, to: int)
    requires
        0 <= from <= to <= bytes.len(),
        forall|j: int| from <= j < to ==> is_digit(#[trigger] bytes[j] as int),
        to - from <= 9,
    ensures
        digits_value(bytes, from, to) < pow10(to - from),
    decreases to - from,
{
    if from < to {
        lemma_digits_bound(bytes, from, to - 1);
    }
}

pub open spec fn pow10(k: int) -> int
    decreases k,
{
    if k <= 0 {
        1
    } else {
        10 * pow10(k - 1)
    }
}

/// A number with up to nine places behind the point.
pub fn read_decimal(bytes: &[u8]) -> (r: Option<Decimal>)
    ensures
        r.is_some() == decimal_of(bytes@).is_some(),
        r matches Some(d) ==> decimal_of(bytes@) == Some(d.0 as int),
{
    let n = bytes.len();
    let negative = n > 0 && bytes[0] == 0x2D;
    let s: usize = if negative {
        1
    } else {
        0
    };
    proof {
        lemma_run_end(bytes@, s as int, ByteClass::Digit);
    }
    let mut d = s;
    while d < n && 0x30 <= bytes[d] && bytes[d] <= 0x39
        invariant
            s <= d <= n,
            n == bytes@.len(),
            run_end(bytes@, d as int, ByteClass::Digit) == run_end(
                bytes@,
                s as int,
                ByteClass::Digit,
            ),
            forall|j: int| s <= j < d ==> is_digit(#[trigger] bytes@[j] as int),
        decreases n - d,
    {
        d += 1;
    }
    if d == s {
        return None;
    }
    let whole = digits_capped(bytes, s, d, 999_999_999);
    if whole > 999_999_999 {
        return None;
    }
    let mut nanos: u64 = 0;
    if d < n {
        if bytes[d] != 0x2E || !check_digits(bytes, d + 1, n) {
            return None;
        }
        let end = if n - (d + 1) > 9 {
            d + 10
        } else {
            n
        };
        proof {
            lemma_digits_bound(bytes@, d + 1, end as int);
            reveal_with_fuel(pow10, 10);
        }
        nanos = digits_capped(bytes, d + 1, end, 999_999_999);
        let mut places = end - (d + 1);
        while places < 9
            invariant
                1 <= end - (d + 1) <= places <= 9,
                nanos == fraction_nanos_short(bytes@, d + 1, end as int, places as int),
                nanos < pow10(places as int),
            decreases 9 - places,
        {
            proof {
                reveal_with_fuel(pow10, 10);
            }
            nanos = nanos * 10;
            places += 1;
        }
        proof {
            reveal_with_fuel(pow10, 10);
        }
    }
    let magnitude = (whole * 1_000_000_000 + nanos) as i64;
    if negative {
        Some(Decimal(0 - magnitude))
    } else {
        Some(Decimal(magnitude))
    }
}

impl Pitch {
    /// The pitch that a spelling with octave names, such as `C#4`.
    pub fn parse_spell_octave(s: &str) -> (p: Option<Pitch>)
        ensures
            p == match spelled_octave(s.spec_bytes()) {
                Some(v) => Some(Pitch::SpellOctave(v as i16)),
                None => None,
            },
    {
        let bytes = s.as_bytes();
        let (a, class) = match read_class(bytes) {
            Some(r) => r,
            None => {
                return None;
            },
        };
        let octave = match read_number(bytes, a, bytes.len()) {
            Some(o) => o,
            None => {
                return None;
            },
        };
        if octave < -0x8000 || octave > 0x7FFF {
            return None;
        }
        let spell = class + (octave as i128 + 1) * 12;
        if spell < -0x8000 || spell > 0x7FFF {
            None
        } else {
            Some(Pitch::SpellOctave(spell as i16))
        }
    }

    /// The pitch class that a spelling without octave names, such as `Db`.
    pub fn parse_spell_simple(s: &str) -> (p: Option<Pitch>)
        ensures
            p == match spelled_simple(s.spec_bytes()) {
                Some(v) => Some(Pitch::SpellSimple(v as i16)),
                None => None,
            },
    {
        let bytes = s.as_bytes();
        match read_class(bytes) {
            Some((a, class)) => {
                if a == bytes.len() && -0x8000 <= class && class <= 0x7FFF {
                    Some(Pitch::SpellSimple(class as i16))
                } else {
                    None
                }
            },
            None => None,
        }
    }

    /// The frequency that a number names.
    pub fn parse_fequency(s: &str) -> (p: Option<Pitch>)
        ensures
            p == match decimal_of(s.spec_bytes()) {
                Some(v) => Some(Pitch::Frequency(Decimal(v as i64))),
                None => None,
            },
    {
        match read_decimal(s.as_bytes()) {
            Some(d) => Some(Pitch::Frequency(d)),
            None => None,
        }
    }

    /// The ratio that `n/d` names, the sign in the numerator. `None` where
    /// the text is of another form, a number does not fit, or `d` is 0.
    pub fn parse_ratio(s: &str) -> (p: Option<Pitch>)
        ensures
            p == match two_numbers(s.spec_bytes(), 0x2F) {
                Some((n, d)) => fraction_pitch(n, d, false),
                None => None,
            },
    {
        match read_two_numbers(s.as_bytes(), 0x2F) {
            Some((n, d)) => make_fraction(n, d, false),
            None => None,
        }
    }

    /// The step of an equal division that `step\divisions` names.
    pub fn parse_edo(s: &str) -> (p: Option<Pitch>)
        ensures
            p == match two_numbers(s.spec_bytes(), 0x5C) {
                Some((n, d)) => fraction_pitch(n, d, true),
                None => None,
            },
    {
        match read_two_numbers(s.as_bytes(), 0x5C) {
            Some((n, d)) => make_fraction(n, d, true),
            None => None,
        }
    }

    /// The offset that a number with a `c` behind it names.
    pub fn parse_cents(s: &str) -> (p: Option<Pitch>)
        ensures
            p == if s.spec_bytes().len() == 0 {
                None
            } else {
                match number_in(s.spec_bytes(), 0, s.spec_bytes().len() - 1) {
                    Some(v) => if v <= i32::MAX {
                        Some(Pitch::Cents(v as i32))
                    } else {
                        None
                    },
                    None => None,
                }
            },
    {
        let bytes = s.as_bytes();
        if bytes.len() == 0 {
            return None;
        }
        match read_number(bytes, 0, bytes.len() - 1) {
            Some(v) => {
                if v <= 0x7FFF_FFFF {
                    Some(Pitch::Cents(v as i32))
                } else {
                    None
                }
            },
            None => None,
        }
    }
}

/// The fraction `n / d` with the sign in the numerator, as a ratio or as a
/// step of an equal division; `None` where `d` is 0 or the sign cannot be
/// moved.
pub open spec fn fraction_pitch(n: int, d: int, edo: bool) -> Option<Pitch> {
    if d == 0 || (d < 0 && (n == i32::MIN || d == i32::MIN)) {
        None
    } else {
        let r = if d < 0 {
            Rational32((-n) as i32, (-d) as i32)
        } else {
            Rational32(n as i32, d as i32)
        };
        Some(
            if edo {
                Pitch::Edo(r)
            } else {
                Pitch::Ratio(r)
            },
        )
    }
}

fn make_fraction(n: i32, d: i32, edo: bool) -> (p: Option<Pitch>)
    ensures
        p == fraction_pitch(n as int, d as int, edo),
{
    if d == 0 || (d < 0 && (n == i32::MIN || d == i32::MIN)) {
        None
    } else {
        let r = Rational32::new(n, d);
        Some(
            if edo {
                Pitch::Edo(r)
            } else {
                Pitch::Ratio(r)
            },
        )
    }
}

} // verus!
