//! The scanner: from the bytes of a source to its tokens.
//!
//! At each offset every token form is tried, and the one that reaches
//! furthest wins; of several that reach equally far the one named first in
//! the list of forms wins. A form with numbers in it is then held to their
//! ranges, and where they do not fit the bytes make an `Error` token. Where no
//! form matches, the scalar value at the offset makes an `Error` token.

use super::lexer::SyntaxKind;
use super::types::{ParseError, TextRange, Token};
use vstd::string::{StringExecFns, StringSliceAdditionalSpecFns};
use vstd::prelude::*;
use vstd::utf8::*;

verus! {

/// The classes of bytes that the token forms repeat.
#[derive(Debug, Clone, Copy, PartialEq, Eq, Structural)]
pub enum ByteClass {
    /// `0` to `9`
    Digit,
    /// Space and tab.
    Blank,
    /// `#` and `b`
    Accidental,
    /// `+` and `-`
    OctaveShift,
    /// Letters, digits and `_`.
    IdentifierPart,
    /// Every byte but carriage return and line feed.
    InsideLine,
    /// `.`
    Dot,
    /// `,`
    Comma,
    /// The bytes `0x80` to `0xBF`, which continue a scalar value.
    Continuation,
}

pub open spec fn is_digit(b: int) -> bool {
    0x30 <= b <= 0x39
}

pub open spec fn is_letter(b: int) -> bool {
    0x41 <= b <= 0x5A || 0x61 <= b <= 0x7A
}

/// `A` to `G`.
pub open spec fn is_note_letter(b: int) -> bool {
    0x41 <= b <= 0x47
}

impl ByteClass {
    pub open spec fn holds(self, b: u8) -> bool {
        match self {
            ByteClass::Digit => is_digit(b as int),
            ByteClass::Blank => b == 0x20 || b == 0x09,
            ByteClass::Accidental => b == 0x23 || b == 0x62,
            ByteClass::OctaveShift => b == 0x2B || b == 0x2D,
            ByteClass::IdentifierPart => is_letter(b as int) || is_digit(b as int) || b == 0x5F,
            ByteClass::InsideLine => b != 0x0D && b != 0x0A,
            ByteClass::Dot => b == 0x2E,
            ByteClass::Comma => b == 0x2C,
            ByteClass::Continuation => is_continuation_byte(b),
        }
    }

    /// Every byte of the class is an ASCII byte.
    pub open spec fn ascii(self) -> bool {
        self != ByteClass::InsideLine && self != ByteClass::Continuation
    }

    pub fn test(self, b: u8) -> (r: bool)
        ensures
            r == self.holds(b),
    {
        match self {
            ByteClass::Digit => 0x30 <= b && b <= 0x39,
            ByteClass::Blank => b == 0x20 || b == 0x09,
            ByteClass::Accidental => b == 0x23 || b == 0x62,
            ByteClass::OctaveShift => b == 0x2B || b == 0x2D,
            ByteClass::IdentifierPart => (0x41 <= b && b <= 0x5A) || (0x61 <= b && b <= 0x7A) || (
            0x30 <= b && b <= 0x39) || b == 0x5F,
            ByteClass::InsideLine => b != 0x0D && b != 0x0A,
            ByteClass::Dot => b == 0x2E,
            ByteClass::Comma => b == 0x2C,
            ByteClass::Continuation => 0x80 <= b && b <= 0xBF,
        }
    }
}

/// The byte at offset `i`, or -1 outside the source.
pub open spec fn at(bytes: Seq<u8>, i: int) -> int {
    if 0 <= i < bytes.len() {
        bytes[i] as int
    } else {
        -1
    }
}

/// The end of the longest run of bytes of `class` that starts at `p`.
pub open spec fn run_end(bytes: Seq<u8>, p: int, class: ByteClass) -> int
    decreases bytes.len() - p,
{
    if 0 <= p < bytes.len() && class.holds(bytes[p]) {
        run_end(bytes, p + 1, class)
    } else {
        p
    }
}

/// What `run_end` is: every byte up to it is of the class, and the byte at
/// it, if there is one, is not.
pub proof fn lemma_run_end(bytes: Seq<u8>, p: int, class: ByteClass)
    requires
        0 <= p,
    ensures
        p <= run_end(bytes, p, class),
        p <= bytes.len() ==> run_end(bytes, p, class) <= bytes.len(),
        forall|j: int| p <= j < run_end(bytes, p, class) ==> class.holds(#[trigger] bytes[j]),
        run_end(bytes, p, class) < bytes.len() ==> !class.holds(
            bytes[run_end(bytes, p, class)],
        ),
    decreases bytes.len() - p,
{
    if p < bytes.len() && class.holds(bytes[p]) {
        lemma_run_end(bytes, p + 1, class);
    }
}

fn peek(bytes: &[u8], i: usize) -> (b: i32)
    ensures
        b == at(bytes@, i as int),
{
    if i < bytes.len() {
        bytes[i] as i32
    } else {
        -1
    }
}

fn scan_run(bytes: &[u8], p: usize, class: ByteClass) -> (q: usize)
    ensures
        q == run_end(bytes@, p as int, class),
        p <= q,
        p <= bytes@.len() ==> q <= bytes@.len(),
{
    let mut q = p;
    while q < bytes.len() && class.test(bytes[q])
        invariant
            p <= q,
            p <= bytes@.len() ==> q <= bytes@.len(),
            run_end(bytes@, q as int, class) == run_end(bytes@, p as int, class),
        decreases bytes@.len() - q,
    {
        q += 1;
    }
    q
}

/// An optional `-` at `p`: the offset behind it.
pub open spec fn after_sign(bytes: Seq<u8>, p: int) -> int {
    if at(bytes, p) == 0x2D {
        p + 1
    } else {
        p
    }
}

/// `-?\d+(\.\d+)?`: the end of the match at `p`, or `p` where there is none.
pub open spec fn frequency_end(bytes: Seq<u8>, p: int) -> int {
    let s = after_sign(bytes, p);
    let d = run_end(bytes, s, ByteClass::Digit);
    let f = run_end(bytes, d + 1, ByteClass::Digit);
    if d == s {
        p
    } else if at(bytes, d) == 0x2E && f > d + 1 {
        f
    } else {
        d
    }
}

/// `\d+/\d+`
pub open spec fn ratio_end(bytes: Seq<u8>, p: int) -> int {
    let d = run_end(bytes, p, ByteClass::Digit);
    let e = run_end(bytes, d + 1, ByteClass::Digit);
    if d > p && at(bytes, d) == 0x2F && e > d + 1 {
        e
    } else {
        p
    }
}

/// `-?\d+\\\d+`
pub open spec fn edo_end(bytes: Seq<u8>, p: int) -> int {
    let s = after_sign(bytes, p);
    let d = run_end(bytes, s, ByteClass::Digit);
    let e = run_end(bytes, d + 1, ByteClass::Digit);
    if d > s && at(bytes, d) == 0x5C && e > d + 1 {
        e
    } else {
        p
    }
}

/// `-?\d+c`
pub open spec fn cents_end(bytes: Seq<u8>, p: int) -> int {
    let s = after_sign(bytes, p);
    let d = run_end(bytes, s, ByteClass::Digit);
    if d > s && at(bytes, d) == 0x63 {
        d + 1
    } else {
        p
    }
}

/// `[A-G](#|b)*(-[1-9]|1?[0-9])`
pub open spec fn spell_octave_end(bytes: Seq<u8>, p: int) -> int {
    let a = run_end(bytes, p + 1, ByteClass::Accidental);
    if !is_note_letter(at(bytes, p)) {
        p
    } else if at(bytes, a) == 0x2D && 0x31 <= at(bytes, a + 1) <= 0x39 {
        a + 2
    } else if at(bytes, a) == 0x31 && is_digit(at(bytes, a + 1)) {
        a + 2
    } else if is_digit(at(bytes, a)) {
        a + 1
    } else {
        p
    }
}

/// `[A-G](#|b)*[+-]*`
pub open spec fn spell_simple_end(bytes: Seq<u8>, p: int) -> int {
    if is_note_letter(at(bytes, p)) {
        run_end(
            bytes,
            run_end(bytes, p + 1, ByteClass::Accidental),
            ByteClass::OctaveShift,
        )
    } else {
        p
    }
}

/// `\[,+\]`
pub open spec fn duration_commas_end(bytes: Seq<u8>, p: int) -> int {
    let c = run_end(bytes, p + 1, ByteClass::Comma);
    if at(bytes, p) == 0x5B && c > p + 1 && at(bytes, c) == 0x5D {
        c + 1
    } else {
        p
    }
}

/// One or two numbers between brackets, `:` between the two, and a `-`
/// before the first where `signed`: `\[-?\d+(:\d+)?\]` and `\{\d+(:\d+)?\}`.
pub open spec fn bracketed_end(bytes: Seq<u8>, p: int, open: u8, close: u8, signed: bool) -> int {
    let s = if signed {
        after_sign(bytes, p + 1)
    } else {
        p + 1
    };
    let d = run_end(bytes, s, ByteClass::Digit);
    let e = run_end(bytes, d + 1, ByteClass::Digit);
    if at(bytes, p) != open || d == s {
        p
    } else if at(bytes, d) == 0x3A && e > d + 1 && at(bytes, e) == close {
        e + 1
    } else if at(bytes, d) == close {
        d + 1
    } else {
        p
    }
}

/// `[A-Za-z_][A-Za-z0-9_]*`
pub open spec fn identifier_end(bytes: Seq<u8>, p: int) -> int {
    if is_letter(at(bytes, p)) || at(bytes, p) == 0x5F {
        run_end(bytes, p + 1, ByteClass::IdentifierPart)
    } else {
        p
    }
}

/// `\r?\n`
pub open spec fn newline_end(bytes: Seq<u8>, p: int) -> int {
    if at(bytes, p) == 0x0A {
        p + 1
    } else if at(bytes, p) == 0x0D && at(bytes, p + 1) == 0x0A {
        p + 2
    } else {
        p
    }
}

/// `//[^\r\n]*`
pub open spec fn comment_end(bytes: Seq<u8>, p: int) -> int {
    if at(bytes, p) == 0x2F && at(bytes, p + 1) == 0x2F {
        run_end(bytes, p + 2, ByteClass::InsideLine)
    } else {
        p
    }
}

/// The one byte that makes a token of `kind`, or -2 for a kind of more.
pub open spec fn single_byte(kind: SyntaxKind) -> int {
    match kind {
        SyntaxKind::Comma => 0x2C,
        SyntaxKind::Colon => 0x3A,
        SyntaxKind::Semicolon => 0x3B,
        SyntaxKind::At => 0x40,
        SyntaxKind::Equals => 0x3D,
        SyntaxKind::LAngle => 0x3C,
        SyntaxKind::RAngle => 0x3E,
        SyntaxKind::LParen => 0x28,
        SyntaxKind::RParen => 0x29,
        SyntaxKind::Plus => 0x2B,
        SyntaxKind::PitchSustain => 0x2D,
        _ => -2,
    }
}

/// Where the form of `kind` ends when it is matched at `p`; `p` itself where
/// it does not match. `Error` and the kinds of nodes have no form.
pub open spec fn form_end(kind: SyntaxKind, bytes: Seq<u8>, p: int) -> int {
    match kind {
        SyntaxKind::Whitespace => run_end(bytes, p, ByteClass::Blank),
        SyntaxKind::Newline => newline_end(bytes, p),
        SyntaxKind::Comment => comment_end(bytes, p),
        SyntaxKind::PitchSpellOctave => spell_octave_end(bytes, p),
        SyntaxKind::PitchSpellSimple => spell_simple_end(bytes, p),
        SyntaxKind::PitchFrequency => frequency_end(bytes, p),
        SyntaxKind::PitchRatio => ratio_end(bytes, p),
        SyntaxKind::PitchEdo => edo_end(bytes, p),
        SyntaxKind::PitchCents => cents_end(bytes, p),
        SyntaxKind::PitchRest => run_end(bytes, p, ByteClass::Dot),
        SyntaxKind::Identifier => identifier_end(bytes, p),
        SyntaxKind::DurationCommas => duration_commas_end(bytes, p),
        SyntaxKind::DurationFraction => bracketed_end(bytes, p, 0x5B, 0x5D, true),
        SyntaxKind::Quantize => bracketed_end(bytes, p, 0x7B, 0x7D, false),
        _ => if single_byte(kind) >= 0 && at(bytes, p) == single_byte(kind) {
            p + 1
        } else {
            p
        },
    }
}

/// The token forms, the one that wins a tie first: an octave spelling
/// before a plain spelling, and both before an identifier.
pub open spec fn forms() -> Seq<SyntaxKind> {
    seq![
        SyntaxKind::Whitespace,
        SyntaxKind::Newline,
        SyntaxKind::Comment,
        SyntaxKind::Comma,
        SyntaxKind::Colon,
        SyntaxKind::Semicolon,
        SyntaxKind::At,
        SyntaxKind::Equals,
        SyntaxKind::LAngle,
        SyntaxKind::RAngle,
        SyntaxKind::LParen,
        SyntaxKind::RParen,
        SyntaxKind::Plus,
        SyntaxKind::PitchSpellOctave,
        SyntaxKind::PitchSpellSimple,
        SyntaxKind::PitchFrequency,
        SyntaxKind::PitchRatio,
        SyntaxKind::PitchEdo,
        SyntaxKind::PitchCents,
        SyntaxKind::PitchRest,
        SyntaxKind::PitchSustain,
        SyntaxKind::DurationCommas,
        SyntaxKind::DurationFraction,
        SyntaxKind::Quantize,
        SyntaxKind::Identifier,
    ]
}

/// The winner among the first `n` forms at `p`, with the end of its match:
/// the first of those that reach furthest. Where none of them matches the
/// end is `p`.
pub open spec fn longest(bytes: Seq<u8>, p: int, n: int) -> (SyntaxKind, int)
    decreases n,
{
    if n <= 0 {
        (SyntaxKind::Error, p)
    } else {
        let before = longest(bytes, p, n - 1);
        let end = form_end(forms()[n - 1], bytes, p);
        if end > before.1 {
            (forms()[n - 1], end)
        } else {
            before
        }
    }
}

/// The number that the digits from `from` to `to` spell.
pub open spec fn digits_value(bytes: Seq<u8>, from: int, to: int) -> nat
    decreases to - from,
{
    if to <= from {
        0
    } else {
        (digits_value(bytes, from, to - 1) * 10 + (bytes[to - 1] - 0x30)) as nat
    }
}

/// The digits from `from` to `to` spell a number from 1 to 65535.
pub open spec fn positive_u16(bytes: Seq<u8>, from: int, to: int) -> bool {
    1 <= digits_value(bytes, from, to) <= 0xFFFF
}

/// The numbers in a match of `kind` from `p` to `end` are in range: a
/// frequency is below 10^8 in magnitude, the parts of a ratio, of a
/// bracketed duration and of a quantize are positive and fit 16 bits, the
/// step of an equal division fits 16 bits with its sign and its divisions
/// are positive and fit 16 bits, and cents fit 32 bits with their sign.
pub open spec fn numbers_fit(kind: SyntaxKind, bytes: Seq<u8>, p: int, end: int) -> bool {
    match kind {
        SyntaxKind::PitchFrequency => {
            let s = after_sign(bytes, p);
            digits_value(bytes, s, run_end(bytes, s, ByteClass::Digit)) < 100_000_000
        },
        SyntaxKind::PitchRatio => {
            let d = run_end(bytes, p, ByteClass::Digit);
            positive_u16(bytes, p, d) && positive_u16(bytes, d + 1, end)
        },
        SyntaxKind::PitchEdo => {
            let s = after_sign(bytes, p);
            let d = run_end(bytes, s, ByteClass::Digit);
            digits_value(bytes, s, d) <= (if s > p {
                0x8000int
            } else {
                0x7FFFint
            }) && positive_u16(bytes, d + 1, end)
        },
        SyntaxKind::PitchCents => {
            let s = after_sign(bytes, p);
            digits_value(bytes, s, end - 1) <= (if s > p {
                0x8000_0000int
            } else {
                0x7FFF_FFFFint
            })
        },
        SyntaxKind::DurationFraction => {
            let s = after_sign(bytes, p + 1);
            let d = run_end(bytes, s, ByteClass::Digit);
            positive_u16(bytes, s, d) && (d + 1 < end ==> positive_u16(bytes, d + 1, end - 1))
        },
        SyntaxKind::Quantize => {
            let d = run_end(bytes, p + 1, ByteClass::Digit);
            positive_u16(bytes, p + 1, d) && (d + 1 < end ==> positive_u16(bytes, d + 1, end - 1))
        },
        _ => true,
    }
}

/// The token that starts at `p`: its kind and its end.
#[verifier::opaque]
pub open spec fn token_at(bytes: Seq<u8>, p: int) -> (SyntaxKind, int) {
    let best = longest(bytes, p, forms().len() as int);
    if best.1 <= p {
        (SyntaxKind::Error, run_end(bytes, p + 1, ByteClass::Continuation))
    } else if !numbers_fit(best.0, bytes, p, best.1) {
        (SyntaxKind::Error, best.1)
    } else {
        best
    }
}

/// The tokens of `bytes` from offset `p` to the end.
pub open spec fn tokens_from(bytes: Seq<u8>, p: int) -> Seq<Token>
    decreases bytes.len() - p,
{
    let t = token_at(bytes, p);
    if 0 <= p < t.1 <= bytes.len() {
        seq![Token { kind: t.0, range: TextRange { start: p as u32, end: t.1 as u32 } }]
            + tokens_from(bytes, t.1)
    } else {
        Seq::empty()
    }
}

/// The match from `p` to `end` ends where a scalar value ends, whatever
/// stands before `p`: at the end of the source, before a byte that starts a
/// scalar value, or after ASCII bytes only.
pub open spec fn clean_end(bytes: Seq<u8>, p: int, end: int) -> bool {
    ||| end == bytes.len()
    ||| (0 <= end < bytes.len() && !is_continuation_byte(bytes[end]))
    ||| forall|j: int| p <= j < end ==> (#[trigger] bytes[j]) < 0x80
}

fn peek_next(bytes: &[u8], i: usize) -> (b: i32)
    ensures
        b == at(bytes@, i + 1),
{
    if i < bytes.len() {
        peek(bytes, i + 1)
    } else {
        -1
    }
}

fn skip_sign(bytes: &[u8], p: usize) -> (s: usize)
    requires
        p <= bytes@.len() < usize::MAX,
    ensures
        s == after_sign(bytes@, p as int),
        p <= s <= bytes@.len(),
        forall|j: int| p <= j < s ==> (#[trigger] bytes@[j]) < 0x80,
{
    if peek(bytes, p) == 0x2D {
        p + 1
    } else {
        p
    }
}

/// A run of an ASCII class, with what the proofs below need of it.
fn scan_ascii_run(bytes: &[u8], p: usize, class: ByteClass) -> (q: usize)
    requires
        bytes@.len() < usize::MAX,
        p <= bytes@.len() + 1,
        class.ascii(),
    ensures
        q == run_end(bytes@, p as int, class),
        p <= q,
        p <= bytes@.len() ==> q <= bytes@.len(),
        forall|j: int| p <= j < q ==> class.holds(#[trigger] bytes@[j]) && bytes@[j] < 0x80,
        q < bytes@.len() ==> !class.holds(bytes@[q as int]),
{
    proof {
        lemma_run_end(bytes@, p as int, class);
    }
    scan_run(bytes, p, class)
}

fn bracketed_end_exec(bytes: &[u8], p: usize, open: u8, close: u8, signed: bool) -> (e: usize)
    requires
        p < bytes@.len() < usize::MAX,
        open < 0x80,
        close < 0x80,
    ensures
        e == bracketed_end(bytes@, p as int, open, close, signed),
        p <= e <= bytes@.len(),
        forall|j: int| p <= j < e ==> (#[trigger] bytes@[j]) < 0x80,
{
    let s = if signed {
        skip_sign(bytes, p + 1)
    } else {
        p + 1
    };
    let d = scan_ascii_run(bytes, s, ByteClass::Digit);
    let e = scan_ascii_run(bytes, d + 1, ByteClass::Digit);
    if bytes[p] != open || d == s {
        p
    } else if peek(bytes, d) == 0x3A && e > d + 1 && peek(bytes, e) == close as i32 {
        e + 1
    } else if peek(bytes, d) == close as i32 {
        d + 1
    } else {
        p
    }
}

/// Where the form of `kind` ends when it is matched at `p`.
pub fn scan_form(kind: SyntaxKind, bytes: &[u8], p: usize) -> (e: usize)
    requires
        p < bytes@.len() < usize::MAX,
    ensures
        e == form_end(kind, bytes@, p as int),
        p <= e <= bytes@.len(),
        clean_end(bytes@, p as int, e as int),
{
    let b = bytes[p];
    match kind {
        SyntaxKind::Whitespace => scan_ascii_run(bytes, p, ByteClass::Blank),
        SyntaxKind::Newline => {
            if b == 0x0A {
                p + 1
            } else if b == 0x0D && peek_next(bytes, p) == 0x0A {
                p + 2
            } else {
                p
            }
        },
        SyntaxKind::Comment => {
            if b == 0x2F && peek_next(bytes, p) == 0x2F {
                proof {
                    lemma_run_end(bytes@, p + 2, ByteClass::InsideLine);
                }
                scan_run(bytes, p + 2, ByteClass::InsideLine)
            } else {
                p
            }
        },
        SyntaxKind::PitchSpellOctave => {
            let a = scan_ascii_run(bytes, p + 1, ByteClass::Accidental);
            let x = peek(bytes, a);
            let y = peek_next(bytes, a);
            if !(0x41 <= b && b <= 0x47) {
                p
            } else if x == 0x2D && 0x31 <= y && y <= 0x39 {
                a + 2
            } else if x == 0x31 && 0x30 <= y && y <= 0x39 {
                a + 2
            } else if 0x30 <= x && x <= 0x39 {
                a + 1
            } else {
                p
            }
        },
        SyntaxKind::PitchSpellSimple => {
            if 0x41 <= b && b <= 0x47 {
                let a = scan_ascii_run(bytes, p + 1, ByteClass::Accidental);
                scan_ascii_run(bytes, a, ByteClass::OctaveShift)
            } else {
                p
            }
        },
        SyntaxKind::PitchFrequency => {
            let s = skip_sign(bytes, p);
            let d = scan_ascii_run(bytes, s, ByteClass::Digit);
            let f = scan_ascii_run(bytes, d + 1, ByteClass::Digit);
            if d == s {
                p
            } else if peek(bytes, d) == 0x2E && f > d + 1 {
                f
            } else {
                d
            }
        },
        SyntaxKind::PitchRatio => {
            let d = scan_ascii_run(bytes, p, ByteClass::Digit);
            let e = scan_ascii_run(bytes, d + 1, ByteClass::Digit);
            if d > p && peek(bytes, d) == 0x2F && e > d + 1 {
                e
            } else {
                p
            }
        },
        SyntaxKind::PitchEdo => {
            let s = skip_sign(bytes, p);
            let d = scan_ascii_run(bytes, s, ByteClass::Digit);
            let e = scan_ascii_run(bytes, d + 1, ByteClass::Digit);
            if d > s && peek(bytes, d) == 0x5C && e > d + 1 {
                e
            } else {
                p
            }
        },
        SyntaxKind::PitchCents => {
            let s = skip_sign(bytes, p);
            let d = scan_ascii_run(bytes, s, ByteClass::Digit);
            if d > s && peek(bytes, d) == 0x63 {
                d + 1
            } else {
                p
            }
        },
        SyntaxKind::PitchRest => scan_ascii_run(bytes, p, ByteClass::Dot),
        SyntaxKind::Identifier => {
            if (0x41 <= b && b <= 0x5A) || (0x61 <= b && b <= 0x7A) || b == 0x5F {
                scan_ascii_run(bytes, p + 1, ByteClass::IdentifierPart)
            } else {
                p
            }
        },
        SyntaxKind::DurationCommas => {
            let c = scan_ascii_run(bytes, p + 1, ByteClass::Comma);
            if b == 0x5B && c > p + 1 && peek(bytes, c) == 0x5D {
                c + 1
            } else {
                p
            }
        },
        SyntaxKind::DurationFraction => bracketed_end_exec(bytes, p, 0x5B, 0x5D, true),
        SyntaxKind::Quantize => bracketed_end_exec(bytes, p, 0x7B, 0x7D, false),
        _ => {
            let want: i32 = match kind {
                SyntaxKind::Comma => 0x2C,
                SyntaxKind::Colon => 0x3A,
                SyntaxKind::Semicolon => 0x3B,
                SyntaxKind::At => 0x40,
                SyntaxKind::Equals => 0x3D,
                SyntaxKind::LAngle => 0x3C,
                SyntaxKind::RAngle => 0x3E,
                SyntaxKind::LParen => 0x28,
                SyntaxKind::RParen => 0x29,
                SyntaxKind::Plus => 0x2B,
                SyntaxKind::PitchSustain => 0x2D,
                _ => -2,
            };
            if want >= 0 && b as i32 == want {
                p + 1
            } else {
                p
            }
        },
    }
}

/// The token forms in the order of `forms`.
pub fn form_list() -> (v: Vec<SyntaxKind>)
    ensures
        v@ == forms(),
{
    let v = vec![
        SyntaxKind::Whitespace,
        SyntaxKind::Newline,
        SyntaxKind::Comment,
        SyntaxKind::Comma,
        SyntaxKind::Colon,
        SyntaxKind::Semicolon,
        SyntaxKind::At,
        SyntaxKind::Equals,
        SyntaxKind::LAngle,
        SyntaxKind::RAngle,
        SyntaxKind::LParen,
        SyntaxKind::RParen,
        SyntaxKind::Plus,
        SyntaxKind::PitchSpellOctave,
        SyntaxKind::PitchSpellSimple,
        SyntaxKind::PitchFrequency,
        SyntaxKind::PitchRatio,
        SyntaxKind::PitchEdo,
        SyntaxKind::PitchCents,
        SyntaxKind::PitchRest,
        SyntaxKind::PitchSustain,
        SyntaxKind::DurationCommas,
        SyntaxKind::DurationFraction,
        SyntaxKind::Quantize,
        SyntaxKind::Identifier,
    ];
    assert(v@ =~= forms());
    v
}

/// The number that the digits from `from` to `to` spell, as far as it is
/// at most `cap`; `cap + 1` stands for every larger number.
pub fn digits_capped(bytes: &[u8], from: usize, to: usize, cap: u64) -> (v: u64)
    requires
        from <= to <= bytes@.len(),
        forall|j: int| from <= j < to ==> is_digit(#[trigger] bytes@[j] as int),
        cap <= 0xFFFF_FFFF,
    ensures
        v == if digits_value(bytes@, from as int, to as int) <= cap {
            digits_value(bytes@, from as int, to as int)
        } else {
            (cap + 1) as nat
        },
{
    let mut v: u64 = 0;
    let mut i = from;
    while i < to
        invariant
            from <= i <= to <= bytes@.len(),
            forall|j: int| from <= j < to ==> is_digit(#[trigger] bytes@[j] as int),
            cap <= 0xFFFF_FFFF,
            v == if digits_value(bytes@, from as int, i as int) <= cap {
                digits_value(bytes@, from as int, i as int)
            } else {
                (cap + 1) as nat
            },
        decreases to - i,
    {
        let digit = (bytes[i] - 0x30) as u64;
        let next = v * 10 + digit;
        v = if next > cap {
            cap + 1
        } else {
            next
        };
        i += 1;
    }
    v
}

/// Whether the numbers in the match of `kind` from `p` to `end` are in
/// range.
pub fn check_numbers(kind: SyntaxKind, bytes: &[u8], p: usize, end: usize) -> (ok: bool)
    requires
        p < end <= bytes@.len() < usize::MAX,
        end == form_end(kind, bytes@, p as int),
    ensures
        ok == numbers_fit(kind, bytes@, p as int, end as int),
{
    match kind {
        SyntaxKind::PitchFrequency => {
            let s = skip_sign(bytes, p);
            let d = scan_ascii_run(bytes, s, ByteClass::Digit);
            digits_capped(bytes, s, d, 99_999_999) <= 99_999_999
        },
        SyntaxKind::PitchRatio => {
            let d = scan_ascii_run(bytes, p, ByteClass::Digit);
            proof {
                lemma_run_end(bytes@, d + 1, ByteClass::Digit);
            }
            let a = digits_capped(bytes, p, d, 0xFFFF);
            let b = digits_capped(bytes, d + 1, end, 0xFFFF);
            1 <= a && a <= 0xFFFF && 1 <= b && b <= 0xFFFF
        },
        SyntaxKind::PitchEdo => {
            let s = skip_sign(bytes, p);
            let d = scan_ascii_run(bytes, s, ByteClass::Digit);
            proof {
                lemma_run_end(bytes@, d + 1, ByteClass::Digit);
            }
            let a = digits_capped(bytes, s, d, 0x8000);
            let b = digits_capped(bytes, d + 1, end, 0xFFFF);
            let limit: u64 = if s > p {
                0x8000
            } else {
                0x7FFF
            };
            a <= limit && 1 <= b && b <= 0xFFFF
        },
        SyntaxKind::PitchCents => {
            let s = skip_sign(bytes, p);
            let d = scan_ascii_run(bytes, s, ByteClass::Digit);
            let a = digits_capped(bytes, s, end - 1, 0x8000_0000);
            let limit: u64 = if s > p {
                0x8000_0000
            } else {
                0x7FFF_FFFF
            };
            a <= limit
        },
        SyntaxKind::DurationFraction => {
            let s = skip_sign(bytes, p + 1);
            proof {
                lemma_run_end(bytes@, s as int, ByteClass::Digit);
            }
            check_bracketed(bytes, s, end)
        },
        SyntaxKind::Quantize => {
            proof {
                lemma_run_end(bytes@, p + 1, ByteClass::Digit);
            }
            check_bracketed(bytes, p + 1, end)
        },
        _ => true,
    }
}

/// Whether the one or two numbers of a bracketed form, the first of which
/// starts at `s`, are positive and fit 16 bits.
fn check_bracketed(bytes: &[u8], s: usize, end: usize) -> (ok: bool)
    requires
        s < end <= bytes@.len() < usize::MAX,
        ({
            let d = run_end(bytes@, s as int, ByteClass::Digit);
            let e = run_end(bytes@, d + 1, ByteClass::Digit);
            d > s && (end == d + 1 || (end == e + 1 && e > d + 1))
        }),
    ensures
        ok == ({
            let d = run_end(bytes@, s as int, ByteClass::Digit);
            positive_u16(bytes@, s as int, d) && (d + 1 < end ==> positive_u16(
                bytes@,
                d + 1,
                end - 1,
            ))
        }),
{
    let d = scan_ascii_run(bytes, s, ByteClass::Digit);
    proof {
        lemma_run_end(bytes@, d + 1, ByteClass::Digit);
    }
    let a = digits_capped(bytes, s, d, 0xFFFF);
    if !(1 <= a && a <= 0xFFFF) {
        false
    } else if d + 1 < end {
        let b = digits_capped(bytes, d + 1, end - 1, 0xFFFF);
        1 <= b && b <= 0xFFFF
    } else {
        true
    }
}

/// The token that starts at `p`: its kind and its end.
pub fn scan_token(bytes: &[u8], p: usize) -> (t: (SyntaxKind, usize))
    requires
        p < bytes@.len() < usize::MAX,
    ensures
        t.0 == token_at(bytes@, p as int).0,
        t.1 == token_at(bytes@, p as int).1,
        p < t.1 <= bytes@.len(),
        clean_end(bytes@, p as int, t.1 as int),
{
    reveal(token_at);
    let list = form_list();
    let mut kind = SyntaxKind::Error;
    let mut end = p;
    let mut i: usize = 0;
    while i < list.len()
        invariant
            p < bytes@.len() < usize::MAX,
            list@ == forms(),
            0 <= i <= list@.len(),
            kind == longest(bytes@, p as int, i as int).0,
            end == longest(bytes@, p as int, i as int).1,
            p <= end <= bytes@.len(),
            end > p ==> clean_end(bytes@, p as int, end as int),
            end > p ==> end == form_end(kind, bytes@, p as int),
        decreases list@.len() - i,
    {
        let e = scan_form(list[i], bytes, p);
        if e > end {
            kind = list[i];
            end = e;
        }
        i += 1;
    }
    if end <= p {
        proof {
            lemma_run_end(bytes@, p + 1, ByteClass::Continuation);
        }
        (SyntaxKind::Error, scan_run(bytes, p + 1, ByteClass::Continuation))
    } else if !check_numbers(kind, bytes, p, end) {
        (SyntaxKind::Error, end)
    } else {
        (kind, end)
    }
}

/// In a text, the offset behind an ASCII byte that starts a scalar value is
/// a boundary between scalar values.
pub proof fn lemma_boundary_after_ascii(bytes: Seq<u8>, i: int)
    requires
        valid_utf8(bytes),
        0 <= i < bytes.len(),
        is_char_boundary(bytes, i),
        bytes[i] < 0x80,
    ensures
        is_char_boundary(bytes, i + 1),
    decreases bytes.len(),
{
    reveal_with_fuel(is_char_boundary, 2);
    reveal_with_fuel(valid_utf8, 2);
    let first = length_of_first_scalar(bytes);
    let rest = pop_first_scalar(bytes);
    if i == 0 {
        assert(is_char_boundary(rest, 0));
    } else {
        assert(is_char_boundary(rest, i - first));
        assert(rest[i - first] == bytes[i]);
        lemma_boundary_after_ascii(rest, i - first);
    }
}

/// A match that starts at a boundary between scalar values and has a clean
/// end ends at such a boundary.
pub proof fn lemma_clean_end_boundary(bytes: Seq<u8>, p: int, end: int)
    requires
        valid_utf8(bytes),
        0 <= p <= end <= bytes.len(),
        is_char_boundary(bytes, p),
        clean_end(bytes, p, end),
    ensures
        is_char_boundary(bytes, end),
    decreases end - p,
{
    if end == bytes.len() {
        is_char_boundary_start_end_of_seq(bytes);
    } else if !is_continuation_byte(bytes[end]) {
        is_char_boundary_iff_not_is_continuation_byte(bytes, end);
    } else if p < end {
        assert(bytes[p] < 0x80);
        lemma_boundary_after_ascii(bytes, p);
        lemma_clean_end_boundary(bytes, p + 1, end);
    }
}

/// The part of `source` from `start` to `end`.
pub fn slice_text<'a>(source: &'a str, start: usize, end: usize) -> (text: &'a str)
    requires
        start <= end <= source.spec_bytes().len(),
        is_char_boundary(source.spec_bytes(), start as int),
        is_char_boundary(source.spec_bytes(), end as int),
    ensures
        text.spec_bytes() == source.spec_bytes().subrange(start as int, end as int),
{
    let ghost bytes = source.spec_bytes();
    proof {
        encode_utf8_valid_utf8(source@);
    }
    let (_, tail) = source.split_at(start);
    proof {
        let rest = tail.spec_bytes();
        valid_utf8_split(bytes, start as int);
        if end == bytes.len() {
            is_char_boundary_start_end_of_seq(rest);
        } else {
            is_char_boundary_iff_not_is_continuation_byte(bytes, end as int);
            assert(rest[end - start] == bytes[end as int]);
            is_char_boundary_iff_not_is_continuation_byte(rest, end - start);
        }
    }
    let (text, _) = tail.split_at(end - start);
    assert(text.spec_bytes() =~= bytes.subrange(start as int, end as int));
    text
}

/// The form in which `text` is shown between double quotes, with what
/// cannot be printed escaped.
pub uninterp spec fn debug_form(text: Seq<char>) -> Seq<char>;

/// `text` between double quotes, as the formatter of std shows a string
/// with `{:?}`. Of the result nothing is known but that it depends on the
/// characters of `text` alone.
#[verifier::external_body]
fn debug_text(text: &str) -> (shown: String)
    ensures
        shown@ == debug_form(text@),
{
    format!("{:?}", text)
}

/// The message for bytes that make no token.
pub open spec fn unrecognized(text: Seq<char>) -> Seq<char> {
    "Unrecognized token: "@ + debug_form(text)
}

/// The error for each `Error` token of `tokens`, in their order: the
/// message names the token's text, the range is the token's.
pub open spec fn errors_of(bytes: Seq<u8>, tokens: Seq<Token>) -> Seq<(Seq<char>, TextRange)>
    decreases tokens.len(),
{
    if tokens.len() == 0 {
        Seq::empty()
    } else {
        let before = errors_of(bytes, tokens.drop_last());
        let t = tokens.last();
        if t.kind == SyntaxKind::Error {
            before.push(
                (
                    unrecognized(
                        decode_utf8(bytes.subrange(t.range.start as int, t.range.end as int)),
                    ),
                    t.range,
                ),
            )
        } else {
            before
        }
    }
}

/// The tokens lie end to end from `from` to `to`, and none is empty.
pub open spec fn tiles(tokens: Seq<Token>, from: int, to: int) -> bool {
    &&& from <= to
    &&& tokens.len() == 0 ==> from == to
    &&& tokens.len() > 0 ==> tokens[0].range.start == from && tokens.last().range.end == to
    &&& forall|i: int| 0 <= i < tokens.len() ==> (#[trigger] tokens[i]).range.start < tokens[i].range.end
    &&& forall|i: int, j: int|
        0 <= i && j == i + 1 && j < tokens.len() ==> (#[trigger] tokens[i]).range.end
            == (#[trigger] tokens[j]).range.start
}

/// Every token starts and ends between two scalar values of the text.
pub open spec fn on_boundaries(bytes: Seq<u8>, tokens: Seq<Token>) -> bool {
    forall|i: int|
        0 <= i < tokens.len() ==> is_char_boundary(bytes, (#[trigger] tokens[i]).range.start as int)
            && is_char_boundary(bytes, tokens[i].range.end as int)
}

/// The views of `errors`, in their order.
pub open spec fn error_views(errors: Seq<ParseError>) -> Seq<(Seq<char>, TextRange)> {
    errors.map_values(|e: ParseError| e@)
}

/// The error for the bytes of `source` in `range`, which make no token.
fn unrecognized_error(source: &str, range: TextRange) -> (e: ParseError)
    requires
        range.start <= range.end <= source.spec_bytes().len(),
        is_char_boundary(source.spec_bytes(), range.start as int),
        is_char_boundary(source.spec_bytes(), range.end as int),
    ensures
        e@ == (
            unrecognized(
                decode_utf8(source.spec_bytes().subrange(range.start as int, range.end as int)),
            ),
            range,
        ),
{
    let text = slice_text(source, range.start as usize, range.end as usize);
    let shown = debug_text(text);
    proof {
        encode_utf8_decode_utf8(text@);
    }
    ParseError::new(unrecognized_message(shown.as_str()), range)
}

/// The message for bytes that make no token and are shown as `shown`.
pub fn unrecognized_message(shown: &str) -> (message: String)
    ensures
        message@ == "Unrecognized token: "@ + shown@,
{
    let mut message = String::from_str("Unrecognized token: ");
    message.append(shown);
    message
}

proof fn lemma_push_token(bytes: Seq<u8>, before: Seq<Token>, token: Token, p: int, end: int)
    requires
        tiles(before, 0, p),
        on_boundaries(bytes, before),
        is_char_boundary(bytes, p),
        is_char_boundary(bytes, end),
        0 <= p < end,
        token.range.start == p,
        token.range.end == end,
        tokens_from(bytes, p) == seq![token] + tokens_from(bytes, end),
    ensures
        tiles(before.push(token), 0, end),
        on_boundaries(bytes, before.push(token)),
        before + tokens_from(bytes, p) == before.push(token) + tokens_from(bytes, end),
        before.push(token).drop_last() == before,
{
    let after = before.push(token);
    assert(after.drop_last() =~= before);
    assert(before + (seq![token] + tokens_from(bytes, end)) =~= after + tokens_from(bytes, end));
    assert forall|i: int, j: int| 0 <= i && j == i + 1 && j < after.len() implies (
    #[trigger] after[i]).range.end == (#[trigger] after[j]).range.start by {
        if j < before.len() {
            assert(before[i].range.end == before[j].range.start);
        }
    }
}

proof fn lemma_tokens_from_step(bytes: Seq<u8>, p: int, kind: SyntaxKind, end: int)
    requires
        0 <= p < end <= bytes.len(),
        kind == token_at(bytes, p).0,
        end == token_at(bytes, p).1,
    ensures
        tokens_from(bytes, p) == seq![
            Token { kind, range: TextRange { start: p as u32, end: end as u32 } },
        ] + tokens_from(bytes, end),
{
}

proof fn lemma_errors_push(
    bytes: Seq<u8>,
    tokens: Seq<Token>,
    token: Token,
    errors: Seq<ParseError>,
    error: ParseError,
)
    requires
        error_views(errors) == errors_of(bytes, tokens),
        token.kind == SyntaxKind::Error,
        error@ == (
            unrecognized(
                decode_utf8(bytes.subrange(token.range.start as int, token.range.end as int)),
            ),
            token.range,
        ),
    ensures
        error_views(errors.push(error)) == errors_of(bytes, tokens.push(token)),
{
    assert(tokens.push(token).drop_last() =~= tokens);
    assert(error_views(errors.push(error)) =~= error_views(errors).push(error@));
}

proof fn lemma_errors_keep(bytes: Seq<u8>, tokens: Seq<Token>, token: Token)
    requires
        token.kind != SyntaxKind::Error,
    ensures
        errors_of(bytes, tokens.push(token)) == errors_of(bytes, tokens),
{
    assert(tokens.push(token).drop_last() =~= tokens);
}

/// The tokens of `source`, and an error for each `Error` token among them.
///
/// The tokens cover the source from its first byte to its last, end to
/// end, each on boundaries between scalar values.
pub fn tokenize(source: &str) -> (r: (Vec<Token>, Vec<ParseError>))
    requires
        source.spec_bytes().len() < u32::MAX,
    ensures
        r.0@ == tokens_from(source.spec_bytes(), 0),
        tiles(r.0@, 0, source.spec_bytes().len() as int),
        on_boundaries(source.spec_bytes(), r.0@),
        r.0@.len() <= source.spec_bytes().len(),
        error_views(r.1@) == errors_of(source.spec_bytes(), r.0@),
{
    let bytes = source.as_bytes();
    let mut tokens: Vec<Token> = Vec::new();
    let mut errors: Vec<ParseError> = Vec::new();
    let mut p: usize = 0;
    proof {
        encode_utf8_valid_utf8(source@);
        is_char_boundary_start_end_of_seq(bytes@);
        assert(error_views(errors@) =~= errors_of(bytes@, tokens@));
        assert(tokens@ + tokens_from(bytes@, 0) =~= tokens_from(bytes@, 0));
    }
    while p < bytes.len()
        invariant
            bytes@ == source.spec_bytes(),
            valid_utf8(bytes@),
            bytes@.len() < u32::MAX,
            0 <= p <= bytes@.len(),
            is_char_boundary(bytes@, p as int),
            tokens_from(bytes@, 0) == tokens@ + tokens_from(bytes@, p as int),
            tiles(tokens@, 0, p as int),
            tokens@.len() <= p,
            on_boundaries(bytes@, tokens@),
            error_views(errors@) == errors_of(bytes@, tokens@),
        decreases bytes@.len() - p,
    {
        let (kind, end) = scan_token(bytes, p);
        let range = TextRange::new(p as u32, end as u32);
        let token = Token { kind, range };
        proof {
            lemma_clean_end_boundary(bytes@, p as int, end as int);
            lemma_tokens_from_step(bytes@, p as int, kind, end as int);
            lemma_push_token(bytes@, tokens@, token, p as int, end as int);
        }
        if kind == SyntaxKind::Error {
            let error = unrecognized_error(source, range);
            proof {
                lemma_errors_push(bytes@, tokens@, token, errors@, error);
            }
            errors.push(error);
        } else {
            proof {
                lemma_errors_keep(bytes@, tokens@, token);
            }
        }
        tokens.push(token);
        p = end;
    }
    assert(tokens@ + tokens_from(bytes@, p as int) =~= tokens@);
    (tokens, errors)
}

} // verus!
