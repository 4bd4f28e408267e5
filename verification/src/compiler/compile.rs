//! The tree walker.
//!
//! `Compiler::compile` goes through the children of the root in source
//! order. Lines put events on the time line and move the time on; macro
//! definitions store pitch chains, notes or events under a name. What cannot
//! be understood becomes a diagnostic and is skipped; so is a step whose
//! numbers do not fit 32 bits.

use super::atoms::{
    decimal_of, find_byte, first_of, is_whole, number_in, read_decimal, read_number,
    spelled_octave, spelled_simple, two_numbers,
};
use super::sustain::{
    bucket_key, bucket_of, bucketed, end_of, hold, in_bucket, in_range, is_plain,
    lemma_put_keeps, put_in_bucket,
};
use super::time::{clamped, exact_nanos};
use super::walk::{
    after_comma, alias_defined, barred, based, body_defined, body_walk, called, collected,
    compiled, defined, erring, group_walk, grouped, leaf_range, leaf_text, line_walk, lined,
    list_defined, list_walk, listed, moved_on, node_at, node_kind, noted, parts_of, pushed,
    quantized, root_walk, semicolons, signed, span, spelled, submit, telling, timed, trailing,
    within_bar, Walk,
};
use super::types::{
    base_views, copy_chain, defined_at, event_views, note_views, BaseDef, BaseDefView, CompileEvent, CompileEventView, CompileState, Decimal, Diagnostic, DiagnosticLevel,
    EventBody, EventBodyView, MacroDef, MacroDefView, MacroEntryView, MacroRegistry, Note, NoteView, Pitch, TimeStamp,
};
use crate::rational::Rational32;
use crate::syntax::lexer::SyntaxKind;
use crate::syntax::tree::{Element, GreenNode, SyntaxElementRef, SyntaxNode, SyntaxToken};
use crate::syntax::types::TextRange;
use std::collections::HashMap;
use vstd::prelude::*;
use vstd::string::{StringExecFns, StringSliceAdditionalSpecFns};

verus! {

pub struct Compiler {
    pub diagnostics: Vec<Diagnostic>,
    pub macros: MacroRegistry,
    pub state: CompileState,
    pub events: Vec<CompileEvent>,
    /// The base pitches defined so far, the one of the start first.
    pub bases: Vec<BaseDef>,
}

/// `a` is the start of `b`.
pub open spec fn is_prefix<T>(a: Seq<T>, b: Seq<T>) -> bool {
    a.len() <= b.len() && forall|i: int| 0 <= i < a.len() ==> #[trigger] b[i] == a[i]
}

/// The duration that the text of a bracketed token names: `[n:d]` is `n/d`
/// and `[d]` is `1/d`, a `-` before the first number making it negative;
/// the same holds between braces. `None` where the text is of another form,
/// a number is 0 or a number does not fit.
pub open spec fn duration_of(bytes: Seq<u8>) -> Option<Rational32> {
    let n = bytes.len() as int;
    let k = first_of(bytes, 0x3A, 1, n - 1);
    if n < 2 {
        None
    } else if k < n - 1 {
        match (number_in(bytes, 1, k), number_in(bytes, k + 1, n - 1)) {
            (Some(a), Some(b)) => fraction_of(a, b),
            _ => None,
        }
    } else {
        match number_in(bytes, 1, n - 1) {
            Some(b) => if b < 0 {
                fraction_of(-1, -b)
            } else {
                fraction_of(1, b)
            },
            None => None,
        }
    }
}

/// `n / d` for a positive `d` and a non-zero `n` of 32 bits each.
pub open spec fn fraction_of(n: int, d: int) -> Option<Rational32> {
    if 0 < d <= i32::MAX && n != 0 && i32::MIN <= n <= i32::MAX {
        Some(Rational32(n as i32, d as i32))
    } else {
        None
    }
}

fn make_duration(n: i64, d: i64) -> (r: Option<Rational32>)
    ensures
        r == fraction_of(n as int, d as int),
{
    if 0 < d && d <= 0x7FFF_FFFF && n != 0 && -0x8000_0000 <= n && n <= 0x7FFF_FFFF {
        Some(Rational32(n as i32, d as i32))
    } else {
        None
    }
}

/// The duration that the text of a bracketed token names.
pub fn read_duration(text: &str) -> (r: Option<Rational32>)
    ensures
        r == duration_of(text.spec_bytes()),
{
    let bytes = text.as_bytes();
    let n = bytes.len();
    if n < 2 {
        return None;
    }
    let k = find_byte(bytes, 0x3A, 1, n - 1);
    if k < n - 1 {
        let a = read_number(bytes, 1, k);
        let b = read_number(bytes, k + 1, n - 1);
        match (a, b) {
            (Some(a), Some(b)) => make_duration(a, b),
            _ => None,
        }
    } else {
        match read_number(bytes, 1, n - 1) {
            Some(b) => {
                if b < 0 {
                    make_duration(-1, 0 - b)
                } else {
                    make_duration(1, b)
                }
            },
            None => None,
        }
    }
}

/// The number of bytes `byte` among the first `k` of `bytes`.
pub open spec fn count_of(bytes: Seq<u8>, byte: u8, k: int) -> int
    decreases k,
{
    if k <= 0 {
        0
    } else {
        count_of(bytes, byte, k - 1) + if bytes[k - 1] == byte {
            1int
        } else {
            0int
        }
    }
}

/// The number of commas in `text`, as far as it fits 32 bits.
pub fn count_commas(text: &str) -> (r: Option<u32>)
    ensures
        0 <= count_of(text.spec_bytes(), 0x2C, text.spec_bytes().len() as int),
        r == if count_of(text.spec_bytes(), 0x2C, text.spec_bytes().len() as int) <= u32::MAX {
            Some(count_of(text.spec_bytes(), 0x2C, text.spec_bytes().len() as int) as u32)
        } else {
            None
        },
{
    let bytes = text.as_bytes();
    let mut count: u64 = 0;
    let mut i: usize = 0;
    while i < bytes.len()
        invariant
            0 <= i <= bytes@.len(),
            count == count_of(bytes@, 0x2C, i as int),
            count <= i,
        decreases bytes@.len() - i,
    {
        if bytes[i] == 0x2C {
            count += 1;
        }
        i += 1;
    }
    if count <= 0xFFFF_FFFF {
        Some(count as u32)
    } else {
        None
    }
}

/// What a pitch atom of `kind` with the text `bytes` names when the equal
/// division in force is `edo_def`: the pitch, if the text names one, and
/// the equal division in force behind the atom.
///
/// A number is a frequency if it has a point or no equal division is in
/// force; it then has to lie above 1 and below 10^8, and puts the equal
/// division out of force. Otherwise it is a step of the equal division in
/// force. An atom that names its equal division puts that one in force.
pub open spec fn atom_of(kind: SyntaxKind, bytes: Seq<u8>, edo_def: u16) -> (Option<Pitch>, u16) {
    match kind {
        SyntaxKind::PitchSpellOctave => (
            match spelled_octave(bytes) {
                Some(v) => Some(Pitch::SpellOctave(v as i16)),
                None => None,
            },
            edo_def,
        ),
        SyntaxKind::PitchSpellSimple => (
            match spelled_simple(bytes) {
                Some(v) => Some(Pitch::SpellSimple(v as i16)),
                None => None,
            },
            edo_def,
        ),
        SyntaxKind::PitchFrequency => if edo_def == 0 || !is_whole(bytes) {
            match decimal_of(bytes) {
                Some(v) => if 1_000_000_000 < v < 100_000_000_000_000_000 {
                    (Some(Pitch::Frequency(Decimal(v as i64))), 0u16)
                } else {
                    (None, edo_def)
                },
                None => (None, edo_def),
            }
        } else {
            (
                match number_in(bytes, 0, bytes.len() as int) {
                    Some(n) => if n <= i32::MAX {
                        Some(Pitch::Edo(Rational32(n as i32, edo_def as i32)))
                    } else {
                        None
                    },
                    None => None,
                },
                edo_def,
            )
        },
        SyntaxKind::PitchRatio => (
            match two_numbers(bytes, 0x2F) {
                Some((n, d)) => super::atoms::fraction_pitch(n, d, false),
                None => None,
            },
            edo_def,
        ),
        SyntaxKind::PitchEdo => match two_numbers(bytes, 0x5C) {
            Some((n, d)) => match super::atoms::fraction_pitch(n, d, true) {
                Some(Pitch::Edo(r)) => (Some(Pitch::Edo(r)), r.1 as u16),
                _ => (None, edo_def),
            },
            None => (None, edo_def),
        },
        SyntaxKind::PitchCents => (
            if bytes.len() == 0 {
                None
            } else {
                match number_in(bytes, 0, bytes.len() - 1) {
                    Some(v) => if v <= i32::MAX {
                        Some(Pitch::Cents(v as i32))
                    } else {
                        None
                    },
                    None => None,
                }
            },
            edo_def,
        ),
        SyntaxKind::PitchRest => (Some(Pitch::Rest), edo_def),
        SyntaxKind::PitchSustain => (Some(Pitch::Sustain), edo_def),
        _ => (None, edo_def),
    }
}

/// Whether `text` has no point in it.
fn has_no_point(text: &str) -> (b: bool)
    ensures
        b == is_whole(text.spec_bytes()),
{
    let bytes = text.as_bytes();
    find_byte(bytes, 0x2E, 0, bytes.len()) == bytes.len()
}

/// What a pitch atom names, and the equal division in force behind it.
pub fn read_atom(kind: SyntaxKind, text: &str, edo_def: u16) -> (r: (Option<Pitch>, u16))
    ensures
        r == atom_of(kind, text.spec_bytes(), edo_def),
{
    match kind {
        SyntaxKind::PitchSpellOctave => (Pitch::parse_spell_octave(text), edo_def),
        SyntaxKind::PitchSpellSimple => (Pitch::parse_spell_simple(text), edo_def),
        SyntaxKind::PitchFrequency => {
            if edo_def == 0 || !has_no_point(text) {
                match read_decimal(text.as_bytes()) {
                    Some(d) => {
                        if 1_000_000_000 < d.0 && d.0 < 100_000_000_000_000_000 {
                            (Some(Pitch::Frequency(d)), 0)
                        } else {
                            (None, edo_def)
                        }
                    },
                    None => (None, edo_def),
                }
            } else {
                let bytes = text.as_bytes();
                match read_number(bytes, 0, bytes.len()) {
                    Some(n) => {
                        if n <= 0x7FFF_FFFF {
                            (Some(Pitch::Edo(Rational32(n as i32, edo_def as i32))), edo_def)
                        } else {
                            (None, edo_def)
                        }
                    },
                    None => (None, edo_def),
                }
            }
        },
        SyntaxKind::PitchRatio => (Pitch::parse_ratio(text), edo_def),
        SyntaxKind::PitchEdo => {
            match Pitch::parse_edo(text) {
                Some(Pitch::Edo(r)) => (Some(Pitch::Edo(r)), r.1 as u16),
                _ => (None, edo_def),
            }
        },
        SyntaxKind::PitchCents => (Pitch::parse_cents(text), edo_def),
        SyntaxKind::PitchRest => (Some(Pitch::Rest), edo_def),
        SyntaxKind::PitchSustain => (Some(Pitch::Sustain), edo_def),
        _ => (None, edo_def),
    }
}

/// `prefix` with `text` behind it.
pub fn message_with(prefix: &str, text: &str) -> (m: String)
    ensures
        m@ == prefix@ + text@,
{
    let mut m = String::from_str(prefix);
    m.append(text);
    m
}

/// The tolerance within which a sustain finds the end of a note: a tenth
/// of a millisecond, in nanoseconds.
pub open spec fn sustain_tolerance() -> int {
    100_000
}

/// A note with a negative duration starts that much earlier and lasts that
/// long: the event with its duration negated and its start moved back,
/// where the numbers fit. Every other event is left as it is.
pub open spec fn lead_in(e: CompileEventView, state: CompileState) -> Option<(Rational32, TimeStamp)> {
    match e.body {
        EventBodyView::Note(n) => if n.duration.0 < 0 && n.duration.0 != i32::MIN {
            match e.start_time.later(n.duration, state) {
                Some(t) => Some((n.duration.negated(), t)),
                None => None,
            }
        } else {
            None
        },
        _ => None,
    }
}

/// What the first pass of the finalisation makes of an event.
pub open spec fn without_lead_in(e: CompileEventView, state: CompileState) -> CompileEventView {
    match lead_in(e, state) {
        Some((duration, start)) => {
            let n = e.body->Note_0;
            CompileEventView {
                body: EventBodyView::Note(
                    NoteView {
                        duration,
                        duration_nanos: clamped(
                            exact_nanos(duration, state.beat_duration, state.bpm),
                        ),
                        ..n
                    },
                ),
                start_time: start,
                ..e
            }
        },
        None => e,
    }
}

/// The end of a note event in nanoseconds.
pub open spec fn end_nanos(e: CompileEventView) -> int {
    match e.body {
        EventBodyView::Note(n) => e.start_time.nanos + n.duration_nanos,
        _ => e.start_time.nanos as int,
    }
}

/// The sustain `s` holds on to the note `e`: `e` is a note and no sustain,
/// and it ends within the tolerance of where `s` starts.
pub open spec fn holds_on(s: CompileEventView, e: CompileEventView) -> bool {
    e.is_plain_note() && -sustain_tolerance() < end_nanos(e) - s.start_time.nanos
        < sustain_tolerance()
}

/// The event `e` after the sustain `s`: a note that `s` holds on to lasts
/// longer by the duration of `s`, where the numbers fit; every other event
/// is left as it is.
pub open spec fn sustained(e: CompileEventView, s: CompileEventView) -> CompileEventView {
    let n = e.body->Note_0;
    let d = s.body->Note_0;
    if holds_on(s, e) && n.duration.sum_fits(d.duration) && i64::MIN <= n.duration_nanos
        + d.duration_nanos <= i64::MAX {
        CompileEventView {
            body: EventBodyView::Note(
                NoteView {
                    duration: n.duration.sum(d.duration),
                    duration_nanos: (n.duration_nanos + d.duration_nanos) as i64,
                    ..n
                },
            ),
            ..e
        }
    } else {
        e
    }
}

/// The events after the first `k` of them have been looked at as
/// sustains: each sustain among those, in its turn, has made the notes
/// longer that it holds on to.
pub open spec fn folded(events: Seq<CompileEventView>, k: int) -> Seq<CompileEventView>
    decreases k,
{
    if k <= 0 {
        events
    } else {
        let before = folded(events, k - 1);
        if events[k - 1].is_sustain() {
            before.map_values(|e: CompileEventView| sustained(e, events[k - 1]))
        } else {
            before
        }
    }
}

/// The events that are no sustains, in their order.
pub open spec fn without_sustains(events: Seq<CompileEventView>) -> Seq<CompileEventView> {
    events.filter(|e: CompileEventView| !e.is_sustain())
}

/// Whether some event among `events` is a note that the sustain `s` holds
/// on to.
pub open spec fn finds_note(events: Seq<CompileEventView>, s: CompileEventView) -> bool {
    exists|i: int| 0 <= i < events.len() && holds_on(s, #[trigger] events[i])
}

impl Compiler {
    /// The numbers of the state are in order: a positive quantize, and
    /// denominators that are not zero; the base pitch in force is one of
    /// the list.
    pub open spec fn wf(&self) -> bool {
        &&& self.state.quantize.0 > 0
        &&& self.state.quantize.1 > 0
        &&& self.state.time.ticks.1 > 0
        &&& self.state.time_signature.1 != 0
        &&& self.state.beat_duration.1 != 0
        &&& self.bases@.len() >= 1
        &&& self.state.base < self.bases@.len()
    }

    /// `self` is `before` after some compiling: the events, diagnostics,
    /// base pitches and macros of `before` with more at the end.
    pub open spec fn follows(&self, before: &Compiler) -> bool {
        &&& self.wf()
        &&& is_prefix(before.events@, self.events@)
        &&& is_prefix(before.diagnostics@, self.diagnostics@)
        &&& is_prefix(before.bases@, self.bases@)
        &&& is_prefix(before.macros.entries@, self.macros.entries@)
    }

    /// A compiler at the start of a score.
    pub fn new() -> (c: Self)
        ensures
            c.wf(),
            c.state == CompileState::initial(),
            c.events@.len() == 0,
            c.diagnostics@.len() == 0,
            c.macros.entries@.len() == 0,
            c.bases@.len() == 1,
            c.bases@[0].spell is None,
            c.bases@[0].chain is None,
            c.walk() == (Walk {
                state: CompileState::initial(),
                events: Seq::empty(),
                told: Seq::empty(),
                bases: seq![(BaseDefView { spell: None, chain: None, under: 0 })],
                macros: Seq::empty(),
            }),
    {
        let mut bases: Vec<BaseDef> = Vec::new();
        bases.push(BaseDef { spell: None, chain: None, under: 0 });
        let c = Compiler {
            diagnostics: Vec::new(),
            macros: MacroRegistry::default(),
            state: CompileState::new(),
            events: Vec::new(),
            bases,
        };
        proof {
            assert(c.walk().events =~= Seq::empty());
            assert(c.walk().told =~= Seq::empty());
            assert(c.walk().macros =~= Seq::empty());
            assert(c.walk().bases =~= seq![(BaseDefView { spell: None, chain: None, under: 0 })]);
        }
        c
    }

    pub fn error(&mut self, message: String, span: TextRange)
        ensures
            final(self).diagnostics@ == old(self).diagnostics@.push(
                Diagnostic { level: DiagnosticLevel::Error, message, span },
            ),
            diagnostic_views(final(self).diagnostics@) == diagnostic_views(
                old(self).diagnostics@,
            ).push(error_of(message@, span)),
            final(self).events == old(self).events,
            final(self).state == old(self).state,
            final(self).bases == old(self).bases,
            final(self).macros == old(self).macros,
    {
        self.diagnostics.push(Diagnostic { message, level: DiagnosticLevel::Error, span });
        proof {
            assert(diagnostic_views(self.diagnostics@) =~= diagnostic_views(
                old(self).diagnostics@,
            ).push(error_of(message@, span)));
        }
    }

    pub fn warn(&mut self, message: String, span: TextRange)
        ensures
            final(self).diagnostics@ == old(self).diagnostics@.push(
                Diagnostic { level: DiagnosticLevel::Warning, message, span },
            ),
            diagnostic_views(final(self).diagnostics@) == diagnostic_views(
                old(self).diagnostics@,
            ).push(warning_of(message@, span)),
            final(self).events == old(self).events,
            final(self).state == old(self).state,
            final(self).bases == old(self).bases,
            final(self).macros == old(self).macros,
    {
        self.diagnostics.push(Diagnostic { message, level: DiagnosticLevel::Warning, span });
        proof {
            assert(diagnostic_views(self.diagnostics@) =~= diagnostic_views(
                old(self).diagnostics@,
            ).push(warning_of(message@, span)));
        }
    }

    /// Puts an event at the time of the state.
    pub fn push_event(&mut self, body: EventBody, range: TextRange)
        ensures
            final(self).events@ == old(self).events@.push(
                CompileEvent {
                    body,
                    range,
                    range_invoked: None,
                    start_time: old(self).state.time,
                },
            ),
            final(self).diagnostics == old(self).diagnostics,
            final(self).state == old(self).state,
            final(self).bases == old(self).bases,
            final(self).macros == old(self).macros,
            final(self).walk() == pushed(old(self).walk(), body@, range),
    {
        self.events.push(
            CompileEvent { body, range, range_invoked: None, start_time: self.state.time },
        );
        proof {
            assert(event_views(self.events@) =~= event_views(old(self).events@).push(
                CompileEventView {
                    body: body@,
                    start_time: self.state.time,
                    range,
                    range_invoked: None,
                },
            ));
        }
    }

    /// Ends the bar if it has begun: the next bar starts, the place in the
    /// bar is zero over the denominator of the quantize, and a new-measure
    /// event says so. Where the number of bars does not fit, nothing
    /// changes.
    pub fn reset_ticks(&mut self)
        requires
            old(self).wf(),
        ensures
            final(self).follows(old(self)),
            final(self).diagnostics == old(self).diagnostics,
            final(self).bases == old(self).bases,
            final(self).macros == old(self).macros,
            if old(self).state.time.ticks.0 > 0 && old(self).state.time.bars < u32::MAX {
                &&& final(self).state == (CompileState {
                    time: TimeStamp {
                        bars: (old(self).state.time.bars + 1) as u32,
                        ticks: Rational32(0, old(self).state.quantize.1),
                        ..old(self).state.time
                    },
                    ..old(self).state
                })
                &&& final(self).events@ == old(self).events@.push(
                    CompileEvent {
                        body: EventBody::NewMeasure((old(self).state.time.bars + 1) as u32),
                        range: TextRange { start: 0, end: 0 },
                        range_invoked: None,
                        start_time: final(self).state.time,
                    },
                )
            } else {
                final(self).state == old(self).state && final(self).events == old(self).events
            },
            final(self).walk() == barred(old(self).walk()),
    {
        if self.state.time.ticks.0 > 0 && self.state.time.bars < u32::MAX {
            self.state.time.bars += 1;
            self.state.time.ticks = Rational32::new(0, self.state.quantize.1);
            let bars = self.state.time.bars;
            self.push_event(EventBody::NewMeasure(bars), TextRange::default());
        }
    }

    /// Moves the time on by `duration`, or back for a negative one. Where
    /// the numbers do not fit, the time stays and an error says so.
    pub fn advance(&mut self, duration: Rational32, span: TextRange) -> (moved: bool)
        requires
            old(self).wf(),
            duration.1 != 0,
        ensures
            final(self).follows(old(self)),
            final(self).events == old(self).events,
            final(self).bases == old(self).bases,
            final(self).macros == old(self).macros,
            moved == old(self).state.time.later(duration, old(self).state).is_some(),
            moved ==> final(self).diagnostics == old(self).diagnostics && final(self).state == (
            CompileState {
                time: old(self).state.time.later(duration, old(self).state).unwrap(),
                ..old(self).state
            }),
            !moved ==> final(self).state == old(self).state && final(self).diagnostics@.len()
                == old(self).diagnostics@.len() + 1,
            final(self).walk() == moved_on(old(self).walk(), duration, span),
    {
        match self.state.time.add_duration(duration, &self.state) {
            Some(t) => {
                proof {
                    self.state.time.ticks.lemma_sum_exact(duration);
                }
                self.state.time = t;
                true
            },
            None => {
                self.error(String::from_str("Time does not fit the range of numbers"), span);
                false
            },
        }
    }

    /// The first pass of the finalisation: every note with a negative
    /// duration becomes a note that starts that much earlier.
    pub fn finalize_negative_duration_notes(&mut self)
        ensures
            final(self).events@.len() == old(self).events@.len(),
            forall|i: int|
                0 <= i < old(self).events@.len() ==> (#[trigger] final(self).events@[i])@
                    == without_lead_in(old(self).events@[i]@, old(self).state),
            event_views(final(self).events@) == event_views(old(self).events@).map_values(
                |e: CompileEventView| without_lead_in(e, old(self).state),
            ),
            final(self).diagnostics == old(self).diagnostics,
            final(self).state == old(self).state,
            final(self).bases == old(self).bases,
            final(self).macros == old(self).macros,
    {
        let mut fixed: Vec<CompileEvent> = Vec::new();
        let mut i: usize = 0;
        while i < self.events.len()
            invariant
                *self == *old(self),
                0 <= i <= self.events@.len(),
                fixed@.len() == i,
                forall|j: int|
                    0 <= j < i ==> (#[trigger] fixed@[j])@ == without_lead_in(
                        self.events@[j]@,
                        self.state,
                    ),
            decreases self.events@.len() - i,
        {
            let event = &self.events[i];
            let mut copy = event.copy();
            if let EventBody::Note(note) = &event.body {
                if note.duration.0 < 0 && note.duration.0 != i32::MIN {
                    if let Some(start) = event.start_time.add_duration(
                        note.duration,
                        &self.state,
                    ) {
                        let mut turned = note.copy();
                        turned.set_duration(Rational32(-note.duration.0, note.duration.1), &self.state);
                        copy = CompileEvent {
                            body: EventBody::Note(turned),
                            start_time: start,
                            range: event.range,
                            range_invoked: event.range_invoked,
                        };
                    }
                }
            }
            fixed.push(copy);
            i += 1;
        }
        proof {
            assert(event_views(fixed@) =~= event_views(self.events@).map_values(
                |e: CompileEventView| without_lead_in(e, self.state),
            ));
        }
        self.events = fixed;
    }
}

/// The ranges of the sustains among the first `k` events that hold on to
/// no note, in their order.
pub open spec fn lone_sustains(events: Seq<CompileEventView>, k: int) -> Seq<TextRange>
    decreases k,
{
    if k <= 0 {
        Seq::empty()
    } else {
        let before = lone_sustains(events, k - 1);
        if events[k - 1].is_sustain() && !finds_note(folded(events, k - 1), events[k - 1]) {
            before.push(events[k - 1].range)
        } else {
            before
        }
    }
}

/// The warning for a sustain at `range` that holds on to no note.
pub open spec fn lone_sustain_warning(range: TextRange) -> (DiagnosticLevel, Seq<char>, TextRange) {
    (DiagnosticLevel::Warning, "Sustain note has no matching preceding note"@, range)
}

/// An error with `message` about `span`.
pub open spec fn error_of(message: Seq<char>, span: TextRange) -> (
    DiagnosticLevel,
    Seq<char>,
    TextRange,
) {
    (DiagnosticLevel::Error, message, span)
}

/// A warning with `message` about `span`.
pub open spec fn warning_of(message: Seq<char>, span: TextRange) -> (
    DiagnosticLevel,
    Seq<char>,
    TextRange,
) {
    (DiagnosticLevel::Warning, message, span)
}

/// The diagnostics with one more, if there is one.
pub open spec fn with_told(
    told: Seq<(DiagnosticLevel, Seq<char>, TextRange)>,
    more: Option<(DiagnosticLevel, Seq<char>, TextRange)>,
) -> Seq<(DiagnosticLevel, Seq<char>, TextRange)> {
    match more {
        Some(d) => told.push(d),
        None => told,
    }
}

/// The views of `diagnostics`, in their order.
pub open spec fn diagnostic_views(diagnostics: Seq<Diagnostic>) -> Seq<
    (DiagnosticLevel, Seq<char>, TextRange),
> {
    diagnostics.map_values(|d: Diagnostic| d@)
}

/// Folding never touches a sustain, and keeps the number of events.
pub proof fn lemma_folded_shape(events: Seq<CompileEventView>, k: int)
    ensures
        folded(events, k).len() == events.len(),
        forall|i: int|
            0 <= i < events.len() ==> (#[trigger] folded(events, k)[i]).is_sustain()
                == events[i].is_sustain() && (events[i].is_sustain() ==> folded(events, k)[i]
                == events[i]),
    decreases k,
{
    if k > 0 {
        lemma_folded_shape(events, k - 1);
    }
}

/// Events without a sustain among them fold to themselves.
pub proof fn lemma_folded_without_sustains(events: Seq<CompileEventView>, k: int)
    requires
        forall|i: int| 0 <= i < events.len() ==> !(#[trigger] events[i]).is_sustain(),
        k <= events.len(),
    ensures
        folded(events, k) == events,
        lone_sustains(events, k).len() == 0,
    decreases k,
{
    if k > 0 {
        lemma_folded_without_sustains(events, k - 1);
    }
}

/// What is left when the sustains are taken out holds no sustain, and
/// taking them out again changes nothing.
pub proof fn lemma_without_sustains(events: Seq<CompileEventView>)
    ensures
        forall|i: int|
            0 <= i < without_sustains(events).len() ==> !(#[trigger] without_sustains(
                events,
            )[i]).is_sustain(),
        (forall|i: int| 0 <= i < events.len() ==> !(#[trigger] events[i]).is_sustain())
            ==> without_sustains(events) == events,
    decreases events.len(),
{
    let pred = |e: CompileEventView| !e.is_sustain();
    reveal(Seq::filter);
    if events.len() > 0 {
        lemma_without_sustains(events.drop_last());
        if forall|i: int| 0 <= i < events.len() ==> !(#[trigger] events[i]).is_sustain() {
            assert forall|i: int| 0 <= i < events.drop_last().len() implies !(
            #[trigger] events.drop_last()[i]).is_sustain() by {
                assert(events.drop_last()[i] == events[i]);
            }
            assert(events.drop_last().push(events.last()) =~= events);
        }
    }
}

/// Folding the sustains a second time changes nothing: after the pass no
/// sustain is left, and the pass leaves events without sustains as they
/// are and has nothing to warn of.
pub proof fn lemma_sustain_fold_idempotent(events: Seq<CompileEventView>)
    ensures
        ({
            let once = without_sustains(folded(events, events.len() as int));
            &&& forall|i: int| 0 <= i < once.len() ==> !(#[trigger] once[i]).is_sustain()
            &&& without_sustains(folded(once, once.len() as int)) == once
            &&& lone_sustains(once, once.len() as int).len() == 0
        }),
{
    let once = without_sustains(folded(events, events.len() as int));
    lemma_without_sustains(folded(events, events.len() as int));
    lemma_folded_without_sustains(once, once.len() as int);
    lemma_without_sustains(once);
}

impl Compiler {
    /// The second pass of the finalisation: every sustain, in its turn,
    /// makes the notes longer that end where it starts; one that finds no
    /// such note is warned of; then the sustains are taken out. The notes
    /// stand in buckets by the time at which they end, so that a sustain
    /// looks at the notes of three buckets only.
    pub fn finalize_sustain_notes(&mut self)
        ensures
            event_views(final(self).events@) == without_sustains(
                folded(event_views(old(self).events@), old(self).events@.len() as int),
            ),
            diagnostic_views(final(self).diagnostics@) == diagnostic_views(old(self).diagnostics@)
                + lone_sustains(
                event_views(old(self).events@),
                old(self).events@.len() as int,
            ).map_values(|r: TextRange| lone_sustain_warning(r)),
            is_prefix(old(self).diagnostics@, final(self).diagnostics@),
            final(self).state == old(self).state,
            final(self).bases == old(self).bases,
            final(self).macros == old(self).macros,
    {
        let ghost orig = event_views(self.events@);
        let ghost old_diagnostics = diagnostic_views(self.diagnostics@);
        let ghost warn_of = |r: TextRange| lone_sustain_warning(r);
        let n = self.events.len();
        // The events to work on, the last round in which each was held on
        // to, and the notes in the buckets of their ends.
        let mut current: Vec<CompileEvent> = Vec::new();
        let mut marks: Vec<usize> = Vec::new();
        let mut buckets: HashMap<i64, Vec<usize>> = HashMap::new();
        let mut i: usize = 0;
        while i < n
            invariant
                0 <= i <= n,
                n == self.events@.len(),
                current@.len() == i,
                marks@.len() == i,
                forall|j: int| 0 <= j < i ==> #[trigger] marks@[j] == 0,
                forall|j: int| 0 <= j < i ==> (#[trigger] current@[j])@ == self.events@[j]@,
                in_range(buckets@, i as int),
                bucketed(event_views(current@), buckets@, i as int),
                *self == *old(self),
            decreases n - i,
        {
            let event = self.events[i].copy();
            let ghost held = buckets@;
            let ghost seen = event_views(current@);
            if is_plain(&event) {
                let key = bucket_key(end_of(&event));
                put_in_bucket(&mut buckets, key, i);
                proof {
                    assert(in_range(held, i + 1));
                    lemma_put_keeps(held, buckets@, key, i, i + 1);
                }
            }
            current.push(event);
            marks.push(0);
            proof {
                let now = event_views(current@);
                assert(in_range(buckets@, i + 1));
                assert forall|y: int|
                    0 <= y < i + 1 && (#[trigger] now[y]).is_plain_note() implies in_bucket(
                    buckets@,
                    bucket_of(end_nanos(now[y])),
                    y,
                ) by {
                    if y < i {
                        assert(now[y] == seen[y]);
                        assert(in_bucket(held, bucket_of(end_nanos(seen[y])), y));
                    }
                }
            }
            i += 1;
        }
        proof {
            assert(event_views(current@) =~= folded(orig, 0));
            assert(diagnostic_views(self.diagnostics@) =~= old_diagnostics + lone_sustains(
                orig,
                0,
            ).map_values(warn_of));
        }
        let mut k: usize = 0;
        while k < n
            invariant
                0 <= k <= n,
                n == self.events@.len(),
                orig == event_views(self.events@),
                self.events == old(self).events,
                self.state == old(self).state,
                self.bases == old(self).bases,
                self.macros == old(self).macros,
                is_prefix(old(self).diagnostics@, self.diagnostics@),
                old_diagnostics == diagnostic_views(old(self).diagnostics@),
                warn_of == |r: TextRange| lone_sustain_warning(r),
                current@.len() == n,
                marks@.len() == n,
                forall|x: int| 0 <= x < n ==> (#[trigger] marks@[x]) <= k,
                bucketed(event_views(current@), buckets@, n as int),
                event_views(current@) == folded(orig, k as int),
                diagnostic_views(self.diagnostics@) == old_diagnostics + lone_sustains(
                    orig,
                    k as int,
                ).map_values(warn_of),
            decreases n - k,
        {
            let ghost before = event_views(current@);
            proof {
                lemma_folded_shape(orig, k as int);
                assert(orig[k as int] == self.events@[k as int]@);
            }
            let is_sustain = match &self.events[k].body {
                EventBody::Note(note) => note.is_sustain(),
                _ => false,
            };
            if is_sustain {
                let range = self.events[k].range;
                let matched = hold(
                    &mut current,
                    &mut buckets,
                    &mut marks,
                    &self.events[k],
                    k + 1,
                );
                proof {
                    assert(matched == finds_note(before, orig[k as int]));
                }
                if !matched {
                    let ghost seen = self.diagnostics@;
                    self.warn(String::from_str("Sustain note has no matching preceding note"), range);
                    proof {
                        assert(diagnostic_views(self.diagnostics@) =~= diagnostic_views(
                            seen,
                        ).push(lone_sustain_warning(range)));
                        assert(lone_sustains(orig, k + 1).map_values(warn_of) =~= lone_sustains(
                            orig,
                            k as int,
                        ).map_values(warn_of).push(lone_sustain_warning(range)));
                    }
                }
            }
            k += 1;
        }
        let mut kept: Vec<CompileEvent> = Vec::new();
        let mut i: usize = 0;
        let ghost folded_all = event_views(current@);
        let ghost keep = |e: CompileEventView| !e.is_sustain();
        proof {
            assert(folded_all.subrange(0, 0) =~= Seq::<CompileEventView>::empty());
            assert(event_views(kept@) =~= folded_all.subrange(0, 0).filter(keep));
        }
        while i < n
            invariant
                0 <= i <= n,
                n == current@.len(),
                folded_all == event_views(current@),
                keep == |e: CompileEventView| !e.is_sustain(),
                event_views(kept@) == folded_all.subrange(0, i as int).filter(keep),
            decreases n - i,
        {
            let event = &current[i];
            let is_sustain = match &event.body {
                EventBody::Note(note) => note.is_sustain(),
                _ => false,
            };
            proof {
                reveal(Seq::filter);
                assert(folded_all.subrange(0, i + 1).drop_last() =~= folded_all.subrange(
                    0,
                    i as int,
                ));
                assert(folded_all.subrange(0, i + 1).last() == event@);
            }
            if !is_sustain {
                let ghost seen = event_views(kept@);
                kept.push(event.copy());
                assert(event_views(kept@) =~= seen.push(event@));
            }
            i += 1;
        }
        proof {
            assert(folded_all.subrange(0, n as int) =~= folded_all);
        }
        self.events = kept;
    }
}

/// The kinds of tokens that make a pitch chain: atoms, identifiers, `@`
/// and `+`.
pub open spec fn in_chain(kind: SyntaxKind) -> bool {
    kind.spec_is_pitch() || kind.spec_is_formal_pitch() || kind == SyntaxKind::Identifier || kind
        == SyntaxKind::At || kind == SyntaxKind::Plus
}

/// The leaves below `node` that make a pitch chain, from left to right.
pub open spec fn chain_leaves<'a>(node: SyntaxNode<'a>) -> Seq<SyntaxToken<'a>> {
    Seq::new(
        (node.tree.nodes@[node.index as int].end_token
            - node.tree.nodes@[node.index as int].first_token) as nat,
        |x: int| node.tree.nodes@[node.index as int].first_token + x,
    ).filter(|t: int| in_chain(node.tree.tokens@[t].kind)).map_values(
        |t: int| SyntaxToken { tree: node.tree, source: node.source, index: t as usize },
    )
}

/// The leaves below `node` that make a pitch chain, from left to right.
pub fn chain_tokens<'a>(node: &SyntaxNode<'a>) -> (r: Vec<SyntaxToken<'a>>)
    requires
        node.wf(),
    ensures
        r@ == chain_leaves(*node),
        forall|x: int|
            0 <= x < r@.len() ==> (#[trigger] r@[x]).wf() && r@[x].tree == node.tree && r@[x].source
                == node.source && in_chain(r@[x].tree.tokens@[r@[x].index as int].kind),
        r@.map_values(|t: SyntaxToken<'a>| t.index as int) == Seq::new(
            (node.tree.nodes@[node.index as int].end_token
                - node.tree.nodes@[node.index as int].first_token) as nat,
            |x: int| node.tree.nodes@[node.index as int].first_token + x,
        ).filter(|t: int| in_chain(node.tree.tokens@[t].kind)),
{
    let all = node.tokens();
    let mut r: Vec<SyntaxToken<'a>> = Vec::new();
    let ghost first = node.tree.nodes@[node.index as int].first_token as int;
    let ghost places = Seq::new(all@.len(), |x: int| first + x);
    let ghost pred = |t: int| in_chain(node.tree.tokens@[t].kind);
    let ghost place = |t: SyntaxToken<'a>| t.index as int;
    let mut i: usize = 0;
    proof {
        assert(places.subrange(0, 0) =~= Seq::<int>::empty());
        assert(r@.map_values(place) =~= places.subrange(0, 0).filter(pred));
    }
    while i < all.len()
        invariant
            node.wf(),
            0 <= i <= all@.len(),
            places == Seq::new(all@.len(), |x: int| first + x),
            pred == |t: int| in_chain(node.tree.tokens@[t].kind),
            place == |t: SyntaxToken<'a>| t.index as int,
            forall|x: int|
                0 <= x < all@.len() ==> (#[trigger] all@[x]).wf() && all@[x].tree == node.tree
                    && all@[x].source == node.source && all@[x].index == first + x,
            forall|x: int|
                0 <= x < r@.len() ==> (#[trigger] r@[x]).wf() && r@[x].tree == node.tree
                    && r@[x].source == node.source && in_chain(
                    r@[x].tree.tokens@[r@[x].index as int].kind,
                ),
            r@.map_values(place) == places.subrange(0, i as int).filter(pred),
        decreases all@.len() - i,
    {
        let t = all[i];
        let k = t.kind();
        proof {
            reveal(Seq::filter);
            assert(places.subrange(0, i + 1).drop_last() =~= places.subrange(0, i as int));
            assert(places.subrange(0, i + 1).last() == t.index);
        }
        if k.is_pitch() || k.is_formal_pitch() || k == SyntaxKind::Identifier || k
            == SyntaxKind::At || k == SyntaxKind::Plus {
            let ghost seen = r@;
            r.push(t);
            assert(r@.map_values(place) =~= seen.map_values(place).push(t.index as int));
        }
        i += 1;
    }
    proof {
        assert(places.subrange(0, all@.len() as int) =~= places);
        let kept = places.filter(pred);
        assert(r@.map_values(place).len() == r@.len());
        assert forall|x: int| 0 <= x < r@.len() implies r@[x] == (SyntaxToken {
            tree: node.tree,
            source: node.source,
            index: kept[x] as usize,
        }) by {
            assert(r@.map_values(place)[x] == r@[x].index as int);
            assert(r@[x].wf());
        }
        assert(r@ =~= chain_leaves(*node));
    }
    r
}

/// The leaves of the chain behind the name of a macro call.
pub fn tail_tokens<'a>(node: &SyntaxNode<'a>) -> (r: Vec<SyntaxToken<'a>>)
    requires
        node.wf(),
    ensures
        r@ == call_tail(*node),
        forall|i: int| 0 <= i < r@.len() ==> (#[trigger] r@[i]).wf(),
{
    let mut tokens = chain_tokens(node);
    let ghost all = tokens@;
    if tokens.len() > 0 && tokens[0].kind() == SyntaxKind::Identifier {
        tokens.remove(0);
    }
    if tokens.len() > 0 && tokens[0].kind() == SyntaxKind::At {
        tokens.remove(0);
    }
    proof {
        assert forall|i: int| 0 <= i < tokens@.len() implies (#[trigger] tokens@[i]).wf() by {
            assert(tokens@[i] == all[i] || tokens@[i] == all[i + 1] || tokens@[i] == all[i + 2]);
        }
    }
    tokens
}

/// A chain that can be read: it has an atom, and rests and sustains stand
/// alone.
pub open spec fn readable(chain: Seq<Pitch>) -> bool {
    chain.len() >= 1 && (chain.len() > 1 ==> forall|i: int|
        0 <= i < chain.len() ==> !(#[trigger] chain[i]).is_formal())
}

/// Whether some atom of `chain` is a rest or a sustain.
pub fn has_formal(chain: &Vec<Pitch>) -> (b: bool)
    ensures
        b == exists|i: int| 0 <= i < chain@.len() && (#[trigger] chain@[i]).is_formal(),
{
    let mut i: usize = 0;
    while i < chain.len()
        invariant
            0 <= i <= chain@.len(),
            forall|j: int| 0 <= j < i ==> !(#[trigger] chain@[j]).is_formal(),
        decreases chain@.len() - i,
    {
        if matches!(chain[i], Pitch::Rest | Pitch::Sustain) {
            return true;
        }
        i += 1;
    }
    false
}

/// What an identifier in a pitch chain stands for.
pub enum Named {
    /// A chain with at least one atom.
    Chain(Vec<Pitch>),
    /// An alias for a chain without atoms.
    Empty,
    /// Notes.
    Simple,
    /// Events.
    Complex,
    Undefined,
}

/// What is said of an atom that names no pitch: that it is a rest or a
/// sustain where none may stand, a number that is no frequency, or no atom
/// at all. Of another atom that names no pitch nothing is said.
pub open spec fn atom_trouble(
    kind: SyntaxKind,
    bytes: Seq<u8>,
    text: Seq<char>,
    range: TextRange,
    allow_formal: bool,
    edo: u16,
) -> Option<(DiagnosticLevel, Seq<char>, TextRange)> {
    if !allow_formal && kind.spec_is_formal_pitch() {
        Some(error_of("Formal pitch not allowed here: "@ + text, range))
    } else if atom_of(kind, bytes, edo).0 is None {
        if kind == SyntaxKind::PitchFrequency {
            Some(error_of("Invalid frequency value: "@ + text, range))
        } else if !(kind.spec_is_pitch() || kind.spec_is_formal_pitch()) {
            Some(error_of("Invalid pitch token: "@ + text, range))
        } else {
            None
        }
    } else {
        None
    }
}

/// What is said of a name in a pitch chain that stands for no chain: that
/// it is not defined, or what it is defined as. On the right of the
/// definition of a base pitch, if `base`, the words are others.
pub open spec fn name_trouble(
    macros: Seq<MacroEntryView>,
    name: Seq<char>,
    range: TextRange,
    base: bool,
) -> Option<(DiagnosticLevel, Seq<char>, TextRange)> {
    match defined_at(macros, name) {
        Some(i) => match macros[i].def {
            MacroDefView::Alias(chain) => if chain.len() > 0 {
                None
            } else if base {
                Some(
                    error_of(
                        "Identifier in base pitch RHS cannot resolve to an empty pitch chain"@,
                        range,
                    ),
                )
            } else {
                Some(
                    error_of(
                        "Identifier in pitch chain cannot resolve to an empty alias macro: "@
                            + name,
                        range,
                    ),
                )
            },
            MacroDefView::Simple(_) => Some(
                error_of(
                    if base {
                        "Identifier in base pitch RHS must resolve to an alias macro: "@
                    } else {
                        "Identifier in pitch chain must resolve to an alias macro: "@
                    } + name,
                    range,
                ),
            ),
            MacroDefView::Complex(_) => Some(
                error_of(
                    if base {
                        "Identifier in base pitch RHS cannot resolve to a complex macro: "@
                    } else {
                        "Identifier in pitch chain cannot resolve to a complex macro: "@
                    } + name,
                    range,
                ),
            ),
        },
        None => Some(
            error_of(
                if base {
                    "Undefined identifier in base pitch RHS: "@
                } else {
                    "Undefined identifier in pitch chain: "@
                } + name,
                range,
            ),
        ),
    }
}

impl Compiler {
    /// The pitch that the atom `t` names. An atom that names none is
    /// skipped; an error says so where the atom is a rest or sustain that
    /// may not stand here, a number that is no frequency, or no atom at
    /// all.
    pub fn parse_pitch_atom(&mut self, t: &SyntaxToken, allow_formal: bool) -> (p: Option<Pitch>)
        requires
            old(self).wf(),
            t.wf(),
        ensures
            final(self).follows(old(self)),
            final(self).events == old(self).events,
            final(self).bases == old(self).bases,
            final(self).macros == old(self).macros,
            ({
                let kind = t.tree.tokens@[t.index as int].kind;
                let read = atom_of(kind, t.bytes(), old(self).state.edo_def);
                if !allow_formal && kind.spec_is_formal_pitch() {
                    p is None && final(self).state == old(self).state
                } else {
                    p == read.0 && final(self).state == (CompileState {
                        edo_def: read.1,
                        ..old(self).state
                    })
                }
            }),
            p is Some ==> final(self).diagnostics == old(self).diagnostics,
            final(self).diagnostics@.len() <= old(self).diagnostics@.len() + 1,
            !allow_formal ==> !(p matches Some(q) && q.is_formal()),
            diagnostic_views(final(self).diagnostics@) == with_told(
                diagnostic_views(old(self).diagnostics@),
                atom_trouble(
                    t.tree.tokens@[t.index as int].kind,
                    t.bytes(),
                    t.text_view(),
                    t.tree.tokens@[t.index as int].range,
                    allow_formal,
                    old(self).state.edo_def,
                ),
            ),
    {
        let kind = t.kind();
        let text = t.text();
        if !allow_formal && kind.is_formal_pitch() {
            self.error(message_with("Formal pitch not allowed here: ", text), t.text_range());
            return None;
        }
        let (pitch, edo_def) = read_atom(kind, text, self.state.edo_def);
        self.state.edo_def = edo_def;
        if pitch.is_none() {
            if kind == SyntaxKind::PitchFrequency {
                self.error(message_with("Invalid frequency value: ", text), t.text_range());
            } else if !(kind.is_pitch() || kind.is_formal_pitch()) {
                self.error(message_with("Invalid pitch token: ", text), t.text_range());
            }
        }
        pitch
    }

    /// A note of the one atom that `t` names.
    pub fn parse_pitch(&mut self, t: &SyntaxToken, allow_formal: bool) -> (n: Option<Note>)
        requires
            old(self).wf(),
            t.wf(),
        ensures
            final(self).follows(old(self)),
            final(self).events == old(self).events,
            final(self).bases == old(self).bases,
            final(self).macros == old(self).macros,
            n matches Some(note) ==> note@.pitch_chain.len() == 1 && note@.base == final(self).state.base,
            ({
                let kind = t.tree.tokens@[t.index as int].kind;
                let read = atom_of(kind, t.bytes(), old(self).state.edo_def);
                if !allow_formal && kind.spec_is_formal_pitch() {
                    n is None && final(self).state == old(self).state
                } else {
                    &&& final(self).state == (CompileState { edo_def: read.1, ..old(self).state })
                    &&& match read.0 {
                        Some(pitch) => n matches Some(note) && note@ == (NoteView {
                            pitch_chain: seq![pitch],
                            base: old(self).state.base,
                            duration: Rational32(0, 4),
                            duration_nanos: 0,
                        }),
                        None => n is None,
                    }
                }
            }),
            diagnostic_views(final(self).diagnostics@) == with_told(
                diagnostic_views(old(self).diagnostics@),
                atom_trouble(
                    t.tree.tokens@[t.index as int].kind,
                    t.bytes(),
                    t.text_view(),
                    t.tree.tokens@[t.index as int].range,
                    allow_formal,
                    old(self).state.edo_def,
                ),
            ),
    {
        match self.parse_pitch_atom(t, allow_formal) {
            Some(pitch) => Some(Note::from_pitch(pitch, &self.state)),
            None => None,
        }
    }

    /// What the name `name` stands for in a pitch chain.
    pub fn resolve(&self, name: &str) -> (r: Named)
        ensures
            match defined_at(self.macros@, name@) {
                Some(i) => match self.macros@[i].def {
                    MacroDefView::Alias(chain) => if chain.len() == 0 {
                        r is Empty
                    } else {
                        r matches Named::Chain(c) && c@ == chain
                    },
                    MacroDefView::Simple(_) => r is Simple,
                    MacroDefView::Complex(_) => r is Complex,
                },
                None => r is Undefined,
            },
    {
        let found = self.macros.find(name);
        proof {
            if let Some(i) = found {
                assert(self.macros@[i as int] == self.macros.entries@[i as int]@);
            }
        }
        match found {
            Some(i) => match &self.macros.entries[i].def {
                MacroDef::Alias(chain) => {
                    if chain.len() == 0 {
                        Named::Empty
                    } else {
                        Named::Chain(copy_chain(chain))
                    }
                },
                MacroDef::Simple(_) => Named::Simple,
                MacroDef::Complex(_) => Named::Complex,
            },
            None => Named::Undefined,
        }
    }

    /// The chain that the identifier `t` stands for in a pitch chain: that
    /// of an alias. Any other name is an error.
    pub fn parse_pitch_chain_ident_as_chain(&mut self, t: &SyntaxToken) -> (c: Option<Vec<Pitch>>)
        requires
            old(self).wf(),
            t.wf(),
        ensures
            final(self).follows(old(self)),
            final(self).events == old(self).events,
            final(self).state == old(self).state,
            final(self).bases == old(self).bases,
            final(self).macros == old(self).macros,
            c matches Some(chain) ==> chain@.len() >= 1 && final(self).diagnostics == old(self).diagnostics,
            c is None ==> final(self).diagnostics@.len() == old(self).diagnostics@.len() + 1,
            match c {
                Some(chain) => named_chain(old(self).macros@, t.text_view()) == Some(chain@),
                None => named_chain(old(self).macros@, t.text_view()) is None,
            },
            diagnostic_views(final(self).diagnostics@) == with_told(
                diagnostic_views(old(self).diagnostics@),
                name_trouble(
                    old(self).macros@,
                    t.text_view(),
                    t.tree.tokens@[t.index as int].range,
                    false,
                ),
            ),
    {
        let ident = t.text();
        let range = t.text_range();
        match self.resolve(ident) {
            Named::Chain(chain) => Some(chain),
            Named::Empty => {
                self.error(
                    message_with(
                        "Identifier in pitch chain cannot resolve to an empty alias macro: ",
                        ident,
                    ),
                    range,
                );
                None
            },
            Named::Simple => {
                self.error(
                    message_with("Identifier in pitch chain must resolve to an alias macro: ", ident),
                    range,
                );
                None
            },
            Named::Complex => {
                self.error(
                    message_with(
                        "Identifier in pitch chain cannot resolve to a complex macro: ",
                        ident,
                    ),
                    range,
                );
                None
            },
            Named::Undefined => {
                self.error(message_with("Undefined identifier in pitch chain: ", ident), range);
                None
            },
        }
    }

    /// The chain that the identifier `t` stands for on the right of a base
    /// pitch definition: that of an alias.
    pub fn parse_pitch_chain_ident_as_chain_for_base_rhs(&mut self, t: &SyntaxToken) -> (c: Option<
        Vec<Pitch>,
    >)
        requires
            old(self).wf(),
            t.wf(),
        ensures
            final(self).follows(old(self)),
            final(self).events == old(self).events,
            final(self).state == old(self).state,
            final(self).bases == old(self).bases,
            final(self).macros == old(self).macros,
            c matches Some(chain) ==> chain@.len() >= 1 && final(self).diagnostics == old(self).diagnostics,
            c is None ==> final(self).diagnostics@.len() == old(self).diagnostics@.len() + 1,
            match c {
                Some(chain) => named_chain(old(self).macros@, t.text_view()) == Some(chain@),
                None => named_chain(old(self).macros@, t.text_view()) is None,
            },
            diagnostic_views(final(self).diagnostics@) == with_told(
                diagnostic_views(old(self).diagnostics@),
                name_trouble(
                    old(self).macros@,
                    t.text_view(),
                    t.tree.tokens@[t.index as int].range,
                    true,
                ),
            ),
    {
        let ident = t.text();
        let range = t.text_range();
        match self.resolve(ident) {
            Named::Chain(chain) => Some(chain),
            Named::Empty => {
                self.error(
                    String::from_str(
                        "Identifier in base pitch RHS cannot resolve to an empty pitch chain",
                    ),
                    range,
                );
                None
            },
            Named::Simple => {
                self.error(
                    message_with(
                        "Identifier in base pitch RHS must resolve to an alias macro: ",
                        ident,
                    ),
                    range,
                );
                None
            },
            Named::Complex => {
                self.error(
                    message_with(
                        "Identifier in base pitch RHS cannot resolve to a complex macro: ",
                        ident,
                    ),
                    range,
                );
                None
            },
            Named::Undefined => {
                self.error(message_with("Undefined identifier in base pitch RHS: ", ident), range);
                None
            },
        }
    }

    /// A note of the chain `pitch_atoms`, read under the base pitch in
    /// force. A chain without atoms gives none; a chain of several atoms
    /// with a rest or sustain among them is an error.
    pub fn eval_pitch_chain_pitches(&mut self, pitch_atoms: &Vec<Pitch>, range: TextRange) -> (n:
        Option<Note>)
        requires
            old(self).wf(),
        ensures
            final(self).follows(old(self)),
            final(self).events == old(self).events,
            final(self).state == old(self).state,
            final(self).bases == old(self).bases,
            final(self).macros == old(self).macros,
            n is Some == readable(pitch_atoms@),
            n matches Some(note) ==> note@ == (NoteView {
                pitch_chain: pitch_atoms@,
                base: old(self).state.base,
                duration: Rational32(0, 4),
                duration_nanos: 0,
            }) && final(self).diagnostics == old(self).diagnostics,
            n is None ==> final(self).diagnostics@ == if pitch_atoms@.len() == 0 {
                old(self).diagnostics@
            } else {
                old(self).diagnostics@.push(final(self).diagnostics@.last())
            },
            n is None && pitch_atoms@.len() > 0 ==> final(self).diagnostics@.last()@ == (
                DiagnosticLevel::Error,
                "rest/sustain cannot be used inside pitch chain"@,
                range,
            ),
            diagnostic_views(final(self).diagnostics@) == with_told(
                diagnostic_views(old(self).diagnostics@),
                if pitch_atoms@.len() > 1 && !readable(pitch_atoms@) {
                    Some(error_of("rest/sustain cannot be used inside pitch chain"@, range))
                } else {
                    None
                },
            ),
    {
        if pitch_atoms.len() == 0 {
            return None;
        }
        if pitch_atoms.len() > 1 && has_formal(pitch_atoms) {
            self.error(String::from_str("rest/sustain cannot be used inside pitch chain"), range);
            return None;
        }
        Some(
            Note {
                pitch_chain: copy_chain(pitch_atoms),
                base: self.state.base,
                duration: Rational32(0, 4),
                duration_nanos: 0,
            },
        )
    }
}

/// Puts the atoms of `more` behind those of `chain`.
pub fn extend_chain(chain: &mut Vec<Pitch>, more: &Vec<Pitch>)
    ensures
        final(chain)@ == old(chain)@ + more@,
{
    let mut i: usize = 0;
    while i < more.len()
        invariant
            0 <= i <= more@.len(),
            chain@ == old(chain)@ + more@.subrange(0, i as int),
        decreases more@.len() - i,
    {
        chain.push(more[i]);
        assert(chain@ =~= old(chain)@ + more@.subrange(0, i + 1));
        i += 1;
    }
    assert(more@.subrange(0, more@.len() as int) =~= more@);
}

/// The first leaf among the children of node `i` from place `k` on that is
/// of kind `a` or `b`, by its place among the leaves.
pub open spec fn first_leaf_of(tree: &GreenNode, i: int, a: SyntaxKind, b: SyntaxKind, k: int) -> Option<
    usize,
>
    decreases tree.nodes@[i].children@.len() - k,
{
    let children = tree.nodes@[i].children@;
    if k < 0 || k >= children.len() {
        None
    } else {
        match children[k] {
            Element::Token(t) => if tree.tokens@[t as int].kind == a || tree.tokens@[t as int].kind
                == b {
                Some(t)
            } else {
                first_leaf_of(tree, i, a, b, k + 1)
            },
            Element::Node(_) => first_leaf_of(tree, i, a, b, k + 1),
        }
    }
}

/// The first node among the children of node `i` from place `k` on that is
/// of kind `kind`, by its place among the nodes.
pub open spec fn first_node_of(tree: &GreenNode, i: int, kind: SyntaxKind, k: int) -> Option<usize>
    decreases tree.nodes@[i].children@.len() - k,
{
    let children = tree.nodes@[i].children@;
    if k < 0 || k >= children.len() {
        None
    } else {
        match children[k] {
            Element::Node(j) => if tree.nodes@[j as int].kind == kind {
                Some(j)
            } else {
                first_node_of(tree, i, kind, k + 1)
            },
            Element::Token(_) => first_node_of(tree, i, kind, k + 1),
        }
    }
}

/// The first leaf among the children of `node` that is of kind `a` or `b`.
pub fn child_token<'a>(node: &SyntaxNode<'a>, a: SyntaxKind, b: SyntaxKind) -> (r: Option<
    SyntaxToken<'a>,
>)
    requires
        node.wf(),
    ensures
        r matches Some(t) ==> t.wf() && t.tree == node.tree && t.source == node.source && (
        t.tree.tokens@[t.index as int].kind == a || t.tree.tokens@[t.index as int].kind == b),
        match r {
            Some(t) => first_leaf_of(node.tree, node.index as int, a, b, 0) == Some(t.index),
            None => first_leaf_of(node.tree, node.index as int, a, b, 0) is None,
        },
{
    let children = node.children_with_tokens();
    let mut k: usize = 0;
    while k < children.len()
        invariant
            node.wf(),
            0 <= k <= children@.len(),
            children@.len() == node.child_elements().len(),
            forall|x: int|
                0 <= x < children@.len() ==> (#[trigger] children@[x]).wf() && children@[x].element()
                    == node.child_elements()[x] && children@[x].tree() == node.tree
                    && children@[x].source() == node.source,
            first_leaf_of(node.tree, node.index as int, a, b, k as int) == first_leaf_of(
                node.tree,
                node.index as int,
                a,
                b,
                0,
            ),
        decreases children@.len() - k,
    {
        if let SyntaxElementRef::Token(t) = children[k] {
            let kind = t.kind();
            if kind == a || kind == b {
                return Some(t);
            }
        }
        k += 1;
    }
    None
}

/// The first node among the children of `node` that is of kind `kind`.
pub fn child_node<'a>(node: &SyntaxNode<'a>, kind: SyntaxKind) -> (r: Option<SyntaxNode<'a>>)
    requires
        node.wf(),
    ensures
        r matches Some(n) ==> n.wf() && n.tree == node.tree && n.source == node.source
            && n.tree.nodes@[n.index as int].kind == kind,
        match r {
            Some(n) => first_node_of(node.tree, node.index as int, kind, 0) == Some(n.index),
            None => first_node_of(node.tree, node.index as int, kind, 0) is None,
        },
{
    let children = node.children_with_tokens();
    let mut k: usize = 0;
    while k < children.len()
        invariant
            node.wf(),
            0 <= k <= children@.len(),
            children@.len() == node.child_elements().len(),
            forall|x: int|
                0 <= x < children@.len() ==> (#[trigger] children@[x]).wf() && children@[x].element()
                    == node.child_elements()[x] && children@[x].tree() == node.tree
                    && children@[x].source() == node.source,
            first_node_of(node.tree, node.index as int, kind, k as int) == first_node_of(
                node.tree,
                node.index as int,
                kind,
                0,
            ),
        decreases children@.len() - k,
    {
        if let SyntaxElementRef::Node(n) = children[k] {
            if n.kind() == kind {
                return Some(n);
            }
        }
        k += 1;
    }
    None
}

/// The bytes of leaf `t` of a tree over `bytes`.
pub open spec fn leaf_bytes(tree: &GreenNode, bytes: Seq<u8>, t: int) -> Seq<u8> {
    bytes.subrange(tree.tokens@[t].range.start as int, tree.tokens@[t].range.end as int)
}

/// The duration that node `i` names: `[,,]` stands for the quantize times
/// one more than the number of commas, `[n:d]` for `n/d`. Without either,
/// and where the number does not fit, the duration is zero, which stands
/// for none.
pub open spec fn named_duration(tree: &GreenNode, bytes: Seq<u8>, i: int, quantize: Rational32) -> Rational32 {
    match first_leaf_of(tree, i, SyntaxKind::DurationCommas, SyntaxKind::DurationFraction, 0) {
        Some(t) => {
            let text = leaf_bytes(tree, bytes, t as int);
            if tree.tokens@[t as int].kind == SyntaxKind::DurationCommas {
                let commas = count_of(text, 0x2C, text.len() as int);
                let times = Rational32((commas + 1) as i32, 1);
                if commas < 0x7FFF_FFFF && quantize.product_fits(times) {
                    quantize.product(times)
                } else {
                    Rational32(0, 1)
                }
            } else {
                match duration_of(text) {
                    Some(d) => d,
                    None => Rational32(0, 1),
                }
            }
        },
        None => Rational32(0, 1),
    }
}

/// What is said of the duration that node `i` names, if it cannot be
/// read or does not fit the range of numbers.
pub open spec fn duration_trouble(tree: &GreenNode, bytes: Seq<u8>, i: int, quantize: Rational32) -> Option<
    (DiagnosticLevel, Seq<char>, TextRange),
> {
    match first_leaf_of(tree, i, SyntaxKind::DurationCommas, SyntaxKind::DurationFraction, 0) {
        Some(t) => {
            let text = leaf_bytes(tree, bytes, t as int);
            let range = tree.tokens@[t as int].range;
            if tree.tokens@[t as int].kind == SyntaxKind::DurationCommas {
                let commas = count_of(text, 0x2C, text.len() as int);
                let times = Rational32((commas + 1) as i32, 1);
                if commas < 0x7FFF_FFFF && quantize.product_fits(times) {
                    None
                } else {
                    Some(error_of("Duration does not fit the range of numbers"@, range))
                }
            } else if duration_of(text) is None {
                Some(
                    error_of(
                        "Invalid duration format: "@ + vstd::utf8::decode_utf8(text),
                        range,
                    ),
                )
            } else {
                None
            }
        },
        None => None,
    }
}

/// The chain that a name stands for in a pitch chain: that of an alias
/// with at least one atom.
pub open spec fn named_chain(macros: Seq<MacroEntryView>, name: Seq<char>) -> Option<Seq<Pitch>> {
    match defined_at(macros, name) {
        Some(i) => match macros[i].def {
            MacroDefView::Alias(chain) => if chain.len() > 0 {
                Some(chain)
            } else {
                None
            },
            _ => None,
        },
        None => None,
    }
}

/// Where a pitch chain stands.
#[derive(Debug, Clone, Copy, PartialEq, Eq, Structural)]
pub enum ChainPlace {
    /// In a note; a rest or a sustain may stand alone there if `formal`.
    Note { formal: bool },
    /// On the right of a base pitch definition or of an alias.
    Base,
    /// Behind the name of a macro call.
    Tail,
}

/// What a reader of a pitch chain knows after some tokens: the atoms so
/// far, whether an atom has to come next, whether the chain has a link, the
/// equal division in force, and whether the chain has gone wrong.
pub struct ChainState {
    pub atoms: Seq<Pitch>,
    pub expect: bool,
    pub linked: bool,
    pub edo: u16,
    pub failed: bool,
}

/// What a reader of a pitch chain sees of a token: its kind, its bytes, and
/// the chain that it names if it is an identifier.
pub struct ChainToken {
    pub kind: SyntaxKind,
    pub bytes: Seq<u8>,
    pub named: Option<Seq<Pitch>>,
    pub text: Seq<char>,
    pub range: TextRange,
    /// What is said of the token as a name that stands for no chain.
    pub unnamed: Option<(DiagnosticLevel, Seq<char>, TextRange)>,
    /// The same, on the right of the definition of a base pitch.
    pub unnamed_base: Option<(DiagnosticLevel, Seq<char>, TextRange)>,
}

/// What the reader sees of the token `t`.
pub open spec fn seen(t: SyntaxToken, macros: Seq<MacroEntryView>) -> ChainToken {
    ChainToken {
        kind: t.tree.tokens@[t.index as int].kind,
        bytes: t.bytes(),
        named: named_chain(macros, t.text_view()),
        text: t.text_view(),
        range: t.tree.tokens@[t.index as int].range,
        unnamed: name_trouble(
            macros,
            t.text_view(),
            t.tree.tokens@[t.index as int].range,
            false,
        ),
        unnamed_base: name_trouble(
            macros,
            t.text_view(),
            t.tree.tokens@[t.index as int].range,
            true,
        ),
    }
}

/// What the reader sees of the tokens `tokens`.
pub open spec fn all_seen(tokens: Seq<SyntaxToken>, macros: Seq<MacroEntryView>) -> Seq<ChainToken> {
    Seq::new(tokens.len(), |i: int| seen(tokens[i], macros))
}

/// The state of the reader before the first token.
pub open spec fn chain_start(place: ChainPlace, edo: u16) -> ChainState {
    ChainState {
        atoms: Seq::empty(),
        expect: !(place is Tail),
        linked: false,
        edo,
        failed: false,
    }
}

/// The state with the atom that `t` spells taken in. A rest or sustain
/// where none may stand, and an atom that spells no pitch, make the chain
/// go wrong.
pub open spec fn with_atom(st: ChainState, t: ChainToken, formal: bool) -> ChainState {
    let read = atom_of(t.kind, t.bytes, st.edo);
    if !formal && t.kind.spec_is_formal_pitch() {
        ChainState { failed: true, ..st }
    } else {
        match read.0 {
            Some(p) => ChainState { atoms: st.atoms.push(p), expect: false, edo: read.1, ..st },
            None => ChainState { failed: true, edo: read.1, ..st },
        }
    }
}

/// The state with the chain that the identifier `t` names taken in.
pub open spec fn with_name(st: ChainState, t: ChainToken) -> ChainState {
    match t.named {
        Some(chain) => ChainState { atoms: st.atoms + chain, expect: false, ..st },
        None => ChainState { failed: true, ..st },
    }
}

/// The state of the reader after one more token. Where an atom has to
/// come, an atom or an identifier is taken in. Elsewhere `@` asks for an
/// atom, `+` stands for the ratio 2/1 and `-` for 1/2; behind the name of a
/// macro call an atom or identifier may also come first. Anything else
/// makes the chain go wrong.
pub open spec fn chain_step(place: ChainPlace, st: ChainState, t: ChainToken) -> ChainState {
    let formal = place matches ChainPlace::Note { formal: true };
    if st.failed {
        st
    } else if st.expect {
        if t.kind.spec_is_pitch() || t.kind.spec_is_formal_pitch() {
            with_atom(st, t, formal)
        } else if t.kind == SyntaxKind::Identifier {
            with_name(st, t)
        } else {
            ChainState { failed: true, ..st }
        }
    } else if place is Tail && st.atoms.len() == 0 && t.kind.spec_is_pitch() {
        ChainState { expect: st.expect, ..with_atom(st, t, false) }
    } else if place is Tail && st.atoms.len() == 0 && t.kind == SyntaxKind::Identifier {
        ChainState { expect: st.expect, ..with_name(st, t) }
    } else if t.kind == SyntaxKind::At {
        ChainState { expect: true, linked: true, ..st }
    } else if t.kind == SyntaxKind::Plus {
        ChainState { atoms: st.atoms.push(Pitch::Ratio(Rational32(2, 1))), linked: true, ..st }
    } else if t.kind == SyntaxKind::PitchSustain {
        ChainState { atoms: st.atoms.push(Pitch::Ratio(Rational32(1, 2))), linked: true, ..st }
    } else {
        ChainState { failed: true, ..st }
    }
}

/// The state of the reader after the first `k` tokens.
pub open spec fn chain_state(place: ChainPlace, tokens: Seq<ChainToken>, edo: u16, k: int) -> ChainState
    decreases k,
{
    if k <= 0 {
        chain_start(place, edo)
    } else {
        chain_step(place, chain_state(place, tokens, edo, k - 1), tokens[k - 1])
    }
}

/// Whether a chain that the reader has read to its end in the state `st`
/// spells something: it has not gone wrong and does not end with `@`; in a
/// note, no rest or sustain stands in a chain with a link; on the right of
/// a definition, rests and sustains stand alone; behind a name, there is an
/// atom.
pub open spec fn chain_holds(place: ChainPlace, st: ChainState) -> bool {
    !st.failed && !st.expect && match place {
        ChainPlace::Note { .. } => !(st.linked && exists|i: int|
            0 <= i < st.atoms.len() && (#[trigger] st.atoms[i]).is_formal()),
        ChainPlace::Base => readable(st.atoms),
        ChainPlace::Tail => st.atoms.len() > 0,
    }
}

/// What is said of the token `t` when it makes a chain go wrong that was
/// in the state `st`. Of some atoms that spell no pitch nothing is said.
pub open spec fn step_trouble(place: ChainPlace, st: ChainState, t: ChainToken) -> Option<
    (DiagnosticLevel, Seq<char>, TextRange),
> {
    let formal = place matches ChainPlace::Note { formal: true };
    if st.expect {
        if t.kind.spec_is_pitch() || t.kind.spec_is_formal_pitch() {
            atom_trouble(t.kind, t.bytes, t.text, t.range, formal, st.edo)
        } else if t.kind == SyntaxKind::Identifier {
            if place is Base {
                t.unnamed_base
            } else {
                t.unnamed
            }
        } else {
            Some(
                error_of(
                    if place is Tail {
                        "Expected pitch token after '@', got: "@
                    } else {
                        "Expected pitch token, got: "@
                    } + t.text,
                    t.range,
                ),
            )
        }
    } else if place is Tail && st.atoms.len() == 0 && t.kind.spec_is_pitch() {
        atom_trouble(t.kind, t.bytes, t.text, t.range, false, st.edo)
    } else if place is Tail && st.atoms.len() == 0 && t.kind == SyntaxKind::Identifier {
        t.unnamed
    } else if t.kind == SyntaxKind::At || t.kind == SyntaxKind::Plus || t.kind
        == SyntaxKind::PitchSustain {
        None
    } else {
        Some(
            error_of(
                if place is Tail {
                    "Expected '+', '-', or '@' after macro invoke, got: "@
                } else {
                    "Expected '@' in pitch chain, got: "@
                } + t.text,
                t.range,
            ),
        )
    }
}

/// What is said of the first of the first `k` tokens that makes the chain
/// go wrong.
pub open spec fn step_troubles(place: ChainPlace, tokens: Seq<ChainToken>, edo: u16, k: int) -> Option<
    (DiagnosticLevel, Seq<char>, TextRange),
>
    decreases k,
{
    if k <= 0 {
        None
    } else if chain_state(place, tokens, edo, k - 1).failed {
        step_troubles(place, tokens, edo, k - 1)
    } else {
        step_trouble(place, chain_state(place, tokens, edo, k - 1), tokens[k - 1])
    }
}

/// What is said of a chain that the reader could not read: what is said
/// of the token that made it go wrong, or that the chain ends with `@`.
pub open spec fn read_trouble(place: ChainPlace, tokens: Seq<ChainToken>, edo: u16, range: TextRange) -> Option<
    (DiagnosticLevel, Seq<char>, TextRange),
> {
    let st = chain_state(place, tokens, edo, tokens.len() as int);
    if st.failed {
        step_troubles(place, tokens, edo, tokens.len() as int)
    } else if st.expect {
        Some(error_of("Pitch chain cannot end with '@'"@, range))
    } else {
        None
    }
}

/// What is said of a chain that spells nothing: what is said of one that
/// could not be read, or that a rest or a sustain stands where none may.
pub open spec fn chain_trouble(place: ChainPlace, tokens: Seq<ChainToken>, edo: u16, range: TextRange) -> Option<
    (DiagnosticLevel, Seq<char>, TextRange),
> {
    let st = chain_state(place, tokens, edo, tokens.len() as int);
    let among = error_of("rest/sustain cannot be used inside pitch chain"@, range);
    if tokens.len() == 0 {
        None
    } else if st.failed || st.expect {
        read_trouble(place, tokens, edo, range)
    } else {
        match place {
            ChainPlace::Note { .. } => if st.linked && exists|i: int|
                0 <= i < st.atoms.len() && (#[trigger] st.atoms[i]).is_formal() {
                Some(among)
            } else {
                None
            },
            ChainPlace::Base => if st.atoms.len() > 1 && !readable(st.atoms) {
                Some(among)
            } else {
                None
            },
            ChainPlace::Tail => None,
        }
    }
}

/// What is said of the token that made the chain go wrong is what is said
/// of the chain, however many tokens follow.
pub proof fn lemma_trouble_stays(place: ChainPlace, tokens: Seq<ChainToken>, edo: u16, i: int, k: int)
    requires
        1 <= i <= k,
        chain_state(place, tokens, edo, i).failed,
    ensures
        step_troubles(place, tokens, edo, k) == step_troubles(place, tokens, edo, i),
    decreases k - i,
{
    if i < k {
        lemma_failed_stays(place, tokens, edo, i, k - 1);
        lemma_trouble_stays(place, tokens, edo, i, k - 1);
    }
}

/// A chain in a note or on the right of a definition that has not gone
/// wrong and asks for no atom has an atom.
pub proof fn lemma_chain_has_atom(place: ChainPlace, tokens: Seq<ChainToken>, edo: u16, k: int)
    requires
        !(place is Tail),
        0 <= k <= tokens.len(),
        forall|i: int|
            0 <= i < tokens.len() ==> ((#[trigger] tokens[i]).named matches Some(c) ==> c.len()
                >= 1),
    ensures
        ({
            let st = chain_state(place, tokens, edo, k);
            !st.failed && !st.expect ==> st.atoms.len() >= 1
        }),
    decreases k,
{
    if k > 0 {
        lemma_chain_has_atom(place, tokens, edo, k - 1);
    }
}

/// A chain that has gone wrong stays wrong, with the equal division that
/// was in force then.
pub proof fn lemma_failed_stays(place: ChainPlace, tokens: Seq<ChainToken>, edo: u16, i: int, k: int)
    requires
        0 <= i <= k,
        chain_state(place, tokens, edo, i).failed,
    ensures
        chain_state(place, tokens, edo, k) == chain_state(place, tokens, edo, i),
    decreases k,
{
    if i < k {
        lemma_failed_stays(place, tokens, edo, i, k - 1);
    }
}

impl Compiler {
    /// Reads the tokens of a pitch chain as far as they go: the atoms, and
    /// whether the chain has a link, unless the chain goes wrong or ends
    /// with `@`, of which an error tells.
    pub fn read_chain(
        &mut self,
        tokens: &Vec<SyntaxToken>,
        place: ChainPlace,
        range: TextRange,
    ) -> (r: Option<(Vec<Pitch>, bool)>)
        requires
            old(self).wf(),
            forall|i: int| 0 <= i < tokens@.len() ==> (#[trigger] tokens@[i]).wf(),
        ensures
            final(self).follows(old(self)),
            final(self).events == old(self).events,
            final(self).bases == old(self).bases,
            final(self).macros == old(self).macros,
            ({
                let st = chain_state(
                    place,
                    all_seen(tokens@, old(self).macros@),
                    old(self).state.edo_def,
                    tokens@.len() as int,
                );
                &&& final(self).state == (CompileState { edo_def: st.edo, ..old(self).state })
                &&& r is Some == (!st.failed && !st.expect)
                &&& r matches Some(read) ==> read.0@ == st.atoms && read.1 == st.linked
            }),
            r is Some ==> final(self).diagnostics == old(self).diagnostics,
            final(self).diagnostics@.len() <= old(self).diagnostics@.len() + 1,
            diagnostic_views(final(self).diagnostics@) == with_told(
                diagnostic_views(old(self).diagnostics@),
                read_trouble(
                    place,
                    all_seen(tokens@, old(self).macros@),
                    old(self).state.edo_def,
                    range,
                ),
            ),
    {
        let ghost facts = all_seen(tokens@, self.macros@);
        let ghost edo = self.state.edo_def;
        let formal = match place {
            ChainPlace::Note { formal } => formal,
            _ => false,
        };
        let is_tail = matches!(place, ChainPlace::Tail);
        let is_base = matches!(place, ChainPlace::Base);
        let mut pitch_atoms: Vec<Pitch> = Vec::new();
        let mut expect_pitch = !is_tail;
        let mut has_chain = false;
        let mut i: usize = 0;
        while i < tokens.len()
            invariant
                0 <= i <= tokens@.len(),
                forall|j: int| 0 <= j < tokens@.len() ==> (#[trigger] tokens@[j]).wf(),
                self.follows(old(self)),
                self.events == old(self).events,
                self.bases == old(self).bases,
                self.macros == old(self).macros,
                self.diagnostics == old(self).diagnostics,
                self.state == (CompileState { edo_def: self.state.edo_def, ..old(self).state }),
                facts == all_seen(tokens@, old(self).macros@),
                edo == old(self).state.edo_def,
                formal == (place matches ChainPlace::Note { formal: true }),
                is_tail == (place is Tail),
                is_base == (place is Base),
                chain_state(place, facts, edo, i as int) == (ChainState {
                    atoms: pitch_atoms@,
                    expect: expect_pitch,
                    linked: has_chain,
                    edo: self.state.edo_def,
                    failed: false,
                }),
            decreases tokens@.len() - i,
        {
            let token = &tokens[i];
            let kind = token.kind();
            let ghost before = chain_state(place, facts, edo, i as int);
            let ghost after = chain_state(place, facts, edo, i + 1);
            proof {
                assert(facts[i as int] == seen(*token, old(self).macros@));
                assert(after == chain_step(place, before, facts[i as int]));
            }
            let take_atom = if expect_pitch {
                kind.is_pitch() || kind.is_formal_pitch()
            } else {
                is_tail && pitch_atoms.len() == 0 && kind.is_pitch()
            };
            let take_name = if expect_pitch {
                !take_atom && kind == SyntaxKind::Identifier
            } else {
                is_tail && pitch_atoms.len() == 0 && !take_atom && kind == SyntaxKind::Identifier
            };
            if take_atom {
                match self.parse_pitch_atom(token, formal && expect_pitch) {
                    Some(pitch) => {
                        pitch_atoms.push(pitch);
                    },
                    None => {
                        proof {
                            lemma_failed_stays(place, facts, edo, i + 1, tokens@.len() as int);
                    lemma_trouble_stays(place, facts, edo, i + 1, tokens@.len() as int);
                            lemma_trouble_stays(place, facts, edo, i + 1, tokens@.len() as int);
                        }
                        return None;
                    },
                }
                expect_pitch = false;
            } else if take_name {
                let named = if is_base {
                    self.parse_pitch_chain_ident_as_chain_for_base_rhs(token)
                } else {
                    self.parse_pitch_chain_ident_as_chain(token)
                };
                match named {
                    Some(chain) => {
                        extend_chain(&mut pitch_atoms, &chain);
                    },
                    None => {
                        proof {
                            lemma_failed_stays(place, facts, edo, i + 1, tokens@.len() as int);
                    lemma_trouble_stays(place, facts, edo, i + 1, tokens@.len() as int);
                            lemma_trouble_stays(place, facts, edo, i + 1, tokens@.len() as int);
                        }
                        return None;
                    },
                }
                expect_pitch = false;
            } else if expect_pitch {
                let prefix = if is_tail {
                    "Expected pitch token after '@', got: "
                } else {
                    "Expected pitch token, got: "
                };
                self.error(message_with(prefix, token.text()), token.text_range());
                proof {
                    lemma_failed_stays(place, facts, edo, i + 1, tokens@.len() as int);
                    lemma_trouble_stays(place, facts, edo, i + 1, tokens@.len() as int);
                }
                return None;
            } else if kind == SyntaxKind::At {
                has_chain = true;
                expect_pitch = true;
            } else if kind == SyntaxKind::Plus {
                has_chain = true;
                pitch_atoms.push(Pitch::Ratio(Rational32(2, 1)));
            } else if kind == SyntaxKind::PitchSustain {
                has_chain = true;
                pitch_atoms.push(Pitch::Ratio(Rational32(1, 2)));
            } else {
                let prefix = if is_tail {
                    "Expected '+', '-', or '@' after macro invoke, got: "
                } else {
                    "Expected '@' in pitch chain, got: "
                };
                self.error(message_with(prefix, token.text()), token.text_range());
                proof {
                    lemma_failed_stays(place, facts, edo, i + 1, tokens@.len() as int);
                    lemma_trouble_stays(place, facts, edo, i + 1, tokens@.len() as int);
                }
                return None;
            }
            i += 1;
        }
        if expect_pitch {
            self.error(String::from_str("Pitch chain cannot end with '@'"), range);
            return None;
        }
        Some((pitch_atoms, has_chain))
    }

    /// The note that the chain on the right of a base pitch definition, or
    /// of an alias, spells. Rests and sustains may not stand in it, and its
    /// identifiers have to name aliases.
    pub fn parse_base_pitch_rhs_chain_tokens(
        &mut self,
        tokens: &Vec<SyntaxToken>,
        range: TextRange,
    ) -> (n: Option<Note>)
        requires
            old(self).wf(),
            forall|i: int| 0 <= i < tokens@.len() ==> (#[trigger] tokens@[i]).wf(),
        ensures
            final(self).follows(old(self)),
            final(self).events == old(self).events,
            final(self).bases == old(self).bases,
            final(self).macros == old(self).macros,
            tokens@.len() == 0 ==> n is None && *final(self) == *old(self),
            tokens@.len() > 0 ==> ({
                let st = chain_state(
                    ChainPlace::Base,
                    all_seen(tokens@, old(self).macros@),
                    old(self).state.edo_def,
                    tokens@.len() as int,
                );
                &&& final(self).state == (CompileState { edo_def: st.edo, ..old(self).state })
                &&& n is Some == chain_holds(ChainPlace::Base, st)
                &&& n matches Some(note) ==> note@ == (NoteView {
                    pitch_chain: st.atoms,
                    base: old(self).state.base,
                    duration: Rational32(0, 4),
                    duration_nanos: 0,
                })
            }),
            n is Some ==> final(self).diagnostics == old(self).diagnostics,
            final(self).diagnostics@.len() <= old(self).diagnostics@.len() + 1,
            diagnostic_views(final(self).diagnostics@) == with_told(
                diagnostic_views(old(self).diagnostics@),
                chain_trouble(
                    ChainPlace::Base,
                    all_seen(tokens@, old(self).macros@),
                    old(self).state.edo_def,
                    range,
                ),
            ),
    {
        if tokens.len() == 0 {
            return None;
        }
        match self.read_chain(tokens, ChainPlace::Base, range) {
            Some((pitch_atoms, _)) => self.eval_pitch_chain_pitches(&pitch_atoms, range),
            None => None,
        }
    }

    /// The note that a pitch chain spells. A rest or a sustain may stand
    /// alone where `allow_formal_single`; `+` stands for `@2/1` and `-`
    /// behind an atom for `@1/2`; an identifier stands for the chain of its
    /// alias.
    pub fn parse_pitch_chain_tokens(
        &mut self,
        tokens: &Vec<SyntaxToken>,
        allow_formal_single: bool,
        range: TextRange,
    ) -> (n: Option<Note>)
        requires
            old(self).wf(),
            forall|i: int| 0 <= i < tokens@.len() ==> (#[trigger] tokens@[i]).wf(),
        ensures
            final(self).follows(old(self)),
            final(self).events == old(self).events,
            final(self).bases == old(self).bases,
            final(self).macros == old(self).macros,
            tokens@.len() == 0 ==> n is None && *final(self) == *old(self),
            tokens@.len() > 0 ==> ({
                let place = ChainPlace::Note { formal: allow_formal_single };
                let st = chain_state(
                    place,
                    all_seen(tokens@, old(self).macros@),
                    old(self).state.edo_def,
                    tokens@.len() as int,
                );
                &&& final(self).state == (CompileState { edo_def: st.edo, ..old(self).state })
                &&& n is Some == chain_holds(place, st)
                &&& n matches Some(note) ==> note@ == (NoteView {
                    pitch_chain: st.atoms,
                    base: old(self).state.base,
                    duration: Rational32(0, 4),
                    duration_nanos: 0,
                })
            }),
            n matches Some(note) ==> note@.pitch_chain.len() >= 1,
            n is Some ==> final(self).diagnostics == old(self).diagnostics,
            final(self).diagnostics@.len() <= old(self).diagnostics@.len() + 1,
            diagnostic_views(final(self).diagnostics@) == with_told(
                diagnostic_views(old(self).diagnostics@),
                chain_trouble(
                    ChainPlace::Note { formal: allow_formal_single },
                    all_seen(tokens@, old(self).macros@),
                    old(self).state.edo_def,
                    range,
                ),
            ),
    {
        if tokens.len() == 0 {
            return None;
        }
        let place = ChainPlace::Note { formal: allow_formal_single };
        let (pitch_atoms, has_chain) = match self.read_chain(tokens, place, range) {
            Some(read) => read,
            None => {
                return None;
            },
        };
        proof {
            lemma_chain_has_atom(
                place,
                all_seen(tokens@, old(self).macros@),
                old(self).state.edo_def,
                tokens@.len() as int,
            );
        }
        if has_chain && has_formal(&pitch_atoms) {
            self.error(String::from_str("rest/sustain cannot be used inside pitch chain"), range);
            return None;
        }
        Some(
            Note {
                pitch_chain: pitch_atoms,
                base: self.state.base,
                duration: Rational32(0, 4),
                duration_nanos: 0,
            },
        )
    }

    /// The chain behind the name of a macro call: what the call moves the
    /// macro's notes by.
    pub fn parse_macro_invoke_tail_tokens(&mut self, tokens: &Vec<SyntaxToken>, range: TextRange) -> (c:
        Option<Vec<Pitch>>)
        requires
            old(self).wf(),
            forall|i: int| 0 <= i < tokens@.len() ==> (#[trigger] tokens@[i]).wf(),
        ensures
            final(self).follows(old(self)),
            final(self).events == old(self).events,
            final(self).bases == old(self).bases,
            final(self).macros == old(self).macros,
            tokens@.len() == 0 ==> c is None && *final(self) == *old(self),
            tokens@.len() > 0 ==> ({
                let st = chain_state(
                    ChainPlace::Tail,
                    all_seen(tokens@, old(self).macros@),
                    old(self).state.edo_def,
                    tokens@.len() as int,
                );
                &&& final(self).state == (CompileState { edo_def: st.edo, ..old(self).state })
                &&& c is Some == chain_holds(ChainPlace::Tail, st)
                &&& c matches Some(chain) ==> chain@ == st.atoms
            }),
            c matches Some(chain) ==> chain@.len() >= 1,
            c is Some ==> final(self).diagnostics == old(self).diagnostics,
            final(self).diagnostics@.len() <= old(self).diagnostics@.len() + 1,
            diagnostic_views(final(self).diagnostics@) == with_told(
                diagnostic_views(old(self).diagnostics@),
                chain_trouble(
                    ChainPlace::Tail,
                    all_seen(tokens@, old(self).macros@),
                    old(self).state.edo_def,
                    range,
                ),
            ),
    {
        if tokens.len() == 0 {
            return None;
        }
        match self.read_chain(tokens, ChainPlace::Tail, range) {
            Some((pitch_atoms, _)) => {
                if pitch_atoms.len() == 0 {
                    None
                } else {
                    Some(pitch_atoms)
                }
            },
            None => None,
        }
    }

    /// The duration that the bracketed token `t` names; an error where it
    /// names none.
    pub fn parse_duration_fraction(&mut self, t: &SyntaxToken) -> (d: Option<Rational32>)
        requires
            old(self).wf(),
            t.wf(),
        ensures
            final(self).follows(old(self)),
            final(self).events == old(self).events,
            final(self).state == old(self).state,
            final(self).bases == old(self).bases,
            final(self).macros == old(self).macros,
            d == duration_of(t.bytes()),
            d is Some ==> final(self).diagnostics == old(self).diagnostics,
            d is None ==> final(self).diagnostics@.len() == old(self).diagnostics@.len() + 1
                && final(self).diagnostics@.last()@ == (
                DiagnosticLevel::Error,
                "Invalid duration format: "@ + t.text_view(),
                t.tree.tokens@[t.index as int].range,
            ),
            diagnostic_views(final(self).diagnostics@) == with_told(
                diagnostic_views(old(self).diagnostics@),
                if d is None {
                    Some(
                        error_of(
                            "Invalid duration format: "@ + t.text_view(),
                            t.tree.tokens@[t.index as int].range,
                        ),
                    )
                } else {
                    None
                },
            ),
    {
        let text = t.text();
        let rs = read_duration(text);
        if rs.is_none() {
            self.error(message_with("Invalid duration format: ", text), t.text_range());
        }
        rs
    }

    /// The number of commas in the token `t`.
    pub fn parse_duration_commas(&mut self, t: &SyntaxToken) -> (c: Option<u32>)
        requires
            t.wf(),
        ensures
            *final(self) == *old(self),
            0 <= count_of(t.bytes(), 0x2C, t.bytes().len() as int),
            c == if count_of(t.bytes(), 0x2C, t.bytes().len() as int) <= u32::MAX {
                Some(count_of(t.bytes(), 0x2C, t.bytes().len() as int) as u32)
            } else {
                None
            },
    {
        count_commas(t.text())
    }
}

/// The duration that the note at place `i` of a group takes over when it
/// names none: that of the next note to its right that names one, or the
/// quantize if there is none.
pub open spec fn carried(durations: Seq<Rational32>, quantize: Rational32, i: int) -> Rational32
    decreases durations.len() - i,
{
    if i + 1 >= durations.len() || i < -1 {
        quantize
    } else if durations[i + 1].0 != 0 {
        durations[i + 1]
    } else {
        carried(durations, quantize, i + 1)
    }
}

/// The note `n` of a group with the duration `d` given to it if it names
/// none.
pub open spec fn filled(n: NoteView, d: Rational32, state: CompileState) -> NoteView {
    if n.duration.0 == 0 {
        NoteView {
            duration: d,
            duration_nanos: clamped(exact_nanos(d, state.beat_duration, state.bpm)),
            ..n
        }
    } else {
        n
    }
}

/// The durations of the notes of `group`; zero for an event that is no
/// note.
pub open spec fn durations_of(group: Seq<CompileEventView>) -> Seq<Rational32> {
    group.map_values(
        |e: CompileEventView|
            match e.body {
                EventBodyView::Note(n) => n.duration,
                _ => Rational32(0, 1),
            },
    )
}

/// The event that a group puts on the time line for its note at place `i`.
pub open spec fn submitted(group: Seq<CompileEventView>, state: CompileState, i: int) -> CompileEventView {
    CompileEventView {
        body: match group[i].body {
            EventBodyView::Note(n) => EventBodyView::Note(
                filled(n, carried(durations_of(group), state.quantize, i), state),
            ),
            other => other,
        },
        start_time: state.time,
        range: group[i].range,
        range_invoked: None,
    }
}

/// The bytes that node `i` of a tree covers.
pub open spec fn span_of(tree: &GreenNode, i: int) -> TextRange {
    TextRange { start: tree.node_range(i).0 as u32, end: tree.node_range(i).1 as u32 }
}

/// The atoms of a chain, if there is one.
pub open spec fn chain_view(chain: Option<Vec<Pitch>>) -> Option<Seq<Pitch>> {
    match chain {
        Some(c) => Some(c@),
        None => None,
    }
}

/// A note that a macro holds: its chain and its base pitch, and, in a
/// macro of events, when it sounds there, where it stands in the source,
/// and how long it lasts.
pub struct Stored {
    pub chain: Seq<Pitch>,
    pub base: usize,
    pub placed: Option<(TimeStamp, TextRange, Rational32, i64)>,
}

/// The number of items that a macro holds: an alias holds one chain.
pub open spec fn stored_count(def: MacroDefView) -> int {
    match def {
        MacroDefView::Alias(_) => 1,
        MacroDefView::Simple(list) => list.len() as int,
        MacroDefView::Complex(list) => list.len() as int,
    }
}

/// The note at place `k` of a macro, if what stands there is a note. The
/// chain of an alias is read under the base pitch `base`.
pub open spec fn stored_at(def: MacroDefView, k: int, base: usize) -> Option<Stored> {
    match def {
        MacroDefView::Alias(chain) => Some(Stored { chain, base, placed: None }),
        MacroDefView::Simple(list) => Some(
            Stored { chain: list[k].pitch_chain, base: list[k].base, placed: None },
        ),
        MacroDefView::Complex(list) => match list[k].body {
            EventBodyView::Note(note) => Some(
                Stored {
                    chain: note.pitch_chain,
                    base: note.base,
                    placed: Some(
                        (list[k].start_time, list[k].range, note.duration, note.duration_nanos),
                    ),
                },
            ),
            _ => None,
        },
    }
}

/// The chain of a stored note when the macro is called with the chain
/// `anchor` behind its name: the stored chain with the anchor behind it. A
/// rest or a sustain stays as it is. An alias that spells no note on its
/// own gives none, and neither does an empty chain.
pub open spec fn moved(s: Stored, is_alias: bool, anchor: Option<Seq<Pitch>>) -> Option<Seq<Pitch>> {
    if is_alias && !readable(s.chain) {
        None
    } else if joined(s, anchor).len() == 0 {
        None
    } else {
        Some(joined(s, anchor))
    }
}

/// The chain of a stored note with the chain `anchor` behind it; a rest or
/// a sustain stays as it is.
pub open spec fn joined(s: Stored, anchor: Option<Seq<Pitch>>) -> Seq<Pitch> {
    match anchor {
        Some(a) => if s.chain.len() == 1 && s.chain[0].is_formal() {
            s.chain
        } else {
            s.chain + a
        },
        None => s.chain,
    }
}

/// What is said of a rest or a sustain among the atoms of `chain`.
pub open spec fn among(chain: Seq<Pitch>, range: TextRange) -> Seq<
    (DiagnosticLevel, Seq<char>, TextRange),
> {
    if chain.len() > 1 && !readable(chain) {
        seq![error_of("rest/sustain cannot be used inside pitch chain"@, range)]
    } else {
        Seq::empty()
    }
}

/// What is said of one stored note when the macro is called: that a rest
/// or a sustain stands among its atoms, before or behind the anchor, and
/// that its time does not fit the range of numbers.
pub open spec fn item_told(
    s: Stored,
    is_alias: bool,
    anchor: Option<Seq<Pitch>>,
    state: CompileState,
    range: TextRange,
    whole: TextRange,
) -> Seq<(DiagnosticLevel, Seq<char>, TextRange)> {
    if is_alias && !readable(s.chain) {
        among(s.chain, range)
    } else {
        let chain = joined(s, anchor);
        let read = among(
            chain,
            if s.placed is Some {
                whole
            } else {
                range
            },
        );
        match s.placed {
            Some(p) => if chain.len() > 0 && time_after(state.time, p.0) is None {
                read.push(error_of("Time does not fit the range of numbers"@, whole))
            } else {
                read
            },
            None => read,
        }
    }
}

/// What is said of the first `k` items of a macro when it is called.
pub open spec fn call_told(
    def: MacroDefView,
    anchor: Option<Seq<Pitch>>,
    state: CompileState,
    range: TextRange,
    whole: TextRange,
    k: int,
) -> Seq<(DiagnosticLevel, Seq<char>, TextRange)>
    decreases k,
{
    if k <= 0 {
        Seq::empty()
    } else {
        let before = call_told(def, anchor, state, range, whole, k - 1);
        match stored_at(def, k - 1, state.base) {
            Some(s) => before + item_told(s, def is Alias, anchor, state, range, whole),
            None => before,
        }
    }
}

/// The base pitch of a called note: the one in force where the chain can
/// be read, else the one that the macro stored.
pub open spec fn moved_base(s: Stored, chain: Seq<Pitch>, base: usize) -> usize {
    if readable(chain) {
        base
    } else {
        s.base
    }
}

/// The time `offset` after `now`, if it fits the range of numbers.
pub open spec fn time_after(now: TimeStamp, offset: TimeStamp) -> Option<TimeStamp> {
    if now.ticks.sum_fits(offset.ticks) && i64::MIN <= now.nanos + offset.nanos <= i64::MAX
        && now.bars + offset.bars <= u32::MAX {
        Some(
            TimeStamp {
                nanos: (now.nanos + offset.nanos) as i64,
                bars: (now.bars + offset.bars) as u32,
                ticks: now.ticks.sum(offset.ticks),
            },
        )
    } else {
        None
    }
}

/// The notes that the call of a macro gives back for the first `k` items
/// of the macro: those of an alias or a list of notes, each with the
/// duration `d`.
pub open spec fn call_notes(
    def: MacroDefView,
    anchor: Option<Seq<Pitch>>,
    d: Rational32,
    state: CompileState,
    k: int,
) -> Seq<NoteView>
    decreases k,
{
    if k <= 0 {
        Seq::empty()
    } else {
        let before = call_notes(def, anchor, d, state, k - 1);
        match stored_at(def, k - 1, state.base) {
            Some(s) => match moved(s, def is Alias, anchor) {
                Some(chain) => if s.placed is None {
                    before.push(
                        NoteView {
                            pitch_chain: chain,
                            base: moved_base(s, chain, state.base),
                            duration: d,
                            duration_nanos: clamped(exact_nanos(d, state.beat_duration, state.bpm)),
                        },
                    )
                } else {
                    before
                },
                None => before,
            },
            None => before,
        }
    }
}

/// The events that the call of a macro of events puts on the time line
/// for the first `k` events of the macro: its notes, each as long as the
/// macro says and as far from the time of the state as it is from the
/// start of the macro. A note whose time does not fit is left out.
pub open spec fn call_events(
    def: MacroDefView,
    anchor: Option<Seq<Pitch>>,
    state: CompileState,
    whole: TextRange,
    k: int,
) -> Seq<CompileEventView>
    decreases k,
{
    if k <= 0 {
        Seq::empty()
    } else {
        let before = call_events(def, anchor, state, whole, k - 1);
        match stored_at(def, k - 1, state.base) {
            Some(s) => match moved(s, def is Alias, anchor) {
                Some(chain) => match s.placed {
                    Some(p) => match time_after(state.time, p.0) {
                        Some(start_time) => before.push(
                            CompileEventView {
                                body: EventBodyView::Note(
                                    NoteView {
                                        pitch_chain: chain,
                                        base: moved_base(s, chain, state.base),
                                        duration: p.2,
                                        duration_nanos: p.3,
                                    },
                                ),
                                start_time,
                                range: p.1,
                                range_invoked: Some(whole),
                            },
                        ),
                        None => before,
                    },
                    None => before,
                },
                None => before,
            },
            None => before,
        }
    }
}

/// The kind of a leaf.
pub open spec fn leaf_kind(t: SyntaxToken) -> SyntaxKind {
    t.tree.tokens@[t.index as int].kind
}

/// The leaves of the chain behind the name of a macro call: the chain
/// leaves of the call without the name and the `@` at their start.
pub open spec fn call_tail<'a>(node: SyntaxNode<'a>) -> Seq<SyntaxToken<'a>> {
    let all = chain_leaves(node);
    let named = if all.len() > 0 && leaf_kind(all[0]) == SyntaxKind::Identifier {
        all.remove(0)
    } else {
        all
    };
    if named.len() > 0 && leaf_kind(named[0]) == SyntaxKind::At {
        named.remove(0)
    } else {
        named
    }
}

impl Compiler {
    /// Puts the notes of a group on the time line, all at the time of the
    /// state, and moves the time on by the quantize. A note that names no
    /// duration takes that of the next note to its right that names one, or
    /// the quantize.
    pub fn submit_note_sub_group(&mut self, cur_sub_group: &mut Vec<CompileEvent>)
        requires
            old(self).wf(),
        ensures
            final(self).follows(old(self)),
            final(self).bases == old(self).bases,
            final(self).macros == old(self).macros,
            final(cur_sub_group)@.len() == 0,
            event_views(final(self).events@) == event_views(old(self).events@) + Seq::new(
                old(cur_sub_group)@.len(),
                |i: int| submitted(event_views(old(cur_sub_group)@), old(self).state, i),
            ),
            final(self).walk() == submit(old(self).walk(), event_views(old(cur_sub_group)@)),
            match old(self).state.time.later(old(self).state.quantize, old(self).state) {
                Some(t) => final(self).state == (CompileState { time: t, ..old(self).state })
                    && final(self).diagnostics == old(self).diagnostics,
                None => final(self).state == old(self).state && final(self).diagnostics@.len()
                    == old(self).diagnostics@.len() + 1,
            },
    {
        let n = cur_sub_group.len();
        let ghost group = event_views(cur_sub_group@);
        let ghost durations = durations_of(group);
        let quantize = self.state.quantize;
        // What each note takes over, from right to left.
        let mut taken: Vec<Rational32> = Vec::new();
        let mut i: usize = 0;
        while i < n
            invariant
                0 <= i <= n,
                taken@.len() == i,
            decreases n - i,
        {
            taken.push(quantize);
            i += 1;
        }
        let mut cur_dur = quantize;
        let mut i = n;
        while i > 0
            invariant
                0 <= i <= n,
                n == group.len(),
                group == event_views(cur_sub_group@),
                durations == durations_of(group),
                taken@.len() == n,
                cur_dur == carried(durations, quantize, i - 1),
                forall|j: int| i <= j < n ==> #[trigger] taken@[j] == carried(durations, quantize, j),
            decreases i,
        {
            i -= 1;
            taken.set(i, cur_dur);
            if let EventBody::Note(note) = &cur_sub_group[i].body {
                if note.duration.0 != 0 {
                    cur_dur = note.duration;
                }
            }
        }
        let ghost start = event_views(self.events@);
        let mut i: usize = 0;
        while i < n
            invariant
                0 <= i <= n,
                n == group.len(),
                group == event_views(cur_sub_group@),
                taken@.len() == n,
                forall|j: int| 0 <= j < n ==> #[trigger] taken@[j] == carried(durations, quantize, j),
                durations == durations_of(group),
                quantize == old(self).state.quantize,
                self.state == old(self).state,
                self.diagnostics == old(self).diagnostics,
                self.bases == old(self).bases,
                self.macros == old(self).macros,
                is_prefix(old(self).events@, self.events@),
                start == event_views(old(self).events@),
                event_views(self.events@) == start + Seq::new(
                    i as nat,
                    |x: int| submitted(group, old(self).state, x),
                ),
            decreases n - i,
        {
            let event = &cur_sub_group[i];
            let body = match &event.body {
                EventBody::Note(note) => {
                    let mut note = note.copy();
                    if note.duration.0 == 0 {
                        note.set_duration(taken[i], &self.state);
                    }
                    EventBody::Note(note)
                },
                other => other.copy(),
            };
            let ghost seen = event_views(self.events@);
            self.push_event(body, event.range);
            proof {
                assert(event_views(self.events@) =~= seen.push(submitted(group, old(self).state, i as int)));
                assert(start + Seq::new((i + 1) as nat, |x: int| submitted(group, old(self).state, x))
                    =~= (start + Seq::new(i as nat, |x: int| submitted(group, old(self).state, x))).push(
                    submitted(group, old(self).state, i as int),
                ));
            }
            i += 1;
        }
        cur_sub_group.clear();
        self.advance(quantize, TextRange::default());
    }

    /// The notes that the note node `n` stands for, each with the duration
    /// that the node names, or with none. A pitch chain gives one note; the
    /// call of an alias gives one, that of a list of notes gives the notes
    /// of the list, each moved by the chain behind the name. The call of a
    /// macro of events puts the notes among its events on the time line,
    /// counted from the time of the state, and gives no note.
    pub fn parse_note(&mut self, n: &SyntaxNode) -> (notes: Option<Vec<Note>>)
        requires
            old(self).wf(),
            n.wf(),
        ensures
            final(self).follows(old(self)),
            final(self).bases == old(self).bases,
            final(self).macros == old(self).macros,
            final(self).state == (CompileState {
                edo_def: final(self).state.edo_def,
                ..old(self).state
            }),
            notes matches Some(v) ==> forall|i: int|
                0 <= i < v@.len() ==> (#[trigger] v@[i])@.pitch_chain.len() >= 1,
            final(self).walk() == noted(*n, old(self).walk()).0,
            match notes {
                Some(v) => noted(*n, old(self).walk()).1 == Some(note_views(v@)),
                None => noted(*n, old(self).walk()).1 is None,
            },
    {
        let duration = self.note_duration(n);
        match find_invoke(n) {
            Some(node) => Some(self.call(&node, n, duration)),
            None => self.spell(n, duration),
        }
    }

    /// The notes that the call `node` of a macro in the note node `n`
    /// gives.
    fn call(&mut self, node: &SyntaxNode, n: &SyntaxNode, duration: Rational32) -> (notes: Vec<Note>)
        requires
            old(self).wf(),
            n.wf(),
            node.wf(),
            node.tree == n.tree,
            node.source == n.source,
        ensures
            final(self).follows(old(self)),
            final(self).bases == old(self).bases,
            final(self).macros == old(self).macros,
            final(self).state == (CompileState {
                edo_def: final(self).state.edo_def,
                ..old(self).state
            }),
            forall|i: int| 0 <= i < notes@.len() ==> (#[trigger] notes@[i])@.pitch_chain.len() >= 1,
            (final(self).walk(), Some(note_views(notes@))) == called(
                *n,
                node.index as int,
                duration,
                old(self).walk(),
            ),
    {
        let mut notes: Vec<Note> = Vec::new();
        proof {
            assert(note_views(notes@) =~= Seq::<NoteView>::empty());
            assert(*node == node_at(*n, node.index));
        }
        let ident_token = match child_token(node, SyntaxKind::Identifier, SyntaxKind::Identifier) {
            Some(t) => t,
            None => {
                self.error(
                    String::from_str("Macro invoke node must have an identifier token"),
                    node.text_range(),
                );
                return notes;
            },
        };
        let ident = ident_token.text();
        let arg_chain_tokens = tail_tokens(node);
        let anchor = self.parse_macro_invoke_tail_tokens(&arg_chain_tokens, node.text_range());
        match self.macros.find(ident) {
            Some(found) => {
                self.invoke(found, &anchor, duration, node, n, &mut notes);
                proof {
                    let def = self.macros@[found as int].def;
                    assert(note_views(notes@) =~= call_notes(
                        def,
                        chain_view(anchor),
                        duration,
                        self.state,
                        stored_count(def),
                    ));
                }
            },
            None => {
                self.error(message_with("Undefined macro invoked: ", ident), node.text_range());
            },
        }
        notes
    }

    /// The note that the pitch chain of the note node `n` spells, in a
    /// list; no list where the node has no chain.
    fn spell(&mut self, n: &SyntaxNode, duration: Rational32) -> (notes: Option<Vec<Note>>)
        requires
            old(self).wf(),
            n.wf(),
        ensures
            final(self).follows(old(self)),
            final(self).events == old(self).events,
            final(self).bases == old(self).bases,
            final(self).macros == old(self).macros,
            final(self).state == (CompileState {
                edo_def: final(self).state.edo_def,
                ..old(self).state
            }),
            notes matches Some(v) ==> forall|i: int|
                0 <= i < v@.len() ==> (#[trigger] v@[i])@.pitch_chain.len() >= 1,
            final(self).walk() == spelled(*n, duration, old(self).walk()).0,
            match notes {
                Some(v) => spelled(*n, duration, old(self).walk()).1 == Some(note_views(v@)),
                None => spelled(*n, duration, old(self).walk()).1 is None,
            },
    {
        let chain_node = match child_node(n, SyntaxKind::NODE_PITCH_CHAIN) {
            Some(c) => c,
            None => {
                self.error(String::from_str("Note must have a pitch chain node"), n.text_range());
                return None;
            },
        };
        let tokens = chain_tokens(&chain_node);
        if tokens.len() == 0 {
            self.error(
                String::from_str("Note must have a pitch token or macro invoke node"),
                chain_node.text_range(),
            );
            return None;
        }
        let mut notes: Vec<Note> = Vec::new();
        if let Some(mut note) = self.parse_pitch_chain_tokens(&tokens, true, chain_node.text_range()) {
            note.set_duration(duration, &self.state);
            notes.push(note);
        }
        proof {
            assert(note_views(notes@) =~= if notes@.len() == 1 {
                seq![notes@[0]@]
            } else {
                Seq::empty()
            });
        }
        Some(notes)
    }

    /// The duration that the note node `n` names: `[,,]` stands for the
    /// quantize times one more than the number of commas, `[n:d]` for
    /// `n/d`. Without either, and where the number does not fit, the
    /// duration is zero, which stands for none.
    pub fn note_duration(&mut self, n: &SyntaxNode) -> (d: Rational32)
        requires
            old(self).wf(),
            n.wf(),
        ensures
            final(self).follows(old(self)),
            final(self).events == old(self).events,
            final(self).state == old(self).state,
            final(self).bases == old(self).bases,
            final(self).macros == old(self).macros,
            d.1 != 0,
            d == named_duration(
                n.tree,
                n.source.spec_bytes(),
                n.index as int,
                old(self).state.quantize,
            ),
            final(self).diagnostics@.len() <= old(self).diagnostics@.len() + 1,
            diagnostic_views(final(self).diagnostics@) == with_told(
                diagnostic_views(old(self).diagnostics@),
                duration_trouble(
                    n.tree,
                    n.source.spec_bytes(),
                    n.index as int,
                    old(self).state.quantize,
                ),
            ),
    {
        match child_token(n, SyntaxKind::DurationCommas, SyntaxKind::DurationFraction) {
            Some(t) => {
                proof {
                    assert(t.bytes() == leaf_bytes(n.tree, n.source.spec_bytes(), t.index as int));
                    assert(first_leaf_of(
                        n.tree,
                        n.index as int,
                        SyntaxKind::DurationCommas,
                        SyntaxKind::DurationFraction,
                        0,
                    ) == Some(t.index));
                }
                if t.kind() == SyntaxKind::DurationCommas {
                    let quantize = self.state.quantize;
                    let product = match self.parse_duration_commas(&t) {
                        Some(c) => {
                            if c < 0x7FFF_FFFF {
                                let times = Rational32((c + 1) as i32, 1);
                                proof {
                                    if quantize.product_fits(times) {
                                        quantize.lemma_product_exact(times);
                                    }
                                }
                                quantize.checked_mul(times)
                            } else {
                                None
                            }
                        },
                        None => None,
                    };
                    match product {
                        Some(d) => d,
                        None => {
                            self.error(
                                String::from_str("Duration does not fit the range of numbers"),
                                t.text_range(),
                            );
                            Rational32::zero()
                        },
                    }
                } else {
                    match self.parse_duration_fraction(&t) {
                        Some(d) => d,
                        None => Rational32::zero(),
                    }
                }
            },
            None => Rational32::zero(),
        }
    }

    /// Calls the macro at place `found` of the registry: the notes that
    /// the macro holds, each moved by the chain `anchor`, go to `notes`
    /// with the duration `duration`, or, from a macro of events, onto the
    /// time line, counted from the time of the state.
    fn invoke(
        &mut self,
        found: usize,
        anchor: &Option<Vec<Pitch>>,
        duration: Rational32,
        node: &SyntaxNode,
        n: &SyntaxNode,
        notes: &mut Vec<Note>,
    )
        requires
            old(self).wf(),
            found < old(self).macros.entries@.len(),
            node.wf(),
            n.wf(),
            forall|i: int|
                0 <= i < old(notes)@.len() ==> (#[trigger] old(notes)@[i])@.pitch_chain.len() >= 1,
        ensures
            final(self).follows(old(self)),
            final(self).bases == old(self).bases,
            final(self).macros == old(self).macros,
            final(self).state == old(self).state,
            forall|i: int|
                0 <= i < final(notes)@.len() ==> (#[trigger] final(notes)@[i])@.pitch_chain.len()
                    >= 1,
            note_views(final(notes)@) == note_views(old(notes)@) + call_notes(
                old(self).macros@[found as int].def,
                chain_view(*anchor),
                duration,
                old(self).state,
                stored_count(old(self).macros@[found as int].def),
            ),
            event_views(final(self).events@) == event_views(old(self).events@) + call_events(
                old(self).macros@[found as int].def,
                chain_view(*anchor),
                old(self).state,
                span_of(n.tree, n.index as int),
                stored_count(old(self).macros@[found as int].def),
            ),
            diagnostic_views(final(self).diagnostics@) == diagnostic_views(
                old(self).diagnostics@,
            ) + call_told(
                old(self).macros@[found as int].def,
                chain_view(*anchor),
                old(self).state,
                span_of(node.tree, node.index as int),
                span_of(n.tree, n.index as int),
                stored_count(old(self).macros@[found as int].def),
            ),
    {
        let range = node.text_range();
        let whole = n.text_range();
        let count = match &self.macros.entries[found].def {
            MacroDef::Alias(_) => 1,
            MacroDef::Simple(stored) => stored.len(),
            MacroDef::Complex(stored) => stored.len(),
        };
        let ghost def = self.macros@[found as int].def;
        let ghost av = chain_view(*anchor);
        let ghost state = self.state;
        let mut k: usize = 0;
        proof {
            assert(note_views(notes@) =~= note_views(old(notes)@) + call_notes(
                def,
                av,
                duration,
                state,
                0,
            ));
            assert(event_views(self.events@) =~= event_views(old(self).events@) + call_events(
                def,
                av,
                state,
                whole,
                0,
            ));
            assert(diagnostic_views(self.diagnostics@) =~= diagnostic_views(
                old(self).diagnostics@,
            ) + call_told(def, av, state, range, whole, 0));
        }
        while k < count
            invariant
                0 <= k <= count,
                found < self.macros.entries@.len(),
                count == stored_count(def),
                def == self.macros@[found as int].def,
                av == chain_view(*anchor),
                state == self.state,
                whole == span_of(n.tree, n.index as int),
                range == span_of(node.tree, node.index as int),
                diagnostic_views(self.diagnostics@) == diagnostic_views(old(self).diagnostics@)
                    + call_told(def, av, state, range, whole, k as int),
                self.follows(old(self)),
                self.bases == old(self).bases,
                self.macros == old(self).macros,
                self.state == old(self).state,
                forall|i: int| 0 <= i < notes@.len() ==> (#[trigger] notes@[i])@.pitch_chain.len() >= 1,
                note_views(notes@) == note_views(old(notes)@) + call_notes(
                    def,
                    av,
                    duration,
                    state,
                    k as int,
                ),
                event_views(self.events@) == event_views(old(self).events@) + call_events(
                    def,
                    av,
                    state,
                    whole,
                    k as int,
                ),
            decreases count - k,
        {
            // The chain of the stored note, and where the note comes from.
            let stored: Option<(Vec<Pitch>, usize, Option<(TimeStamp, TextRange)>)> =
                match &self.macros.entries[found].def {
                MacroDef::Alias(chain) => Some((copy_chain(chain), self.state.base, None)),
                MacroDef::Simple(list) => Some(
                    (copy_chain(&list[k].pitch_chain), list[k].base, None),
                ),
                MacroDef::Complex(list) => match &list[k].body {
                    EventBody::Note(note) => Some(
                        (
                            copy_chain(&note.pitch_chain),
                            note.base,
                            Some((list[k].start_time, list[k].range)),
                        ),
                    ),
                    _ => None,
                },
            };
            let is_alias = matches!(&self.macros.entries[found].def, MacroDef::Alias(_));
            let kept = match &self.macros.entries[found].def {
                MacroDef::Complex(list) => match &list[k].body {
                    EventBody::Note(note) => (note.duration, note.duration_nanos),
                    _ => (duration, 0),
                },
                _ => (duration, 0),
            };
            let ghost at = k as int;
            let ghost seen_notes = note_views(notes@);
            let ghost seen_events = event_views(self.events@);
            let ghost seen_told = diagnostic_views(self.diagnostics@);
            k += 1;
            if let Some((mut chain, stored_base, placed)) = stored {
                // An alias is read before the chain behind its name is put
                // behind it: it has to spell a note on its own.
                let spelled = !is_alias || self.eval_pitch_chain_pitches(&chain, range).is_some();
                if spelled {
                    let formal = chain.len() == 1 && matches!(chain[0], Pitch::Rest | Pitch::Sustain);
                    if let Some(anchor_chain) = anchor {
                        if !formal {
                            extend_chain(&mut chain, anchor_chain);
                        }
                    }
                    let read_at = if placed.is_some() {
                        whole
                    } else {
                        range
                    };
                    let base = match self.eval_pitch_chain_pitches(&chain, read_at) {
                        Some(live) => live.base,
                        None => stored_base,
                    };
                    proof {
                        assert(chain@ == joined(stored_at(def, at, state.base).unwrap(), av));
                    }
                    if chain.len() > 0 {
                        match placed {
                            None => {
                                let mut note = Note {
                                    pitch_chain: chain,
                                    base,
                                    duration,
                                    duration_nanos: 0,
                                };
                                note.set_duration(duration, &self.state);
                                let ghost made = note@;
                                notes.push(note);
                                proof {
                                    assert(note_views(notes@) =~= seen_notes.push(made));
                                }
                            },
                            Some((offset, origin)) => {
                                let note = Note {
                                    pitch_chain: chain,
                                    base,
                                    duration: kept.0,
                                    duration_nanos: kept.1,
                                };
                                let now = self.state.time;
                                let nanos = now.nanos as i128 + offset.nanos as i128;
                                let bars = now.bars as u64 + offset.bars as u64;
                                match now.ticks.checked_add(offset.ticks) {
                                    Some(ticks) if -0x8000_0000_0000_0000 <= nanos && nanos
                                        <= 0x7FFF_FFFF_FFFF_FFFF && bars <= 0xFFFF_FFFF => {
                                        let event = CompileEvent {
                                            body: EventBody::Note(note),
                                            start_time: TimeStamp {
                                                nanos: nanos as i64,
                                                bars: bars as u32,
                                                ticks,
                                            },
                                            range: origin,
                                            range_invoked: Some(whole),
                                        };
                                        let ghost made = event@;
                                        self.events.push(event);
                                        proof {
                                            assert(event_views(self.events@) =~= seen_events.push(
                                                made,
                                            ));
                                        }
                                    },
                                    _ => {
                                        self.error(
                                            String::from_str(
                                                "Time does not fit the range of numbers",
                                            ),
                                            whole,
                                        );
                                    },
                                }
                            },
                        }
                    }
                }
            }
            proof {
                assert(note_views(notes@) == note_views(old(notes)@) + call_notes(
                    def,
                    av,
                    duration,
                    state,
                    at + 1,
                ));
                assert(event_views(self.events@) == event_views(old(self).events@) + call_events(
                    def,
                    av,
                    state,
                    whole,
                    at + 1,
                ));
                match stored_at(def, at, state.base) {
                    Some(s) => {
                        assert(diagnostic_views(self.diagnostics@) =~= seen_told + item_told(
                            s,
                            is_alias,
                            av,
                            state,
                            range,
                            whole,
                        ));
                    },
                    None => {},
                }
                assert(diagnostic_views(self.diagnostics@) =~= diagnostic_views(
                    old(self).diagnostics@,
                ) + call_told(def, av, state, range, whole, at + 1));
            }
        }
    }
}

/// Node `j` is the call of a macro at or below node `i`.
pub open spec fn is_call(tree: &GreenNode, i: int, j: int) -> bool {
    0 <= j < tree.nodes@.len() && tree.in_subtree(i, j) && tree.nodes@[j].kind
        == SyntaxKind::NODE_MACRO_INVOKE
}

/// Node `c` is the first call of a macro at or below node `i`, in the
/// order in which nodes start.
pub open spec fn is_first_call(tree: &GreenNode, i: int, c: int) -> bool {
    is_call(tree, i, c) && forall|j: int| j < c ==> !is_call(tree, i, j)
}

/// The first call of a macro at or below node `i`, if there is one.
pub open spec fn first_call(tree: &GreenNode, i: int) -> Option<int> {
    if exists|c: int| is_first_call(tree, i, c) {
        Some(choose|c: int| is_first_call(tree, i, c))
    } else {
        None
    }
}

/// The first node at or below `n`, in the order in which nodes start, that
/// is the call of a macro.
pub fn find_invoke<'a>(n: &SyntaxNode<'a>) -> (r: Option<SyntaxNode<'a>>)
    requires
        n.wf(),
    ensures
        r matches Some(node) ==> node.wf() && node.tree == n.tree && node.source == n.source
            && is_call(n.tree, n.index as int, node.index as int) && forall|j: int|
            j < node.index ==> !is_call(n.tree, n.index as int, j),
        r is None ==> forall|j: int| !is_call(n.tree, n.index as int, j),
        match r {
            Some(node) => first_call(n.tree, n.index as int) == Some(node.index as int),
            None => first_call(n.tree, n.index as int) is None,
        },
{
    let below = n.descendants();
    let mut i: usize = 0;
    while i < below.len()
        invariant
            0 <= i <= below@.len(),
            forall|x: int|
                0 <= x < i ==> n.tree.nodes@[(#[trigger] below@[x]).index as int].kind
                    != SyntaxKind::NODE_MACRO_INVOKE,
            forall|x: int, y: int|
                0 <= x < y < below@.len() ==> (#[trigger] below@[x]).index < (
                #[trigger] below@[y]).index,
            forall|j: int|
                0 <= j < n.tree.nodes@.len() && n.tree.in_subtree(n.index as int, j)
                    ==> exists|x: int| 0 <= x < below@.len() && (#[trigger] below@[x]).index == j,
            forall|x: int|
                0 <= x < below@.len() ==> (#[trigger] below@[x]).wf() && below@[x].tree == n.tree
                    && below@[x].source == n.source && n.tree.in_subtree(
                    n.index as int,
                    below@[x].index as int,
                ),
        decreases below@.len() - i,
    {
        if below[i].kind() == SyntaxKind::NODE_MACRO_INVOKE {
            proof {
                assert forall|j: int| j < below@[i as int].index implies !is_call(
                    n.tree,
                    n.index as int,
                    j,
                ) by {
                    if is_call(n.tree, n.index as int, j) {
                        let x = choose|x: int|
                            0 <= x < below@.len() && (#[trigger] below@[x]).index == j;
                        assert(x < i);
                    }
                }
                let here = below@[i as int].index as int;
                assert(is_first_call(n.tree, n.index as int, here));
                let c = choose|c: int| is_first_call(n.tree, n.index as int, c);
                assert(!(c < here) && !(here < c));
            }
            return Some(below[i]);
        }
        i += 1;
    }
    proof {
        assert forall|j: int| !is_call(n.tree, n.index as int, j) by {
            if is_call(n.tree, n.index as int, j) {
                let x = choose|x: int| 0 <= x < below@.len() && (#[trigger] below@[x]).index == j;
                assert(x < i);
            }
        }
    }
    None
}

/// The number of parts that the notes of the node share the quantize in.
fn count_parts(n: &SyntaxNode) -> (c: u32)
    requires
        n.wf(),
    ensures
        c == parts_of(*n),
        1 <= c <= 0x7FFF_FFFF,
{
    if n.kind() != SyntaxKind::NODE_NOTE_GROUP {
        return 1;
    }
    let children = n.children_with_tokens();
    let mut sub_group_count: u32 = 1;
    let mut i: usize = 0;
    while i < children.len()
        invariant
            0 <= i <= children@.len(),
            n.wf(),
            children@.len() == n.child_elements().len(),
            forall|x: int|
                0 <= x < children@.len() ==> (#[trigger] children@[x]).wf()
                    && children@[x].element() == n.child_elements()[x] && children@[x].tree()
                    == n.tree,
            0 <= semicolons(*n, i as int),
            sub_group_count == if 1 + semicolons(*n, i as int) > 0x7FFF_FFFF {
                0x7FFF_FFFF
            } else {
                1 + semicolons(*n, i as int)
            },
        decreases children@.len() - i,
    {
        if let SyntaxElementRef::Token(t) = children[i] {
            if t.kind() == SyntaxKind::Semicolon && sub_group_count < 0x7FFF_FFFF {
                sub_group_count += 1;
            }
        }
        i += 1;
    }
    sub_group_count
}

/// `d` is a power of two.
pub open spec fn is_power_of_two(d: int) -> bool
    decreases d,
{
    d == 1 || (d > 1 && d % 2 == 0 && is_power_of_two(d / 2))
}

/// Whether `d` is a power of two.
pub fn check_power_of_two(d: i32) -> (b: bool)
    ensures
        b == is_power_of_two(d as int),
{
    if d <= 0 {
        return false;
    }
    let mut x = d;
    while x > 1 && x % 2 == 0
        invariant
            x >= 1,
            is_power_of_two(x as int) == is_power_of_two(d as int),
        decreases x,
    {
        x = x / 2;
    }
    x == 1
}

impl Compiler {
    /// A note or a group of notes: the notes of each part of the group, of
    /// which `;` makes one more, share a part of the quantize; then the time
    /// is where it was before the group, moved on by what the commas at
    /// the end of the group say.
    pub fn compile_note_group(&mut self, n: &SyntaxNode)
        requires
            old(self).wf(),
            n.wf(),
        ensures
            final(self).follows(old(self)),
            final(self).bases == old(self).bases,
            final(self).macros == old(self).macros,
            final(self).walk() == grouped(*n, old(self).walk()),
    {
        let sub_group_count = count_parts(n);
        let whole = self.state.quantize;
        let parts = Rational32(sub_group_count as i32, 1);
        let part = match whole.checked_div(parts) {
            Some(p) if p.0 > 0 => p,
            _ => {
                self.error(
                    String::from_str("Quantize does not fit the range of numbers"),
                    n.text_range(),
                );
                return ;
            },
        };
        proof {
            whole.lemma_quotient_exact(parts);
        }
        let mut cur_sub_group: Vec<CompileEvent> = Vec::new();
        self.state.quantize = part;
        proof {
            assert(event_views(cur_sub_group@) =~= Seq::<CompileEventView>::empty());
        }
        self.gather(n, &mut cur_sub_group);
        self.submit_note_sub_group(&mut cur_sub_group);
        // Back to the whole quantize, and to where the group began.
        let restored = match part.checked_mul(parts) {
            Some(q) if q.0 > 0 => q,
            _ => whole,
        };
        proof {
            if part.product_fits(parts) {
                part.lemma_product_exact(parts);
            }
        }
        self.state.quantize = restored;
        if restored.0 != i32::MIN {
            self.advance(Rational32(-restored.0, restored.1), n.text_range());
        }
        self.trailing_commas(n);
    }

    /// Reads the notes of the node into the group: those of a note, or
    /// those of the parts of a group of notes, of which each but the last
    /// is put on the time line.
    fn gather(&mut self, n: &SyntaxNode, cur_sub_group: &mut Vec<CompileEvent>)
        requires
            old(self).wf(),
            n.wf(),
        ensures
            final(self).follows(old(self)),
            final(self).bases == old(self).bases,
            final(self).macros == old(self).macros,
            final(self).state.quantize == old(self).state.quantize,
            (final(self).walk(), event_views(final(cur_sub_group)@)) == if node_kind(*n)
                == SyntaxKind::NODE_NOTE_GROUP {
                group_walk(
                    *n,
                    n.child_elements().len() as int,
                    (old(self).walk(), event_views(old(cur_sub_group)@)),
                )
            } else {
                collected(*n, (old(self).walk(), event_views(old(cur_sub_group)@)))
            },
    {
        if n.kind() != SyntaxKind::NODE_NOTE_GROUP {
            self.collect_note(n, cur_sub_group);
            return ;
        }
        let children = n.children_with_tokens();
        let ghost start = (self.walk(), event_views(cur_sub_group@));
        let mut i: usize = 0;
        while i < children.len()
            invariant
                0 <= i <= children@.len(),
                n.wf(),
                children@.len() == n.child_elements().len(),
                forall|x: int|
                    0 <= x < children@.len() ==> (#[trigger] children@[x]).wf()
                        && children@[x].element() == n.child_elements()[x] && children@[x].tree()
                        == n.tree && children@[x].source() == n.source,
                (self.walk(), event_views(cur_sub_group@)) == group_walk(*n, i as int, start),
                self.follows(old(self)),
                self.bases == old(self).bases,
                self.macros == old(self).macros,
                self.state.quantize == old(self).state.quantize,
            decreases children@.len() - i,
        {
            match children[i] {
                SyntaxElementRef::Node(child) => {
                    proof {
                        assert(child == node_at(*n, child.index));
                    }
                    if child.kind() == SyntaxKind::NODE_NOTE {
                        self.collect_note(&child, cur_sub_group);
                    } else {
                        self.error(
                            message_with("Unexpected node in note group: ", child.kind().name()),
                            child.text_range(),
                        );
                    }
                },
                SyntaxElementRef::Token(t) => {
                    let kind = t.kind();
                    if kind == SyntaxKind::Semicolon {
                        self.submit_note_sub_group(cur_sub_group);
                        proof {
                            assert(event_views(cur_sub_group@) =~= Seq::<CompileEventView>::empty());
                        }
                    } else if kind == SyntaxKind::Colon {
                    } else {
                        self.error(
                            message_with("Unexpected token in note group: ", t.text()),
                            t.text_range(),
                        );
                    }
                },
            }
            i += 1;
        }
    }

    /// The commas at the end of the node: each moves the time on by the
    /// quantize.
    fn trailing_commas(&mut self, n: &SyntaxNode)
        requires
            old(self).wf(),
            n.wf(),
        ensures
            final(self).follows(old(self)),
            final(self).bases == old(self).bases,
            final(self).macros == old(self).macros,
            final(self).state.quantize == old(self).state.quantize,
            final(self).walk() == trailing(*n, old(self).walk()),
    {
        let last = n.tokens();
        if last.len() > 0 {
            let last_token = last[last.len() - 1];
            if last_token.kind() == SyntaxKind::DurationCommas {
                let count = match self.parse_duration_commas(&last_token) {
                    Some(c) if c <= 0x7FFF_FFFF => c,
                    _ => 0,
                };
                match self.state.quantize.checked_mul(Rational32(count as i32, 1)) {
                    Some(d) => {
                        proof {
                            self.state.quantize.lemma_product_exact(Rational32(count as i32, 1));
                        }
                        self.advance(d, last_token.text_range());
                    },
                    None => {
                        self.error(
                            String::from_str("Duration does not fit the range of numbers"),
                            last_token.text_range(),
                        );
                    },
                }
            }
        }
    }

    /// Reads the note node `child` and puts its notes into the group.
    fn collect_note(&mut self, child: &SyntaxNode, cur_sub_group: &mut Vec<CompileEvent>)
        requires
            old(self).wf(),
            child.wf(),
        ensures
            final(self).follows(old(self)),
            final(self).bases == old(self).bases,
            final(self).macros == old(self).macros,
            final(self).state.quantize == old(self).state.quantize,
            (final(self).walk(), event_views(final(cur_sub_group)@)) == collected(
                *child,
                (old(self).walk(), event_views(old(cur_sub_group)@)),
            ),
    {
        if let Some(notes) = self.parse_note(child) {
            let mut notes = notes;
            let range = child.text_range();
            let ghost all = note_views(notes@);
            let ghost group = event_views(cur_sub_group@);
            let ghost time = self.state.time;
            let ghost made = Seq::new(
                all.len(),
                |i: int|
                    CompileEventView {
                        body: EventBodyView::Note(all[i]),
                        start_time: time,
                        range,
                        range_invoked: None,
                    },
            );
            proof {
                assert(event_views(cur_sub_group@) =~= group + made.subrange(0, 0));
                assert(all.subrange(0, all.len() as int) =~= all);
            }
            while notes.len() > 0
                invariant
                    self.follows(old(self)),
                    self.bases == old(self).bases,
                    self.macros == old(self).macros,
                    self.state.quantize == old(self).state.quantize,
                    self.walk() == noted(*child, old(self).walk()).0,
                    time == self.state.time,
                    notes@.len() <= all.len(),
                    note_views(notes@) == all.subrange(all.len() - notes@.len(), all.len() as int),
                    made == Seq::new(
                        all.len(),
                        |i: int|
                            CompileEventView {
                                body: EventBodyView::Note(all[i]),
                                start_time: time,
                                range,
                                range_invoked: None,
                            },
                    ),
                    event_views(cur_sub_group@) == group + made.subrange(
                        0,
                        all.len() - notes@.len(),
                    ),
                decreases notes@.len(),
            {
                let ghost at = all.len() - notes@.len();
                let ghost left = note_views(notes@);
                let ghost seen = event_views(cur_sub_group@);
                let ghost held = notes@;
                let note = notes.remove(0);
                proof {
                    assert(note@ == left[0]);
                    assert forall|i: int| 0 <= i < notes@.len() implies note_views(notes@)[i]
                        == all[at + 1 + i] by {
                        assert(notes@[i] == held[i + 1]);
                        assert(left[i + 1] == held[i + 1]@);
                    }
                    assert(note_views(notes@) =~= all.subrange(at + 1, all.len() as int));
                }
                cur_sub_group.push(
                    CompileEvent {
                        body: EventBody::Note(note),
                        start_time: self.state.time,
                        range,
                        range_invoked: None,
                    },
                );
                proof {
                    assert(event_views(cur_sub_group@) =~= seen.push(made[at]));
                    assert(group + made.subrange(0, at + 1) =~= (group + made.subrange(0, at)).push(
                        made[at],
                    ));
                }
            }
            proof {
                assert(made.subrange(0, all.len() as int) =~= made);
                assert(range == span_of(child.tree, child.index as int));
            }
        }
    }

    /// `<spell>`, `<spell = chain>` or `<chain>`: a new base pitch. It is
    /// put at the end of the list of base pitches and is in force from here
    /// on; two events say so.
    pub fn compile_base_pitch_def(&mut self, n: &SyntaxNode)
        requires
            old(self).wf(),
            n.wf(),
        ensures
            final(self).follows(old(self)),
            final(self).macros == old(self).macros,
            final(self).bases@.len() <= old(self).bases@.len() + 1,
            final(self).bases@.len() == old(self).bases@.len() + 1 ==> {
                &&& final(self).state.base == old(self).bases@.len()
                &&& final(self).bases@.last().under == old(self).state.base
                &&& final(self).events@.len() == old(self).events@.len() + 2
                &&& final(self).events@[old(self).events@.len() as int].body@
                    == EventBodyView::BaseNoteDef(final(self).state.base)
                &&& final(self).events@.last().body@ == EventBodyView::BaseFrequencyDef(
                    final(self).state.base,
                )
            },
            final(self).bases@.len() == old(self).bases@.len() ==> final(self).events == old(self).events && final(self).state.base == old(self).state.base,
            final(self).walk() == based(*n, old(self).walk()),
    {
        let under = self.state.base;
        let spell = match child_token(n, SyntaxKind::PitchSpellOctave, SyntaxKind::PitchSpellSimple) {
            Some(t) => self.parse_pitch_atom(&t, false),
            None => None,
        };
        let chain = match child_node(n, SyntaxKind::NODE_PITCH_CHAIN) {
            Some(chain_node) => {
                let tokens = chain_tokens(&chain_node);
                match self.parse_base_pitch_rhs_chain_tokens(&tokens, chain_node.text_range()) {
                    Some(note) => Some(note.pitch_chain),
                    None => None,
                }
            },
            None => None,
        };
        if spell.is_none() && chain.is_none() {
            self.error(
                String::from_str(
                    "Base pitch definition must have either a pitch spell or pitch chain reference",
                ),
                n.text_range(),
            );
            return ;
        }
        let base = self.bases.len();
        let ghost listed = base_views(self.bases@);
        let ghost view = (BaseDefView { spell, chain: chain_view(chain), under });
        self.bases.push(BaseDef { spell, chain, under });
        proof {
            assert(base_views(self.bases@) =~= listed.push(view));
        }
        self.state.base = base;
        self.push_event(EventBody::BaseNoteDef(base), n.text_range());
        self.push_event(EventBody::BaseFrequencyDef(base), n.text_range());
    }

    /// `(n/d)`: a time signature. A denominator that is no power of two is
    /// warned of.
    pub fn compile_time_signature_def(&mut self, n: &SyntaxNode)
        requires
            old(self).wf(),
            n.wf(),
        ensures
            final(self).follows(old(self)),
            final(self).bases == old(self).bases,
            final(self).macros == old(self).macros,
            final(self).state == (CompileState {
                time_signature: final(self).state.time_signature,
                ..old(self).state
            }),
            final(self).events@.len() <= old(self).events@.len() + 1,
            final(self).events@.len() == old(self).events@.len() + 1 ==> final(self).events@.last()@.body == EventBodyView::TimeSignatureDef(
                final(self).state.time_signature,
            ),
            final(self).walk() == signed(*n, old(self).walk()),
    {
        let duration_token = match child_token(n, SyntaxKind::PitchRatio, SyntaxKind::PitchRatio) {
            Some(t) => t,
            None => {
                self.error(
                    String::from_str("Time signature definition must have a pitch ratio token"),
                    n.text_range(),
                );
                return ;
            },
        };
        let text = duration_token.text();
        let range = duration_token.text_range();
        match Pitch::parse_ratio(text) {
            Some(Pitch::Ratio(signature)) => {
                if !check_power_of_two(signature.1) {
                    self.warn(
                        message_with(
                            "Denominator of time signature is not a power of 2, which is discouraged: ",
                            text,
                        ),
                        range,
                    );
                }
                self.state.time_signature = signature;
                self.push_event(EventBody::TimeSignatureDef(signature), range);
            },
            _ => {
                self.error(message_with("Invalid time signature format: ", text), range);
            },
        }
    }

    /// `(bpm)` or `([n:d] = bpm)`: the number of beats a minute, and the
    /// part of a whole note that counts as one beat.
    pub fn compile_bpm_def(&mut self, n: &SyntaxNode)
        requires
            old(self).wf(),
            n.wf(),
        ensures
            final(self).follows(old(self)),
            final(self).bases == old(self).bases,
            final(self).macros == old(self).macros,
            final(self).state == (CompileState {
                bpm: final(self).state.bpm,
                beat_duration: final(self).state.beat_duration,
                ..old(self).state
            }),
            final(self).walk() == timed(*n, old(self).walk()),
    {
        let duration_token = child_token(
            n,
            SyntaxKind::DurationFraction,
            SyntaxKind::DurationFraction,
        );
        let bpm_token = match child_token(n, SyntaxKind::PitchFrequency, SyntaxKind::PitchFrequency) {
            Some(t) => t,
            None => {
                self.error(
                    String::from_str("BPM definition must have a number token"),
                    n.text_range(),
                );
                return ;
            },
        };
        match read_decimal(bpm_token.text().as_bytes()) {
            Some(bpm) => {
                if let Some(dur_tok) = duration_token {
                    if let Some(beat_duration) = self.parse_duration_fraction(&dur_tok) {
                        self.state.beat_duration = beat_duration;
                        self.push_event(
                            EventBody::BeatDurationDef(beat_duration),
                            dur_tok.text_range(),
                        );
                    }
                }
                self.state.bpm = bpm;
                self.push_event(EventBody::BPMDef(bpm), bpm_token.text_range());
            },
            None => {
                self.error(
                    message_with("Invalid BPM value: ", bpm_token.text()),
                    bpm_token.text_range(),
                );
            },
        }
    }

    /// A line: its definitions, notes and commas in their order. A line
    /// that ends within a bar, and not where the time signature ends it, is
    /// warned of. After a ghost line the time is where it was before the
    /// line.
    pub fn compile_normal_line(&mut self, node: &SyntaxNode)
        requires
            old(self).wf(),
            node.wf(),
        ensures
            final(self).follows(old(self)),
            final(self).macros == old(self).macros,
            node.tree.nodes@[node.index as int].kind == SyntaxKind::NODE_GHOST_LINE ==> final(self).state.time == old(self).state.time,
            final(self).walk() == lined(*node, old(self).walk()),
    {
        let is_ghost = node.kind() == SyntaxKind::NODE_GHOST_LINE;
        let start_time_stamp = self.state.time;
        let children = node.children_with_tokens();
        let mut i: usize = 0;
        while i < children.len()
            invariant
                0 <= i <= children@.len(),
                node.wf(),
                children@.len() == node.child_elements().len(),
                forall|x: int|
                    0 <= x < children@.len() ==> (#[trigger] children@[x]).wf()
                        && children@[x].element() == node.child_elements()[x]
                        && children@[x].tree() == node.tree && children@[x].source()
                        == node.source,
                self.walk() == line_walk(*node, i as int, old(self).walk()),
                self.follows(old(self)),
                self.macros == old(self).macros,
                start_time_stamp == old(self).state.time,
            decreases children@.len() - i,
        {
            match children[i] {
                SyntaxElementRef::Node(n) => {
                    let kind = n.kind();
                    proof {
                        assert(n == node_at(*node, n.index));
                    }
                    if kind == SyntaxKind::NODE_BPM_DEF {
                        self.compile_bpm_def(&n);
                    } else if kind == SyntaxKind::NODE_TIME_SIGNATURE_DEF {
                        self.compile_time_signature_def(&n);
                    } else if kind == SyntaxKind::NODE_BASE_PITCH_DEF {
                        self.compile_base_pitch_def(&n);
                    } else if kind == SyntaxKind::NODE_NOTE_GROUP || kind == SyntaxKind::NODE_NOTE {
                        self.compile_note_group(&n);
                    } else {
                        self.error(
                            message_with("Unexpected node in line: ", kind.name()),
                            n.text_range(),
                        );
                    }
                },
                SyntaxElementRef::Token(t) => {
                    let kind = t.kind();
                    if kind == SyntaxKind::Quantize {
                        if let Some(dur) = self.parse_duration_fraction(&t) {
                            if dur.0 > 0 {
                                self.state.quantize = dur;
                                self.push_event(EventBody::QuantizeDef(dur), t.text_range());
                            } else {
                                self.error(
                                    message_with("Invalid duration format: ", t.text()),
                                    t.text_range(),
                                );
                            }
                        }
                    } else if kind == SyntaxKind::Comma {
                        self.comma(t.text_range());
                    } else if kind == SyntaxKind::Newline || kind == SyntaxKind::Whitespace || kind
                        == SyntaxKind::Comment || kind == SyntaxKind::Equals {
                    } else {
                        self.error(
                            message_with("Unexpected token in line: ", t.text()),
                            t.text_range(),
                        );
                    }
                },
            }
            i += 1;
        }
        if self.state.time.ticks > Rational32::zero() && self.state.time.ticks
            != self.state.time_signature {
            self.warn(
                String::from_str("Line ended but current ticks do not align with time signature"),
                node.text_range(),
            );
        }
        if is_ghost {
            self.state.time = start_time_stamp;
        }
    }

    /// A comma: the time moves on by the quantize, and the place in the bar
    /// is put over a multiple of the quantize's denominator.
    pub fn comma(&mut self, span: TextRange)
        requires
            old(self).wf(),
        ensures
            final(self).follows(old(self)),
            final(self).events == old(self).events,
            final(self).bases == old(self).bases,
            final(self).macros == old(self).macros,
            ({
                let state = old(self).state;
                match state.time.later(state.quantize, state) {
                    Some(t) => match t.snapped(state.quantize) {
                        Some(s) => final(self).state == (CompileState { time: s, ..state }) && final(self).diagnostics == old(self).diagnostics && s.ticks.1 % state.quantize.1
                            == 0,
                        None => final(self).state == state,
                    },
                    None => final(self).state == state,
                }
            }),
            final(self).walk() == after_comma(old(self).walk(), span),
    {
        let quantize = self.state.quantize;
        let moved = match self.state.time.add_duration(quantize, &self.state) {
            Some(t) => t.reduct_to_quantize(quantize),
            None => None,
        };
        match moved {
            Some(t) => {
                proof {
                    let state = self.state;
                    let later = state.time.later(quantize, state).unwrap();
                    state.time.ticks.lemma_sum_exact(quantize);
                    later.ticks.lemma_scaled(quantize.1 as int);
                }
                self.state.time = t;
            },
            None => {
                self.error(String::from_str("Time does not fit the range of numbers"), span);
            },
        }
    }

    /// The definition of a macro: the name stands from here on for the
    /// chain, the notes or the events that the definition spells. The
    /// events of a body are compiled from a time line of their own, which
    /// starts at zero; the state is put back behind them.
    pub fn compile_macro_def(&mut self, node: &SyntaxNode)
        requires
            old(self).wf(),
            node.wf(),
        ensures
            final(self).wf(),
            is_prefix(old(self).diagnostics@, final(self).diagnostics@),
            is_prefix(old(self).bases@, final(self).bases@),
            is_prefix(old(self).macros.entries@, final(self).macros.entries@),
            final(self).macros.entries@.len() <= old(self).macros.entries@.len() + 1,
            final(self).events == old(self).events,
            final(self).state.time == old(self).state.time,
            final(self).walk() == defined(*node, old(self).walk()),
    {
        let ident_tok = match child_token(node, SyntaxKind::Identifier, SyntaxKind::Identifier) {
            Some(t) => t,
            None => {
                self.error(
                    String::from_str("Macro definition must have an identifier token"),
                    node.text_range(),
                );
                return ;
            },
        };
        let name = String::from_str(ident_tok.text());
        let kind = node.kind();
        if kind == SyntaxKind::NODE_MACRODEF_ALIAS {
            self.define_alias(node, name);
        } else if kind == SyntaxKind::NODE_MACRODEF_SIMPLE {
            self.define_list(node, name);
        } else if kind == SyntaxKind::NODE_MACRODEF_COMPLEX {
            self.define_body(node, name);
        } else {
            self.error(
                message_with("Unexpected macro definition kind: ", kind.name()),
                node.text_range(),
            );
        }
    }

    /// `name = chain`: the name stands for the chain.
    fn define_alias(&mut self, node: &SyntaxNode, name: String)
        requires
            old(self).wf(),
            node.wf(),
        ensures
            final(self).wf(),
            is_prefix(old(self).diagnostics@, final(self).diagnostics@),
            final(self).bases == old(self).bases,
            is_prefix(old(self).macros.entries@, final(self).macros.entries@),
            final(self).macros.entries@.len() <= old(self).macros.entries@.len() + 1,
            final(self).events == old(self).events,
            final(self).state.time == old(self).state.time,
            final(self).walk() == alias_defined(*node, name@, old(self).walk()),
    {
        let chain_node = match child_node(node, SyntaxKind::NODE_PITCH_CHAIN) {
            Some(c) => c,
            None => {
                self.error(
                    String::from_str("Alias macro definition must contain a pitch chain"),
                    node.text_range(),
                );
                return ;
            },
        };
        proof {
            assert(chain_node == node_at(*node, chain_node.index));
        }
        let tokens = chain_tokens(&chain_node);
        if let Some(note) = self.parse_base_pitch_rhs_chain_tokens(&tokens, chain_node.text_range()) {
            self.macros.define(name, MacroDef::Alias(note.pitch_chain));
        }
    }

    /// `name = note : note ...`: the name stands for the notes.
    fn define_list(&mut self, node: &SyntaxNode, name: String)
        requires
            old(self).wf(),
            node.wf(),
        ensures
            final(self).wf(),
            is_prefix(old(self).diagnostics@, final(self).diagnostics@),
            final(self).bases == old(self).bases,
            is_prefix(old(self).macros.entries@, final(self).macros.entries@),
            final(self).macros.entries@.len() <= old(self).macros.entries@.len() + 1,
            final(self).events == old(self).events,
            final(self).state.time == old(self).state.time,
            final(self).walk() == list_defined(*node, name@, old(self).walk()),
    {
        let mut pitches: Vec<Note> = Vec::new();
        let children = node.children_with_tokens();
        let mut i: usize = 0;
        let ghost start = (self.walk(), Seq::<NoteView>::empty());
        proof {
            assert(note_views(pitches@) =~= start.1);
        }
        while i < children.len()
            invariant
                0 <= i <= children@.len(),
                node.wf(),
                children@.len() == node.child_elements().len(),
                forall|x: int|
                    0 <= x < children@.len() ==> (#[trigger] children@[x]).wf()
                        && children@[x].element() == node.child_elements()[x]
                        && children@[x].tree() == node.tree && children@[x].source()
                        == node.source,
                (self.walk(), note_views(pitches@)) == list_walk(*node, i as int, start),
                self.follows(old(self)),
                self.events == old(self).events,
                self.bases == old(self).bases,
                self.macros == old(self).macros,
                self.state.time == old(self).state.time,
            decreases children@.len() - i,
        {
            if let SyntaxElementRef::Node(child) = children[i] {
                proof {
                    assert(child == node_at(*node, child.index));
                }
                if child.kind() == SyntaxKind::NODE_NOTE {
                    self.list_note(&child, &mut pitches);
                }
            }
            i += 1;
        }
        self.macros.define(name, MacroDef::Simple(pitches));
    }

    /// Reads the note node `child` of a list of notes into the list.
    fn list_note(&mut self, child: &SyntaxNode, pitches: &mut Vec<Note>)
        requires
            old(self).wf(),
            child.wf(),
        ensures
            final(self).follows(old(self)),
            final(self).events == old(self).events,
            final(self).bases == old(self).bases,
            final(self).macros == old(self).macros,
            final(self).state.time == old(self).state.time,
            (final(self).walk(), note_views(final(pitches)@)) == listed(
                *child,
                (old(self).walk(), note_views(old(pitches)@)),
            ),
    {
        match child_node(child, SyntaxKind::NODE_PITCH_CHAIN) {
            Some(chain) => {
                proof {
                    assert(chain == node_at(*child, chain.index));
                }
                let tokens = chain_tokens(&chain);
                if tokens.len() == 0 {
                    self.error(
                        String::from_str("Simple macro note must contain a pitch chain"),
                        chain.text_range(),
                    );
                } else if let Some(note) = self.parse_pitch_chain_tokens(
                    &tokens,
                    false,
                    chain.text_range(),
                ) {
                    let ghost seen = note_views(pitches@);
                    let ghost made = note@;
                    pitches.push(note);
                    proof {
                        assert(note_views(pitches@) =~= seen.push(made));
                    }
                }
            },
            None => {
                self.error(
                    String::from_str("Simple macro note must contain a pitch chain"),
                    child.text_range(),
                );
            },
        }
    }

    /// The definition of a macro with a body: the name stands for the
    /// events of the body.
    fn define_body(&mut self, node: &SyntaxNode, name: String)
        requires
            old(self).wf(),
            node.wf(),
        ensures
            final(self).wf(),
            is_prefix(old(self).diagnostics@, final(self).diagnostics@),
            is_prefix(old(self).bases@, final(self).bases@),
            is_prefix(old(self).macros.entries@, final(self).macros.entries@),
            final(self).macros.entries@.len() <= old(self).macros.entries@.len() + 1,
            final(self).events == old(self).events,
            final(self).state == old(self).state,
            final(self).walk() == body_defined(*node, name@, old(self).walk()),
    {
        let node_body = match child_node(node, SyntaxKind::NODE_MACRODEF_COMPLEX_BODY) {
            Some(b) => b,
            None => {
                self.error(
                    String::from_str("Macro complex definition must have a body node"),
                    node.text_range(),
                );
                return ;
            },
        };
        proof {
            assert(node_body == node_at(*node, node_body.index));
        }
        let saved_state = self.state;
        let mut saved_events: Vec<CompileEvent> = Vec::new();
        core::mem::swap(&mut self.events, &mut saved_events);
        self.state.time = TimeStamp {
            nanos: 0,
            bars: 0,
            ticks: Rational32::new(0, self.state.quantize.1),
        };
        let lines = node_body.children_with_tokens();
        let mut i: usize = 0;
        let ghost entered = *self;
        proof {
            assert(event_views(self.events@) =~= Seq::<CompileEventView>::empty());
        }
        while i < lines.len()
            invariant
                0 <= i <= lines@.len(),
                node_body.wf(),
                lines@.len() == node_body.child_elements().len(),
                forall|x: int|
                    0 <= x < lines@.len() ==> (#[trigger] lines@[x]).wf() && lines@[x].element()
                        == node_body.child_elements()[x] && lines@[x].tree() == node_body.tree
                        && lines@[x].source() == node_body.source,
                self.walk() == body_walk(node_body, i as int, entered.walk()),
                self.follows(&entered),
                entered.wf(),
                entered.diagnostics == old(self).diagnostics,
                entered.bases == old(self).bases,
                entered.macros == old(self).macros,
                self.macros == entered.macros,
                saved_events == old(self).events,
                saved_state == old(self).state,
            decreases lines@.len() - i,
        {
            if let SyntaxElementRef::Node(line) = lines[i] {
                proof {
                    assert(line == node_at(node_body, line.index));
                }
                self.compile_normal_line(&line);
                self.reset_ticks();
            }
            i += 1;
        }
        let mut compiled_events: Vec<CompileEvent> = Vec::new();
        core::mem::swap(&mut self.events, &mut compiled_events);
        self.macros.define(name, MacroDef::Complex(compiled_events));
        self.state = saved_state;
        self.events = saved_events;
    }

    /// Compiles a score from its tree: the children of the root in their
    /// order, each followed by the end of its bar; then the two passes of
    /// the finalisation, which turn notes with a negative duration into
    /// notes that start earlier, and fold the sustains into the notes that
    /// they hold on to.
    pub fn compile(&mut self, tree: &SyntaxNode)
        requires
            old(self).wf(),
            tree.wf(),
        ensures
            final(self).wf(),
            is_prefix(old(self).diagnostics@, final(self).diagnostics@),
            is_prefix(old(self).bases@, final(self).bases@),
            is_prefix(old(self).macros.entries@, final(self).macros.entries@),
            forall|i: int|
                0 <= i < final(self).events@.len() ==> !(#[trigger] final(self).events@[i])@.is_sustain(),
            final(self).walk() == compiled(*tree, old(self).walk()),
    {
        let children = tree.children_with_tokens();
        let mut i: usize = 0;
        while i < children.len()
            invariant
                0 <= i <= children@.len(),
                tree.wf(),
                children@.len() == tree.child_elements().len(),
                forall|x: int|
                    0 <= x < children@.len() ==> (#[trigger] children@[x]).wf()
                        && children@[x].element() == tree.child_elements()[x]
                        && children@[x].tree() == tree.tree && children@[x].source()
                        == tree.source,
                self.walk() == root_walk(*tree, i as int, old(self).walk()),
                self.wf(),
                is_prefix(old(self).diagnostics@, self.diagnostics@),
                is_prefix(old(self).bases@, self.bases@),
                is_prefix(old(self).macros.entries@, self.macros.entries@),
            decreases children@.len() - i,
        {
            match children[i] {
                SyntaxElementRef::Node(node) => {
                    let kind = node.kind();
                    proof {
                        assert(node == node_at(*tree, node.index));
                    }
                    if kind == SyntaxKind::NODE_MACRODEF_ALIAS || kind
                        == SyntaxKind::NODE_MACRODEF_SIMPLE || kind
                        == SyntaxKind::NODE_MACRODEF_COMPLEX {
                        self.compile_macro_def(&node);
                    } else if kind == SyntaxKind::NODE_NORMAL_LINE || kind
                        == SyntaxKind::NODE_GHOST_LINE {
                        self.compile_normal_line(&node);
                    } else {
                        self.error(
                            message_with("Unexpected node kind: ", kind.name()),
                            node.text_range(),
                        );
                    }
                },
                SyntaxElementRef::Token(token) => {
                    let kind = token.kind();
                    if !kind.is_trivia() && kind != SyntaxKind::Newline {
                        self.error(
                            message_with("Unexpected token: ", token.text()),
                            token.text_range(),
                        );
                    }
                },
            }
            self.reset_ticks();
            i += 1;
        }
        self.finalize_negative_duration_notes();
        let ghost before = event_views(self.events@);
        self.finalize_sustain_notes();
        proof {
            lemma_without_sustains(folded(before, before.len() as int));
            assert forall|i: int| 0 <= i < self.events@.len() implies !(
            #[trigger] self.events@[i])@.is_sustain() by {
                assert(event_views(self.events@)[i] == self.events@[i]@);
            }
        }
    }
}

} // verus!
