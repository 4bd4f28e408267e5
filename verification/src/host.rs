//! What an editor is told about a score: its tokens, its diagnostics and
//! its events, with places counted in display characters.

use crate::byte_char_mapper::ByteCharMapper;
use crate::compiler::types::{CompileEvent, DiagnosticLevel, EventBody};
use crate::syntax::lexer::SyntaxKind;
use crate::syntax::types::{ParseError, TextRange, Token};
use vstd::prelude::*;
use vstd::string::StringExecFns;

verus! {

/// The display character that holds byte `byte`; an offset past the end
/// counts as the end.
pub open spec fn char_at(mapper: &ByteCharMapper, byte: u32) -> int {
    mapper.unit_of(mapper.clamp_byte(byte as int))
}

/// The tokens that are not trivia among the first `k`, each with the name
/// of its kind and the display characters where it starts and ends.
pub open spec fn tokens_upto(tokens: Seq<Token>, mapper: &ByteCharMapper, k: int) -> Seq<
    (Seq<char>, int, int),
>
    decreases k,
{
    if k <= 0 {
        Seq::empty()
    } else {
        let rest = tokens_upto(tokens, mapper, k - 1);
        let t = tokens[k - 1];
        if t.kind.spec_is_trivia() {
            rest
        } else {
            rest.push(
                (t.kind.spec_name(), char_at(mapper, t.range.start), char_at(mapper, t.range.end)),
            )
        }
    }
}

/// The tokens that are not trivia, each with the name of its kind and the
/// display characters where it starts and ends.
pub fn get_tokens(tokens: &Vec<Token>, mapper: &ByteCharMapper) -> (out: Vec<(String, u32, u32)>)
    requires
        mapper.wf(),
    ensures
        out@.map_values(|t: (String, u32, u32)| (t.0@, t.1 as int, t.2 as int)) == tokens_upto(
            tokens@,
            mapper,
            tokens@.len() as int,
        ),
{
    let mut out: Vec<(String, u32, u32)> = Vec::new();
    let ghost shown = |t: (String, u32, u32)| (t.0@, t.1 as int, t.2 as int);
    let mut i: usize = 0;
    proof {
        assert(out@.map_values(shown) =~= tokens_upto(tokens@, mapper, 0));
    }
    while i < tokens.len()
        invariant
            0 <= i <= tokens@.len(),
            mapper.wf(),
            shown == |t: (String, u32, u32)| (t.0@, t.1 as int, t.2 as int),
            out@.map_values(shown) == tokens_upto(tokens@, mapper, i as int),
        decreases tokens@.len() - i,
    {
        let t = tokens[i];
        if !t.kind.is_trivia() {
            let ghost seen = out@;
            let entry = (
                String::from_str(t.kind.name()),
                mapper.byte_to_char(t.range.start),
                mapper.byte_to_char(t.range.end),
            );
            out.push(entry);
            proof {
                assert(out@.map_values(shown) =~= seen.map_values(shown).push(shown(entry)));
            }
        }
        i += 1;
    }
    out
}

/// A diagnostic as the editor shows it: from one display character to
/// another.
#[derive(Debug)]
pub struct Diagnostic {
    pub message: String,
    /// `Error` or `Warning`.
    pub severity: String,
    pub from: u32,
    pub to: u32,
}

impl View for Diagnostic {
    type V = (Seq<char>, Seq<char>, int, int);

    open spec fn view(&self) -> (Seq<char>, Seq<char>, int, int) {
        (self.message@, self.severity@, self.from as int, self.to as int)
    }
}

/// Where a diagnostic for `range` is shown: at the display characters of
/// the range, and one character further to the left where the range is
/// empty and does not stand at the start.
pub open spec fn shown_at(mapper: &ByteCharMapper, range: TextRange) -> (int, int) {
    let start = char_at(mapper, range.start);
    let end = char_at(mapper, range.end);
    if start == end && start > 0 {
        (start - 1, end)
    } else {
        (start, end)
    }
}

pub open spec fn severity_name(level: DiagnosticLevel) -> Seq<char> {
    match level {
        DiagnosticLevel::Warning => "Warning"@,
        DiagnosticLevel::Error => "Error"@,
    }
}

fn show(mapper: &ByteCharMapper, message: &String, severity: &str, range: TextRange) -> (d: Diagnostic)
    requires
        mapper.wf(),
    ensures
        d@ == (message@, severity@, shown_at(mapper, range).0, shown_at(mapper, range).1),
{
    let start = mapper.byte_to_char(range.start);
    let end = mapper.byte_to_char(range.end);
    let from = if start == end && start > 0 {
        start - 1
    } else {
        start
    };
    Diagnostic {
        message: message.clone(),
        severity: String::from_str(severity),
        from,
        to: end,
    }
}

/// The diagnostic at place `i` of the list for the editor: the errors of
/// the parser first, then the diagnostics of the compiler.
pub open spec fn diagnostic_at(
    errors: Seq<ParseError>,
    diagnostics: Seq<crate::compiler::types::Diagnostic>,
    mapper: &ByteCharMapper,
    i: int,
) -> (Seq<char>, Seq<char>, int, int) {
    if i < errors.len() {
        (
            errors[i].message@,
            "Error"@,
            shown_at(mapper, errors[i].range).0,
            shown_at(mapper, errors[i].range).1,
        )
    } else {
        let d = diagnostics[i - errors.len()];
        (
            d.message@,
            severity_name(d.level),
            shown_at(mapper, d.span).0,
            shown_at(mapper, d.span).1,
        )
    }
}

/// The errors of the parser and the diagnostics of the compiler for the
/// editor.
pub fn get_diagnostics(
    errors: &[ParseError],
    diagnostics: &Vec<crate::compiler::types::Diagnostic>,
    mapper: &ByteCharMapper,
) -> (out: Vec<Diagnostic>)
    requires
        mapper.wf(),
    ensures
        out@.len() == errors@.len() + diagnostics@.len(),
        forall|i: int|
            0 <= i < out@.len() ==> (#[trigger] out@[i])@ == diagnostic_at(
                errors@,
                diagnostics@,
                mapper,
                i,
            ),
{
    let mut out: Vec<Diagnostic> = Vec::new();
    let mut i: usize = 0;
    while i < errors.len()
        invariant
            0 <= i <= errors@.len(),
            mapper.wf(),
            out@.len() == i,
            forall|j: int|
                0 <= j < i ==> (#[trigger] out@[j])@ == diagnostic_at(
                    errors@,
                    diagnostics@,
                    mapper,
                    j,
                ),
        decreases errors@.len() - i,
    {
        out.push(show(mapper, &errors[i].message, "Error", errors[i].range));
        i += 1;
    }
    let mut i: usize = 0;
    while i < diagnostics.len()
        invariant
            0 <= i <= diagnostics@.len(),
            mapper.wf(),
            out@.len() == errors@.len() + i,
            forall|j: int|
                0 <= j < out@.len() ==> (#[trigger] out@[j])@ == diagnostic_at(
                    errors@,
                    diagnostics@,
                    mapper,
                    j,
                ),
        decreases diagnostics@.len() - i,
    {
        let d = &diagnostics[i];
        let severity = match d.level {
            DiagnosticLevel::Warning => "Warning",
            DiagnosticLevel::Error => "Error",
        };
        out.push(show(mapper, &d.message, severity, d.span));
        i += 1;
    }
    out
}

/// The kind of an event that the editor is told of.
#[derive(Debug, Clone, Copy, PartialEq, Eq, Structural)]
pub enum NoteEventKind {
    Note,
    NewMeasure,
    BaseFrequencyDef,
}

impl NoteEventKind {
    pub fn name(&self) -> (s: &'static str)
        ensures
            s@ == match self {
                NoteEventKind::Note => "Note"@,
                NoteEventKind::NewMeasure => "NewMeasure"@,
                NoteEventKind::BaseFrequencyDef => "BaseFrequencyDef"@,
            },
    {
        match self {
            NoteEventKind::Note => "Note",
            NoteEventKind::NewMeasure => "NewMeasure",
            NoteEventKind::BaseFrequencyDef => "BaseFrequencyDef",
        }
    }
}

/// An event as the editor is told of it. `event` is its place among the
/// events of the compiler, and `base` the base pitch that a note is read
/// under or that a definition puts in force; the frequency is for the
/// caller to add.
#[derive(Debug, Clone, Copy, PartialEq, Eq)]
pub struct NoteEvent {
    pub kind: NoteEventKind,
    pub event: usize,
    pub base: Option<usize>,
    pub start_nanos: i64,
    pub start_bar: u32,
    pub start_tick: (i32, i32),
    pub duration_nanos: i64,
    pub duration_tick: (i32, i32),
    pub span_from: u32,
    pub span_to: u32,
    pub span_invoked_from: Option<u32>,
    pub span_invoked_to: Option<u32>,
}

/// What the editor is told of the event at place `index`, if anything:
/// notes, new measures and definitions of the base frequency are told.
pub open spec fn told(e: CompileEvent, index: usize, mapper: &ByteCharMapper) -> Option<NoteEvent> {
    let common = NoteEvent {
        kind: NoteEventKind::Note,
        event: index,
        base: None,
        start_nanos: e.start_time.nanos,
        start_bar: e.start_time.bars,
        start_tick: (e.start_time.ticks.0, e.start_time.ticks.1),
        duration_nanos: 0,
        duration_tick: (0, 1),
        span_from: char_at(mapper, e.range.start) as u32,
        span_to: char_at(mapper, e.range.end) as u32,
        span_invoked_from: match e.range_invoked {
            Some(r) => Some(char_at(mapper, r.start) as u32),
            None => None,
        },
        span_invoked_to: match e.range_invoked {
            Some(r) => Some(char_at(mapper, r.end) as u32),
            None => None,
        },
    };
    match e.body {
        EventBody::Note(n) => Some(
            NoteEvent {
                base: Some(n.base),
                duration_nanos: n.duration_nanos,
                duration_tick: (n.duration.0, n.duration.1),
                ..common
            },
        ),
        EventBody::NewMeasure(bar) => Some(
            NoteEvent { kind: NoteEventKind::NewMeasure, start_bar: bar, ..common },
        ),
        EventBody::BaseFrequencyDef(b) => Some(
            NoteEvent { kind: NoteEventKind::BaseFrequencyDef, base: Some(b), ..common },
        ),
        _ => None,
    }
}

/// What the editor is told of the first `k` events.
pub open spec fn told_upto(events: Seq<CompileEvent>, mapper: &ByteCharMapper, k: int) -> Seq<
    NoteEvent,
>
    decreases k,
{
    if k <= 0 {
        Seq::empty()
    } else {
        let rest = told_upto(events, mapper, k - 1);
        match told(events[k - 1], (k - 1) as usize, mapper) {
            Some(e) => rest.push(e),
            None => rest,
        }
    }
}

/// The events for the editor: notes, new measures and definitions of the
/// base frequency, with their places in display characters.
pub fn get_events(events: &Vec<CompileEvent>, mapper: &ByteCharMapper) -> (out: Vec<NoteEvent>)
    requires
        mapper.wf(),
    ensures
        out@ == told_upto(events@, mapper, events@.len() as int),
{
    let mut out: Vec<NoteEvent> = Vec::new();
    let mut i: usize = 0;
    while i < events.len()
        invariant
            0 <= i <= events@.len(),
            mapper.wf(),
            out@ == told_upto(events@, mapper, i as int),
        decreases events@.len() - i,
    {
        let e = &events[i];
        let (invoked_from, invoked_to) = match e.range_invoked {
            Some(r) => (Some(mapper.byte_to_char(r.start)), Some(mapper.byte_to_char(r.end))),
            None => (None, None),
        };
        let common = NoteEvent {
            kind: NoteEventKind::Note,
            event: i,
            base: None,
            start_nanos: e.start_time.nanos,
            start_bar: e.start_time.bars,
            start_tick: (e.start_time.ticks.0, e.start_time.ticks.1),
            duration_nanos: 0,
            duration_tick: (0, 1),
            span_from: mapper.byte_to_char(e.range.start),
            span_to: mapper.byte_to_char(e.range.end),
            span_invoked_from: invoked_from,
            span_invoked_to: invoked_to,
        };
        match &e.body {
            EventBody::Note(n) => {
                out.push(
                    NoteEvent {
                        base: Some(n.base),
                        duration_nanos: n.duration_nanos,
                        duration_tick: (n.duration.0, n.duration.1),
                        ..common
                    },
                );
            },
            EventBody::NewMeasure(bar) => {
                out.push(NoteEvent { kind: NoteEventKind::NewMeasure, start_bar: *bar, ..common });
            },
            EventBody::BaseFrequencyDef(b) => {
                out.push(
                    NoteEvent { kind: NoteEventKind::BaseFrequencyDef, base: Some(*b), ..common },
                );
            },
            _ => {},
        }
        i += 1;
    }
    out
}

} // verus!
