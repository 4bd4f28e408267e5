//! What a score means: the events, the diagnostics, the base pitches and
//! the macros that the walk through its tree makes, construct by
//! construct.

use super::atoms::{decimal_of, fraction_pitch, two_numbers};
use super::compile::{
    all_seen, atom_of, atom_trouble, call_events, call_notes, call_tail, call_told, chain_holds,
    chain_leaves, chain_state, chain_trouble, count_of, diagnostic_views, duration_of,
    duration_trouble, error_of, first_call, first_leaf_of, first_node_of, folded, is_power_of_two,
    leaf_bytes, lone_sustain_warning, lone_sustains, named_duration, span_of,
    stored_count, submitted, warning_of, with_told, without_lead_in, without_sustains, ChainPlace,
    Compiler,
};
use super::time::{clamped, exact_nanos};
use super::types::{
    base_views, defined_at, event_views, BaseDefView, CompileEventView, CompileState, Decimal,
    DiagnosticLevel, EventBodyView, MacroDefView, MacroEntryView, NoteView, Pitch, TimeStamp,
};
use crate::rational::Rational32;
use crate::syntax::lexer::SyntaxKind;
use crate::syntax::tree::{Element, SyntaxNode, SyntaxToken};
use crate::syntax::types::TextRange;
use vstd::prelude::*;
use vstd::string::StringSliceAdditionalSpecFns;

verus! {

/// What the walk through a score has made so far: the state, the events,
/// the diagnostics, the base pitches and the macros.
pub struct Walk {
    pub state: CompileState,
    pub events: Seq<CompileEventView>,
    pub told: Seq<(DiagnosticLevel, Seq<char>, TextRange)>,
    pub bases: Seq<BaseDefView>,
    pub macros: Seq<MacroEntryView>,
}

impl Compiler {
    /// What the compiler has made so far.
    pub open spec fn walk(&self) -> Walk {
        Walk {
            state: self.state,
            events: event_views(self.events@),
            told: diagnostic_views(self.diagnostics@),
            bases: base_views(self.bases@),
            macros: self.macros@,
        }
    }
}

/// The walk with one more diagnostic, if there is one.
pub open spec fn telling(w: Walk, more: Option<(DiagnosticLevel, Seq<char>, TextRange)>) -> Walk {
    Walk { told: with_told(w.told, more), ..w }
}

/// The walk with an error with `message` about `span`.
pub open spec fn erring(w: Walk, message: Seq<char>, span: TextRange) -> Walk {
    Walk { told: w.told.push(error_of(message, span)), ..w }
}

/// The node at place `j` of the tree of `n`.
pub open spec fn node_at<'a>(n: SyntaxNode<'a>, j: usize) -> SyntaxNode<'a> {
    SyntaxNode { tree: n.tree, source: n.source, index: j }
}

/// The kind of the node.
pub open spec fn node_kind(n: SyntaxNode) -> SyntaxKind {
    n.tree.nodes@[n.index as int].kind
}

/// The bytes that the node covers.
pub open spec fn span(n: SyntaxNode) -> TextRange {
    span_of(n.tree, n.index as int)
}

/// The text of leaf `t` of the tree of `n`.
pub open spec fn leaf_text(n: SyntaxNode, t: usize) -> Seq<char> {
    (SyntaxToken { tree: n.tree, source: n.source, index: t }).text_view()
}

/// The bytes that leaf `t` of the tree of `n` covers.
pub open spec fn leaf_range(n: SyntaxNode, t: usize) -> TextRange {
    n.tree.tokens@[t as int].range
}

/// What the call `c` of a macro in the note node `n` gives: the notes of
/// an alias or of a list of notes, each moved by the chain behind the name
/// and with the duration `d`, or the notes of a macro of events on the time
/// line. A call without a name, or of a name that is not defined, is an
/// error and gives nothing.
pub open spec fn called(n: SyntaxNode, c: int, d: Rational32, w: Walk) -> (
    Walk,
    Option<Seq<NoteView>>,
) {
    let node = node_at(n, c as usize);
    match first_leaf_of(n.tree, c, SyntaxKind::Identifier, SyntaxKind::Identifier, 0) {
        Some(t) => {
            let name = leaf_text(n, t);
            let tail = call_tail(node);
            let seen = all_seen(tail, w.macros);
            let st = chain_state(ChainPlace::Tail, seen, w.state.edo_def, tail.len() as int);
            let anchor = if tail.len() > 0 && chain_holds(ChainPlace::Tail, st) {
                Some(st.atoms)
            } else {
                None
            };
            let state = if tail.len() > 0 {
                CompileState { edo_def: st.edo, ..w.state }
            } else {
                w.state
            };
            let read = telling(
                Walk { state, ..w },
                chain_trouble(ChainPlace::Tail, seen, w.state.edo_def, span(node)),
            );
            match defined_at(w.macros, name) {
                Some(found) => {
                    let def = w.macros[found].def;
                    (
                        Walk {
                            events: w.events + call_events(
                                def,
                                anchor,
                                state,
                                span(n),
                                stored_count(def),
                            ),
                            told: read.told + call_told(
                                def,
                                anchor,
                                state,
                                span(node),
                                span(n),
                                stored_count(def),
                            ),
                            ..read
                        },
                        Some(call_notes(def, anchor, d, state, stored_count(def))),
                    )
                },
                None => (
                    erring(read, "Undefined macro invoked: "@ + name, span(node)),
                    Some(Seq::empty()),
                ),
            }
        },
        None => (
            erring(w, "Macro invoke node must have an identifier token"@, span(node)),
            Some(Seq::empty()),
        ),
    }
}

/// What the pitch chain of the note node `n` gives: the note that it
/// spells, with the duration `d`. A node without a pitch chain, or with one
/// without leaves, is an error and gives no list of notes.
pub open spec fn spelled(n: SyntaxNode, d: Rational32, w: Walk) -> (Walk, Option<Seq<NoteView>>) {
    match first_node_of(n.tree, n.index as int, SyntaxKind::NODE_PITCH_CHAIN, 0) {
        Some(c) => {
            let leaves = chain_leaves(node_at(n, c));
            if leaves.len() > 0 {
                let place = ChainPlace::Note { formal: true };
                let seen = all_seen(leaves, w.macros);
                let st = chain_state(place, seen, w.state.edo_def, leaves.len() as int);
                (
                    telling(
                        Walk { state: CompileState { edo_def: st.edo, ..w.state }, ..w },
                        chain_trouble(place, seen, w.state.edo_def, span(node_at(n, c))),
                    ),
                    Some(
                        if chain_holds(place, st) {
                            seq![
                                (NoteView {
                                    pitch_chain: st.atoms,
                                    base: w.state.base,
                                    duration: d,
                                    duration_nanos: clamped(
                                        exact_nanos(d, w.state.beat_duration, w.state.bpm),
                                    ),
                                }),
                            ]
                        } else {
                            Seq::empty()
                        },
                    ),
                )
            } else {
                (
                    erring(
                        w,
                        "Note must have a pitch token or macro invoke node"@,
                        span(node_at(n, c)),
                    ),
                    None,
                )
            }
        },
        None => (erring(w, "Note must have a pitch chain node"@, span(n)), None),
    }
}

/// What the note node `n` gives: the walk after it, and its notes, each
/// with the duration that the node names, or with none: those of the
/// first call of a macro in it, or the note that its pitch chain spells.
pub open spec fn noted(n: SyntaxNode, w: Walk) -> (Walk, Option<Seq<NoteView>>) {
    let d = named_duration(n.tree, n.source.spec_bytes(), n.index as int, w.state.quantize);
    let timed = telling(
        w,
        duration_trouble(n.tree, n.source.spec_bytes(), n.index as int, w.state.quantize),
    );
    match first_call(n.tree, n.index as int) {
        Some(c) => called(n, c, d, timed),
        None => spelled(n, d, timed),
    }
}

/// The walk with the time moved on by `d`, or back for a negative `d`;
/// where the numbers do not fit, the time stays and an error about `span`
/// says so.
pub open spec fn moved_on(w: Walk, d: Rational32, span: TextRange) -> Walk {
    match w.state.time.later(d, w.state) {
        Some(time) => Walk { state: CompileState { time, ..w.state }, ..w },
        None => erring(w, "Time does not fit the range of numbers"@, span),
    }
}

/// The walk after the notes of `group` are put on the time line, all at
/// the time of the state, and the time is moved on by the quantize. A note
/// that names no duration takes that of the next note to its right that
/// names one, or the quantize.
pub open spec fn submit(w: Walk, group: Seq<CompileEventView>) -> Walk {
    moved_on(
        Walk {
            events: w.events + Seq::new(group.len(), |i: int| submitted(group, w.state, i)),
            ..w
        },
        w.state.quantize,
        TextRange { start: 0, end: 0 },
    )
}

/// The walk and the group after the note node `child`: its notes join the
/// group, each at the time of the state.
pub open spec fn collected(child: SyntaxNode, s: (Walk, Seq<CompileEventView>)) -> (
    Walk,
    Seq<CompileEventView>,
) {
    let r = noted(child, s.0);
    match r.1 {
        Some(notes) => (
            r.0,
            s.1 + Seq::new(
                notes.len(),
                |i: int|
                    CompileEventView {
                        body: EventBodyView::Note(notes[i]),
                        start_time: r.0.state.time,
                        range: span(child),
                        range_invoked: None,
                    },
            ),
        ),
        None => (r.0, s.1),
    }
}

/// The number of `;` among the first `k` children of the node.
pub open spec fn semicolons(n: SyntaxNode, k: int) -> int
    decreases k,
{
    if k <= 0 {
        0
    } else {
        semicolons(n, k - 1) + match n.child_elements()[k - 1] {
            Element::Token(t) => if n.tree.tokens@[t as int].kind == SyntaxKind::Semicolon {
                1int
            } else {
                0int
            },
            Element::Node(_) => 0int,
        }
    }
}

/// The number of parts that the notes of the node share the quantize in:
/// one more than the `;` of a group has, and no more than 2^31 - 1.
pub open spec fn parts_of(n: SyntaxNode) -> int {
    if node_kind(n) == SyntaxKind::NODE_NOTE_GROUP {
        let parts = 1 + semicolons(n, n.child_elements().len() as int);
        if parts > 0x7FFF_FFFF {
            0x7FFF_FFFF
        } else {
            parts
        }
    } else {
        1
    }
}

/// The walk and the notes gathered after the first `k` children of a
/// group: a note node gives its notes to the part that is gathered, and a
/// `;` puts that part on the time line. Any other child but `:` is an
/// error.
pub open spec fn group_walk(n: SyntaxNode, k: int, s: (Walk, Seq<CompileEventView>)) -> (
    Walk,
    Seq<CompileEventView>,
)
    decreases k,
{
    if k <= 0 {
        s
    } else {
        let before = group_walk(n, k - 1, s);
        match n.child_elements()[k - 1] {
            Element::Node(j) => if n.tree.nodes@[j as int].kind == SyntaxKind::NODE_NOTE {
                collected(node_at(n, j), before)
            } else {
                (
                    erring(
                        before.0,
                        "Unexpected node in note group: "@ + n.tree.nodes@[j as int].kind.spec_name(),
                        span(node_at(n, j)),
                    ),
                    before.1,
                )
            },
            Element::Token(t) => {
                let kind = n.tree.tokens@[t as int].kind;
                if kind == SyntaxKind::Semicolon {
                    (submit(before.0, before.1), Seq::empty())
                } else if kind == SyntaxKind::Colon {
                    before
                } else {
                    (
                        erring(
                            before.0,
                            "Unexpected token in note group: "@ + leaf_text(n, t),
                            leaf_range(n, t),
                        ),
                        before.1,
                    )
                }
            },
        }
    }
}

/// The walk after the commas at the end of the node, if its last leaf
/// holds commas: each moves the time on by the quantize.
pub open spec fn trailing(n: SyntaxNode, w: Walk) -> Walk {
    let node = n.tree.nodes@[n.index as int];
    if node.end_token > node.first_token && n.tree.tokens@[node.end_token - 1].kind
        == SyntaxKind::DurationCommas {
        let last = (node.end_token - 1) as usize;
        let text = leaf_bytes(n.tree, n.source.spec_bytes(), last as int);
        let commas = count_of(text, 0x2C, text.len() as int);
        let times = Rational32(
            if commas <= 0x7FFF_FFFF {
                commas as i32
            } else {
                0i32
            },
            1,
        );
        if w.state.quantize.product_fits(times) {
            moved_on(w, w.state.quantize.product(times), leaf_range(n, last))
        } else {
            erring(w, "Duration does not fit the range of numbers"@, leaf_range(n, last))
        }
    } else {
        w
    }
}

/// The walk after a note or a group of notes. The parts of a group, of
/// which `;` makes one more, share the quantize; each part sounds at once
/// and lasts its share. Then the quantize is what it was, the time is
/// where it was before the group, and the commas at the end of the node
/// move it on. Where the share does not fit the range of numbers, an error
/// says so and nothing else changes.
pub open spec fn grouped(n: SyntaxNode, w: Walk) -> Walk {
    let whole = w.state.quantize;
    let parts = Rational32(parts_of(n) as i32, 1);
    if whole.quotient_fits(parts) && whole.quotient(parts).0 > 0 {
        let part = whole.quotient(parts);
        let start = (
            Walk { state: CompileState { quantize: part, ..w.state }, ..w },
            Seq::<CompileEventView>::empty(),
        );
        let inner = if node_kind(n) == SyntaxKind::NODE_NOTE_GROUP {
            group_walk(n, n.child_elements().len() as int, start)
        } else {
            collected(n, start)
        };
        let done = submit(inner.0, inner.1);
        let restored = if part.product_fits(parts) && part.product(parts).0 > 0 {
            part.product(parts)
        } else {
            whole
        };
        let back = Walk { state: CompileState { quantize: restored, ..done.state }, ..done };
        let rewound = if restored.0 != i32::MIN {
            moved_on(back, Rational32((-restored.0) as i32, restored.1), span(n))
        } else {
            back
        };
        trailing(n, rewound)
    } else {
        erring(w, "Quantize does not fit the range of numbers"@, span(n))
    }
}

/// The walk with one more event, at the time of the state.
pub open spec fn pushed(w: Walk, body: EventBodyView, range: TextRange) -> Walk {
    Walk {
        events: w.events.push(
            CompileEventView { body, start_time: w.state.time, range, range_invoked: None },
        ),
        ..w
    }
}

/// The walk after `<spell>`, `<spell = chain>` or `<chain>`: the new base
/// pitch stands at the end of the list, is in force, and two events say
/// so. A definition with neither a spelling nor a chain that can be read
/// is an error and defines nothing.
pub open spec fn based(n: SyntaxNode, w: Walk) -> Walk {
    let bytes = n.source.spec_bytes();
    let spelled = match first_leaf_of(
        n.tree,
        n.index as int,
        SyntaxKind::PitchSpellOctave,
        SyntaxKind::PitchSpellSimple,
        0,
    ) {
        Some(t) => (
            atom_of(
                n.tree.tokens@[t as int].kind,
                leaf_bytes(n.tree, bytes, t as int),
                w.state.edo_def,
            ),
            atom_trouble(
                n.tree.tokens@[t as int].kind,
                leaf_bytes(n.tree, bytes, t as int),
                leaf_text(n, t),
                leaf_range(n, t),
                false,
                w.state.edo_def,
            ),
        ),
        None => ((None, w.state.edo_def), None),
    };
    let spell = spelled.0.0;
    let edo = spelled.0.1;
    let chained = match first_node_of(n.tree, n.index as int, SyntaxKind::NODE_PITCH_CHAIN, 0) {
        Some(c) => {
            let leaves = chain_leaves(node_at(n, c));
            if leaves.len() > 0 {
                let seen = all_seen(leaves, w.macros);
                let st = chain_state(ChainPlace::Base, seen, edo, leaves.len() as int);
                (
                    if chain_holds(ChainPlace::Base, st) {
                        Some(st.atoms)
                    } else {
                        None
                    },
                    st.edo,
                    chain_trouble(ChainPlace::Base, seen, edo, span(node_at(n, c))),
                )
            } else {
                (None, edo, None)
            }
        },
        None => (None, edo, None),
    };
    let read = telling(
        telling(Walk { state: CompileState { edo_def: chained.1, ..w.state }, ..w }, spelled.1),
        chained.2,
    );
    if spell is None && chained.0 is None {
        erring(
            read,
            "Base pitch definition must have either a pitch spell or pitch chain reference"@,
            span(n),
        )
    } else {
        let base = w.bases.len() as usize;
        pushed(
            pushed(
                Walk {
                    state: CompileState { base, ..read.state },
                    bases: w.bases.push(
                        BaseDefView { spell, chain: chained.0, under: w.state.base },
                    ),
                    ..read
                },
                EventBodyView::BaseNoteDef(base),
                span(n),
            ),
            EventBodyView::BaseFrequencyDef(base),
            span(n),
        )
    }
}

/// The ratio that the text `n/d` names.
pub open spec fn ratio_of(bytes: Seq<u8>) -> Option<Pitch> {
    match two_numbers(bytes, 0x2F) {
        Some((n, d)) => fraction_pitch(n, d, false),
        None => None,
    }
}

/// The walk after `(n/d)`: the time signature is `n/d`, and an event says
/// so; a lower number that is no power of two is warned of. Without a
/// ratio that can be read, an error says so and nothing else changes.
pub open spec fn signed(n: SyntaxNode, w: Walk) -> Walk {
    match first_leaf_of(n.tree, n.index as int, SyntaxKind::PitchRatio, SyntaxKind::PitchRatio, 0) {
        Some(t) => match ratio_of(leaf_bytes(n.tree, n.source.spec_bytes(), t as int)) {
            Some(Pitch::Ratio(signature)) => pushed(
                Walk {
                    state: CompileState { time_signature: signature, ..w.state },
                    told: if is_power_of_two(signature.1 as int) {
                        w.told
                    } else {
                        w.told.push(
                            warning_of(
                                "Denominator of time signature is not a power of 2, which is discouraged: "@
                                    + leaf_text(n, t),
                                leaf_range(n, t),
                            ),
                        )
                    },
                    ..w
                },
                EventBodyView::TimeSignatureDef(signature),
                leaf_range(n, t),
            ),
            _ => erring(
                w,
                "Invalid time signature format: "@ + leaf_text(n, t),
                leaf_range(n, t),
            ),
        },
        None => erring(w, "Time signature definition must have a pitch ratio token"@, span(n)),
    }
}

/// The walk after `(bpm)` or `([n:d] = bpm)`: the beat, if one is named
/// and can be read, and the beats a minute are set, and an event says so
/// for each. Without a number that can be read, an error says so and
/// nothing else changes.
pub open spec fn timed(n: SyntaxNode, w: Walk) -> Walk {
    let bytes = n.source.spec_bytes();
    match first_leaf_of(
        n.tree,
        n.index as int,
        SyntaxKind::PitchFrequency,
        SyntaxKind::PitchFrequency,
        0,
    ) {
        Some(b) => match decimal_of(leaf_bytes(n.tree, bytes, b as int)) {
            Some(number) => {
                let bpm = Decimal(number as i64);
                let beaten = match first_leaf_of(
                    n.tree,
                    n.index as int,
                    SyntaxKind::DurationFraction,
                    SyntaxKind::DurationFraction,
                    0,
                ) {
                    Some(t) => match duration_of(leaf_bytes(n.tree, bytes, t as int)) {
                        Some(beat) => pushed(
                            Walk { state: CompileState { beat_duration: beat, ..w.state }, ..w },
                            EventBodyView::BeatDurationDef(beat),
                            leaf_range(n, t),
                        ),
                        None => erring(
                            w,
                            "Invalid duration format: "@ + leaf_text(n, t),
                            leaf_range(n, t),
                        ),
                    },
                    None => w,
                };
                pushed(
                    Walk { state: CompileState { bpm, ..beaten.state }, ..beaten },
                    EventBodyView::BPMDef(bpm),
                    leaf_range(n, b),
                )
            },
            None => erring(w, "Invalid BPM value: "@ + leaf_text(n, b), leaf_range(n, b)),
        },
        None => erring(w, "BPM definition must have a number token"@, span(n)),
    }
}

/// The walk after a comma: the time moves on by the quantize, and the
/// place in the bar is put over a multiple of the quantize's denominator.
/// Where the numbers do not fit, an error about `span` says so and nothing
/// else changes.
pub open spec fn after_comma(w: Walk, span: TextRange) -> Walk {
    let stays = erring(w, "Time does not fit the range of numbers"@, span);
    match w.state.time.later(w.state.quantize, w.state) {
        Some(t) => match t.snapped(w.state.quantize) {
            Some(time) => Walk { state: CompileState { time, ..w.state }, ..w },
            None => stays,
        },
        None => stays,
    }
}

/// The walk after `{n:d}`: the quantize is `n/d`, if that can be read and
/// is positive, and an event says so; else an error says so.
pub open spec fn quantized(n: SyntaxNode, t: usize, w: Walk) -> Walk {
    match duration_of(leaf_bytes(n.tree, n.source.spec_bytes(), t as int)) {
        Some(d) => if d.0 > 0 {
            pushed(
                Walk { state: CompileState { quantize: d, ..w.state }, ..w },
                EventBodyView::QuantizeDef(d),
                leaf_range(n, t),
            )
        } else {
            erring(w, "Invalid duration format: "@ + leaf_text(n, t), leaf_range(n, t))
        },
        None => erring(w, "Invalid duration format: "@ + leaf_text(n, t), leaf_range(n, t)),
    }
}

/// The walk after the first `k` children of a line: its definitions,
/// notes and commas in their order. A child that is none of these, nor a
/// line end, blank, comment or `=`, is an error.
pub open spec fn line_walk(n: SyntaxNode, k: int, w: Walk) -> Walk
    decreases k,
{
    if k <= 0 {
        w
    } else {
        let before = line_walk(n, k - 1, w);
        match n.child_elements()[k - 1] {
            Element::Node(j) => {
                let kind = n.tree.nodes@[j as int].kind;
                if kind == SyntaxKind::NODE_BPM_DEF {
                    timed(node_at(n, j), before)
                } else if kind == SyntaxKind::NODE_TIME_SIGNATURE_DEF {
                    signed(node_at(n, j), before)
                } else if kind == SyntaxKind::NODE_BASE_PITCH_DEF {
                    based(node_at(n, j), before)
                } else if kind == SyntaxKind::NODE_NOTE_GROUP || kind == SyntaxKind::NODE_NOTE {
                    grouped(node_at(n, j), before)
                } else {
                    erring(
                        before,
                        "Unexpected node in line: "@ + kind.spec_name(),
                        span(node_at(n, j)),
                    )
                }
            },
            Element::Token(t) => {
                let kind = n.tree.tokens@[t as int].kind;
                if kind == SyntaxKind::Quantize {
                    quantized(n, t, before)
                } else if kind == SyntaxKind::Comma {
                    after_comma(before, leaf_range(n, t))
                } else if kind == SyntaxKind::Newline || kind == SyntaxKind::Whitespace || kind
                    == SyntaxKind::Comment || kind == SyntaxKind::Equals {
                    before
                } else {
                    erring(
                        before,
                        "Unexpected token in line: "@ + leaf_text(n, t),
                        leaf_range(n, t),
                    )
                }
            },
        }
    }
}

/// The place in the bar is behind its start and not where the time
/// signature ends the bar.
pub open spec fn within_bar(state: CompileState) -> bool {
    Rational32(0, 1).less_value(state.time.ticks) && !state.time.ticks.same_value(
        state.time_signature,
    )
}

/// The walk after a line. A line that ends within a bar is warned of.
/// After a ghost line the time is where it was before the line.
pub open spec fn lined(n: SyntaxNode, w: Walk) -> Walk {
    let done = line_walk(n, n.child_elements().len() as int, w);
    let ended = if within_bar(done.state) {
        Walk {
            told: done.told.push(
                warning_of(
                    "Line ended but current ticks do not align with time signature"@,
                    span(n),
                ),
            ),
            ..done
        }
    } else {
        done
    };
    if node_kind(n) == SyntaxKind::NODE_GHOST_LINE {
        Walk { state: CompileState { time: w.state.time, ..ended.state }, ..ended }
    } else {
        ended
    }
}

/// The walk at the end of a bar that has begun: the next bar starts, the
/// place in the bar is zero over the denominator of the quantize, and a
/// new-measure event says so. Where the bar has not begun, or the number
/// of bars does not fit, nothing changes.
pub open spec fn barred(w: Walk) -> Walk {
    if w.state.time.ticks.0 > 0 && w.state.time.bars < u32::MAX {
        let time = TimeStamp {
            bars: (w.state.time.bars + 1) as u32,
            ticks: Rational32(0, w.state.quantize.1),
            ..w.state.time
        };
        Walk {
            state: CompileState { time, ..w.state },
            events: w.events.push(
                CompileEventView {
                    body: EventBodyView::NewMeasure((w.state.time.bars + 1) as u32),
                    start_time: time,
                    range: TextRange { start: 0, end: 0 },
                    range_invoked: None,
                },
            ),
            ..w
        }
    } else {
        w
    }
}

/// The walk with `name` defined as `def` from here on.
pub open spec fn naming(w: Walk, name: Seq<char>, def: MacroDefView) -> Walk {
    Walk { macros: w.macros.push(MacroEntryView { name, def }), ..w }
}

/// The walk after `name = chain`: the name stands for the chain, if the
/// chain can be read. A definition without a chain is an error.
pub open spec fn alias_defined(n: SyntaxNode, name: Seq<char>, w: Walk) -> Walk {
    match first_node_of(n.tree, n.index as int, SyntaxKind::NODE_PITCH_CHAIN, 0) {
        Some(c) => {
            let leaves = chain_leaves(node_at(n, c));
            if leaves.len() > 0 {
                let seen = all_seen(leaves, w.macros);
                let st = chain_state(
                    ChainPlace::Base,
                    seen,
                    w.state.edo_def,
                    leaves.len() as int,
                );
                let read = telling(
                    Walk { state: CompileState { edo_def: st.edo, ..w.state }, ..w },
                    chain_trouble(ChainPlace::Base, seen, w.state.edo_def, span(node_at(n, c))),
                );
                if chain_holds(ChainPlace::Base, st) {
                    naming(read, name, MacroDefView::Alias(st.atoms))
                } else {
                    read
                }
            } else {
                w
            }
        },
        None => erring(w, "Alias macro definition must contain a pitch chain"@, span(n)),
    }
}

/// The walk and the notes of a list after the note node `child` of the
/// list: the note that its pitch chain spells joins the list. A node
/// without a chain, or with one without leaves, is an error.
pub open spec fn listed(child: SyntaxNode, s: (Walk, Seq<NoteView>)) -> (Walk, Seq<NoteView>) {
    match first_node_of(child.tree, child.index as int, SyntaxKind::NODE_PITCH_CHAIN, 0) {
        Some(c) => {
            let leaves = chain_leaves(node_at(child, c));
            if leaves.len() > 0 {
                let place = ChainPlace::Note { formal: false };
                let seen = all_seen(leaves, s.0.macros);
                let st = chain_state(place, seen, s.0.state.edo_def, leaves.len() as int);
                (
                    telling(
                        Walk { state: CompileState { edo_def: st.edo, ..s.0.state }, ..s.0 },
                        chain_trouble(place, seen, s.0.state.edo_def, span(node_at(child, c))),
                    ),
                    if chain_holds(place, st) {
                        s.1.push(
                            NoteView {
                                pitch_chain: st.atoms,
                                base: s.0.state.base,
                                duration: Rational32(0, 4),
                                duration_nanos: 0,
                            },
                        )
                    } else {
                        s.1
                    },
                )
            } else {
                (
                    erring(
                        s.0,
                        "Simple macro note must contain a pitch chain"@,
                        span(node_at(child, c)),
                    ),
                    s.1,
                )
            }
        },
        None => (erring(s.0, "Simple macro note must contain a pitch chain"@, span(child)), s.1),
    }
}

/// The walk and the notes of a list after the first `k` children of its
/// definition.
pub open spec fn list_walk(n: SyntaxNode, k: int, s: (Walk, Seq<NoteView>)) -> (Walk, Seq<NoteView>)
    decreases k,
{
    if k <= 0 {
        s
    } else {
        let before = list_walk(n, k - 1, s);
        match n.child_elements()[k - 1] {
            Element::Node(j) => if n.tree.nodes@[j as int].kind == SyntaxKind::NODE_NOTE {
                listed(node_at(n, j), before)
            } else {
                before
            },
            Element::Token(_) => before,
        }
    }
}

/// The walk after `name = note : note ...`: the name stands for the
/// notes.
pub open spec fn list_defined(n: SyntaxNode, name: Seq<char>, w: Walk) -> Walk {
    let read = list_walk(n, n.child_elements().len() as int, (w, Seq::empty()));
    naming(read.0, name, MacroDefView::Simple(read.1))
}

/// The walk after the first `k` children of the body of a macro: each
/// node among them is a line, and the bar ends behind it.
pub open spec fn body_walk(n: SyntaxNode, k: int, w: Walk) -> Walk
    decreases k,
{
    if k <= 0 {
        w
    } else {
        let before = body_walk(n, k - 1, w);
        match n.child_elements()[k - 1] {
            Element::Node(j) => barred(lined(node_at(n, j), before)),
            Element::Token(_) => before,
        }
    }
}

/// The walk after the definition of a macro with a body: the name stands
/// for the events of the body, which are made on a time line of their own
/// that starts at zero. The state is what it was before; the base pitches
/// that the body defines stay, and so does what is said of the body. A
/// definition without a body is an error.
pub open spec fn body_defined(n: SyntaxNode, name: Seq<char>, w: Walk) -> Walk {
    match first_node_of(n.tree, n.index as int, SyntaxKind::NODE_MACRODEF_COMPLEX_BODY, 0) {
        Some(b) => {
            let inner = body_walk(
                node_at(n, b),
                node_at(n, b).child_elements().len() as int,
                Walk {
                    state: CompileState {
                        time: TimeStamp {
                            nanos: 0,
                            bars: 0,
                            ticks: Rational32(0, w.state.quantize.1),
                        },
                        ..w.state
                    },
                    events: Seq::empty(),
                    ..w
                },
            );
            naming(
                Walk { state: w.state, events: w.events, ..inner },
                name,
                MacroDefView::Complex(inner.events),
            )
        },
        None => erring(w, "Macro complex definition must have a body node"@, span(n)),
    }
}

/// The walk after the definition of a macro: the name stands from here on
/// for the chain, the notes or the events that the definition spells. The
/// time stays where it is. A definition without a name is an error.
pub open spec fn defined(n: SyntaxNode, w: Walk) -> Walk {
    match first_leaf_of(n.tree, n.index as int, SyntaxKind::Identifier, SyntaxKind::Identifier, 0) {
        Some(t) => {
            let name = leaf_text(n, t);
            if node_kind(n) == SyntaxKind::NODE_MACRODEF_ALIAS {
                alias_defined(n, name, w)
            } else if node_kind(n) == SyntaxKind::NODE_MACRODEF_SIMPLE {
                list_defined(n, name, w)
            } else if node_kind(n) == SyntaxKind::NODE_MACRODEF_COMPLEX {
                body_defined(n, name, w)
            } else {
                erring(
                    w,
                    "Unexpected macro definition kind: "@ + node_kind(n).spec_name(),
                    span(n),
                )
            }
        },
        None => erring(w, "Macro definition must have an identifier token"@, span(n)),
    }
}

/// The walk after the first `k` children of the root: definitions of
/// macros and lines in their order, and the end of the bar behind each
/// child. Any other node is an error, and so is a leaf that is no line
/// end, blank or comment.
pub open spec fn root_walk(n: SyntaxNode, k: int, w: Walk) -> Walk
    decreases k,
{
    if k <= 0 {
        w
    } else {
        let before = root_walk(n, k - 1, w);
        barred(
            match n.child_elements()[k - 1] {
                Element::Node(j) => {
                    let kind = n.tree.nodes@[j as int].kind;
                    if kind == SyntaxKind::NODE_MACRODEF_ALIAS || kind
                        == SyntaxKind::NODE_MACRODEF_SIMPLE || kind
                        == SyntaxKind::NODE_MACRODEF_COMPLEX {
                        defined(node_at(n, j), before)
                    } else if kind == SyntaxKind::NODE_NORMAL_LINE || kind
                        == SyntaxKind::NODE_GHOST_LINE {
                        lined(node_at(n, j), before)
                    } else {
                        erring(
                            before,
                            "Unexpected node kind: "@ + kind.spec_name(),
                            span(node_at(n, j)),
                        )
                    }
                },
                Element::Token(t) => {
                    let kind = n.tree.tokens@[t as int].kind;
                    if !kind.spec_is_trivia() && kind != SyntaxKind::Newline {
                        erring(before, "Unexpected token: "@ + leaf_text(n, t), leaf_range(n, t))
                    } else {
                        before
                    }
                },
            },
        )
    }
}

/// The walk after the two passes of the finalisation: every note with a
/// negative duration is a note that starts that much earlier, and the
/// sustains are folded into the notes that they hold on to; a sustain that
/// holds on to no note is warned of.
pub open spec fn finished(w: Walk) -> Walk {
    let turned = w.events.map_values(|e: CompileEventView| without_lead_in(e, w.state));
    Walk {
        events: without_sustains(folded(turned, turned.len() as int)),
        told: w.told + lone_sustains(turned, turned.len() as int).map_values(
            |r: TextRange| lone_sustain_warning(r),
        ),
        ..w
    }
}

/// What a score means: the walk through the children of its root, and
/// then the finalisation.
pub open spec fn compiled(tree: SyntaxNode, w: Walk) -> Walk {
    finished(root_walk(tree, tree.child_elements().len() as int, w))
}

} // verus!
