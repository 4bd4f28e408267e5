//! What the grammar makes of the tokens: for each construct, the parser
//! after it as a function of the parser before it.

use super::lexer::SyntaxKind;
use super::parser::{bumped, comes_before, completed, eaten, erred, expected, peeked, started, ParserView};
use vstd::prelude::*;

verus! {

/// The number of tokens ahead that are not trivia.
pub open spec fn left(v: ParserView) -> int {
    v.significant.len() - v.cursor
}

/// Fewer tokens are left in `next` than in `v`.
pub open spec fn nearer(next: ParserView, v: ParserView) -> bool {
    0 <= left(next) < left(v)
}

/// A pitch atom or one of the two atoms that stand for none.
pub open spec fn is_atom(kind: SyntaxKind) -> bool {
    kind.spec_is_pitch() || kind.spec_is_formal_pitch()
}

/// A pitch atom or an identifier, which may name one.
pub open spec fn names_pitch(kind: Option<SyntaxKind>) -> bool {
    match kind {
        Some(k) => k.spec_is_pitch() || k == SyntaxKind::Identifier,
        None => false,
    }
}

/// The parser behind the `+` and `-` that come next.
pub open spec fn signs(v: ParserView) -> ParserView
    decreases left(v),
{
    if peeked(v, 0) == Some(SyntaxKind::Plus) || peeked(v, 0) == Some(SyntaxKind::PitchSustain) {
        let next = bumped(v, None);
        if nearer(next, v) {
            signs(next)
        } else {
            next
        }
    } else {
        v
    }
}

/// The parser behind the tail of a pitch chain: `+` and `-` as often as
/// they come, and `@` with a pitch atom or an identifier behind it. An `@`
/// with anything else behind it is an error and ends the tail.
pub open spec fn chain_tail(v: ParserView) -> ParserView
    decreases left(v),
{
    let s = signs(v);
    if peeked(s, 0) == Some(SyntaxKind::At) {
        let a = bumped(s, None);
        if names_pitch(peeked(a, 0)) {
            let next = bumped(a, None);
            if nearer(next, v) {
                chain_tail(next)
            } else {
                next
            }
        } else {
            erred(a, "Expected pitch token or identifier after '@'"@)
        }
    } else {
        s
    }
}

/// The parser behind a pitch chain that starts with the next token: a
/// chain node of the token and its tail. An identifier at the head makes a
/// macro call of itself and the tail, inside the chain.
pub open spec fn chain(v: ParserView) -> ParserView {
    let c = started(v);
    if peeked(v, 0) == Some(SyntaxKind::Identifier) {
        let call = started(c);
        completed(
            completed(
                chain_tail(bumped(call, None)),
                c.events.len() as int,
                SyntaxKind::NODE_MACRO_INVOKE,
            ),
            v.events.len() as int,
            SyntaxKind::NODE_PITCH_CHAIN,
        )
    } else {
        completed(chain_tail(bumped(c, None)), v.events.len() as int, SyntaxKind::NODE_PITCH_CHAIN)
    }
}

/// The parser behind a pitch chain without a macro call around an
/// identifier at its head.
pub open spec fn plain_chain(v: ParserView) -> ParserView {
    completed(
        chain_tail(bumped(started(v), None)),
        v.events.len() as int,
        SyntaxKind::NODE_PITCH_CHAIN,
    )
}

/// The parser with the note that was started at `note` made, if one was.
pub open spec fn note_made(v: ParserView, note: Option<int>) -> ParserView {
    match note {
        Some(pos) => completed(v, pos, SyntaxKind::NODE_NOTE),
        None => v,
    }
}

/// Where the reading of a group of notes stands: the parser, whether a
/// separator was seen, and where the note that is being read started.
pub struct Group {
    pub parser: ParserView,
    pub is_group: bool,
    pub note: Option<int>,
}

/// The reading of a group of notes from `g` on, up to the first token
/// that is no part of it. A chain goes into the note that is being read, or
/// starts one; `:` and `;` end the note; durations are taken as they come.
/// A line end is an error and is left where it is.
pub open spec fn group_read(g: Group) -> Group
    decreases left(g.parser),
{
    let v = g.parser;
    match peeked(v, 0) {
        Some(tok) => if is_atom(tok) || tok == SyntaxKind::Identifier {
            let opened = if g.note is None {
                Group { parser: started(v), note: Some(v.events.len() as int), ..g }
            } else {
                g
            };
            let next = Group { parser: chain(opened.parser), ..opened };
            if nearer(next.parser, v) {
                group_read(next)
            } else {
                next
            }
        } else if tok == SyntaxKind::Colon || tok == SyntaxKind::Semicolon {
            let next = Group {
                parser: bumped(note_made(v, g.note), None),
                is_group: true,
                note: None,
            };
            if nearer(next.parser, v) {
                group_read(next)
            } else {
                next
            }
        } else if tok == SyntaxKind::DurationCommas || tok == SyntaxKind::DurationFraction {
            let next = Group { parser: bumped(v, None), ..g };
            if nearer(next.parser, v) {
                group_read(next)
            } else {
                next
            }
        } else if tok == SyntaxKind::Newline {
            Group { parser: erred(v, "unexpected end of line in note group"@), ..g }
        } else {
            g
        },
        None => g,
    }
}

/// The parser behind a note or a group of notes. Each note is a node; with
/// a separator among them they are a group together.
pub open spec fn note_group(v: ParserView) -> ParserView {
    let read = group_read(Group { parser: started(v), is_group: false, note: None });
    let made = note_made(read.parser, read.note);
    if read.is_group {
        completed(made, v.events.len() as int, SyntaxKind::NODE_NOTE_GROUP)
    } else {
        made
    }
}

/// The parser behind `(bpm)` or `([n:d] = bpm)`.
pub open spec fn bpm(v: ParserView) -> ParserView {
    let open = expected(started(v), SyntaxKind::LParen);
    let beat = if peeked(open, 0) == Some(SyntaxKind::DurationFraction) {
        expected(bumped(open, None), SyntaxKind::Equals)
    } else {
        open
    };
    completed(
        expected(expected(beat, SyntaxKind::PitchFrequency), SyntaxKind::RParen),
        v.events.len() as int,
        SyntaxKind::NODE_BPM_DEF,
    )
}

/// The parser behind `(n/d)`.
pub open spec fn time_signature(v: ParserView) -> ParserView {
    completed(
        expected(
            expected(expected(started(v), SyntaxKind::LParen), SyntaxKind::PitchRatio),
            SyntaxKind::RParen,
        ),
        v.events.len() as int,
        SyntaxKind::NODE_TIME_SIGNATURE_DEF,
    )
}

/// The parser behind what stands between `<` and `>`: a spelling, a
/// spelling with `=` and a chain, or a chain.
pub open spec fn base_inside(v: ParserView) -> ParserView {
    if peeked(v, 0) == Some(SyntaxKind::PitchSpellOctave) || peeked(v, 0) == Some(
        SyntaxKind::PitchSpellSimple,
    ) {
        let spell = bumped(v, None);
        if peeked(spell, 0) == Some(SyntaxKind::Equals) {
            let equals = bumped(spell, None);
            if names_pitch(peeked(equals, 0)) {
                plain_chain(equals)
            } else {
                erred(equals, "Expected pitch token after '=' in base pitch definition"@)
            }
        } else {
            spell
        }
    } else if names_pitch(peeked(v, 0)) {
        plain_chain(v)
    } else {
        erred(v, "Base pitch definition must contain a pitch token"@)
    }
}

/// The parser behind `<spell>`, `<spell = chain>` or `<chain>`.
pub open spec fn base_pitch(v: ParserView) -> ParserView {
    completed(
        expected(base_inside(expected(started(v), SyntaxKind::LAngle)), SyntaxKind::RAngle),
        v.events.len() as int,
        SyntaxKind::NODE_BASE_PITCH_DEF,
    )
}

/// The parser behind the rest of a line: commas, quantizes, definitions
/// and notes up to and with the next line end. Any other token is an
/// error and is taken.
pub open spec fn line_rest(v: ParserView) -> ParserView
    decreases left(v),
{
    match peeked(v, 0) {
        Some(tok) => if tok == SyntaxKind::Newline {
            bumped(v, None)
        } else {
            let second = peeked(v, 1);
            let next = if tok == SyntaxKind::Comma || tok == SyntaxKind::Quantize {
                bumped(v, None)
            } else if tok == SyntaxKind::LAngle {
                base_pitch(v)
            } else if tok == SyntaxKind::LParen && second == Some(SyntaxKind::PitchRatio) {
                time_signature(v)
            } else if tok == SyntaxKind::LParen && (second == Some(SyntaxKind::DurationFraction)
                || second == Some(SyntaxKind::PitchFrequency)) {
                bpm(v)
            } else if is_atom(tok) || tok == SyntaxKind::Identifier || tok
                == SyntaxKind::Semicolon {
                note_group(v)
            } else {
                bumped(erred(v, "Unexpected token in normal line"@), None)
            };
            if nearer(next, v) {
                line_rest(next)
            } else {
                next
            }
        },
        None => v,
    }
}

/// The kind of a line.
pub open spec fn line_kind(is_ghost: bool) -> SyntaxKind {
    if is_ghost {
        SyntaxKind::NODE_GHOST_LINE
    } else {
        SyntaxKind::NODE_NORMAL_LINE
    }
}

/// The parser behind a line: one node of the tokens up to and with the
/// next line end; the `=` at the head of a ghost line is part of it.
pub open spec fn line(v: ParserView, is_ghost: bool) -> ParserView {
    let head = if is_ghost {
        eaten(started(v), SyntaxKind::Equals)
    } else {
        started(v)
    };
    completed(line_rest(head), v.events.len() as int, line_kind(is_ghost))
}

/// The parser behind the tokens up to the next line end, each of which is
/// an error with the message that `place` ends.
pub open spec fn strays(v: ParserView, place: Seq<char>) -> ParserView
    decreases left(v),
{
    match peeked(v, 0) {
        Some(tok) => if tok == SyntaxKind::Newline {
            v
        } else {
            let next = bumped(erred(v, "Unexpected token "@ + tok.spec_name() + place), None);
            if nearer(next, v) {
                strays(next, place)
            } else {
                next
            }
        },
        None => v,
    }
}

/// The parser behind the chain of an alias: the macro definition that was
/// started at `m` holds the chain; every token behind it on the line is an
/// error.
pub open spec fn alias(v: ParserView, m: int) -> ParserView {
    let c = started(v);
    match peeked(v, 0) {
        Some(k) => if k.spec_is_pitch() || k == SyntaxKind::Identifier {
            let head = if k.spec_is_pitch() {
                bumped(c, None)
            } else {
                completed(
                    bumped(started(c), None),
                    c.events.len() as int,
                    SyntaxKind::NODE_MACRO_INVOKE,
                )
            };
            completed(
                strays(
                    completed(
                        chain_tail(head),
                        v.events.len() as int,
                        SyntaxKind::NODE_PITCH_CHAIN,
                    ),
                    " in alias macro definition"@,
                ),
                m,
                SyntaxKind::NODE_MACRODEF_ALIAS,
            )
        } else {
            completed(
                erred(c, "Alias macro definition must start with a pitch token or identifier"@),
                m,
                SyntaxKind::NODE_MACRODEF_ALIAS,
            )
        },
        None => completed(
            erred(c, "Alias macro definition must start with a pitch token or identifier"@),
            m,
            SyntaxKind::NODE_MACRODEF_ALIAS,
        ),
    }
}

/// The reading of the notes of a list from `g` on, up to the next line
/// end. Any token that is no part of a note is an error and is taken.
pub open spec fn list_read(g: Group) -> Group
    decreases left(g.parser),
{
    let v = g.parser;
    match peeked(v, 0) {
        Some(tok) => if tok == SyntaxKind::Newline {
            g
        } else {
            let next = if is_atom(tok) || tok == SyntaxKind::Identifier {
                let opened = if g.note is None {
                    Group { parser: started(v), note: Some(v.events.len() as int), ..g }
                } else {
                    g
                };
                Group { parser: chain(opened.parser), ..opened }
            } else if tok == SyntaxKind::Colon {
                Group { parser: bumped(note_made(v, g.note), None), note: None, ..g }
            } else {
                Group {
                    parser: bumped(
                        erred(
                            v,
                            "Unexpected token "@ + tok.spec_name()
                                + " in simple macro definition"@,
                        ),
                        None,
                    ),
                    ..g
                }
            };
            if nearer(next.parser, v) {
                list_read(next)
            } else {
                next
            }
        },
        None => g,
    }
}

/// The parser behind a list of notes: the macro definition that was
/// started at `m` holds the notes.
pub open spec fn list(v: ParserView, m: int) -> ParserView {
    let read = list_read(Group { parser: v, is_group: false, note: None });
    completed(note_made(read.parser, read.note), m, SyntaxKind::NODE_MACRODEF_SIMPLE)
}

/// The parser behind the lines of a body: lines up to and with the first
/// empty line, or one line only.
pub open spec fn body_lines(v: ParserView, is_single_line: bool) -> ParserView
    decreases left(v),
{
    match peeked(v, 0) {
        Some(tok) => if tok == SyntaxKind::Newline {
            bumped(v, None)
        } else {
            let next = line(v, false);
            if !is_single_line && nearer(next, v) {
                body_lines(next, is_single_line)
            } else {
                next
            }
        },
        None => v,
    }
}

/// The parser behind a body: the macro definition that was started at `m`
/// holds a body node of lines.
pub open spec fn body(v: ParserView, m: int, is_single_line: bool) -> ParserView {
    let head = if is_single_line {
        v
    } else {
        expected(v, SyntaxKind::Newline)
    };
    completed(
        completed(
            body_lines(started(head), is_single_line),
            head.events.len() as int,
            SyntaxKind::NODE_MACRODEF_COMPLEX_BODY,
        ),
        m,
        SyntaxKind::NODE_MACRODEF_COMPLEX,
    )
}

/// The parser behind the definition of a macro. Behind the `=`, a line
/// end starts a body of several lines; a pitch or an identifier starts a
/// list of notes if a `:` follows on the line, and a single chain
/// otherwise; anything else starts a body of one line.
pub open spec fn macro_def(v: ParserView) -> ParserView {
    let head = expected(expected(started(v), SyntaxKind::Identifier), SyntaxKind::Equals);
    let m = v.events.len() as int;
    if peeked(head, 0) == Some(SyntaxKind::Newline) {
        body(head, m, false)
    } else if names_pitch(peeked(head, 0)) {
        if comes_before(head, SyntaxKind::Colon, SyntaxKind::Newline) {
            list(head, m)
        } else {
            alias(head, m)
        }
    } else {
        body(head, m, true)
    }
}

/// The parser behind a whole source. An identifier with a `=` later on
/// its line starts a macro definition, a `=` starts a ghost line, a line
/// end stands alone, and anything else starts a line.
pub open spec fn root(v: ParserView) -> ParserView
    decreases left(v),
{
    match peeked(v, 0) {
        Some(tok) => {
            let next = if tok == SyntaxKind::Identifier && comes_before(
                v,
                SyntaxKind::Equals,
                SyntaxKind::Newline,
            ) {
                macro_def(v)
            } else if tok == SyntaxKind::Equals {
                line(v, true)
            } else if tok == SyntaxKind::Newline {
                bumped(v, None)
            } else {
                line(v, false)
            };
            if nearer(next, v) {
                root(next)
            } else {
                next
            }
        },
        None => v,
    }
}

} // verus!
