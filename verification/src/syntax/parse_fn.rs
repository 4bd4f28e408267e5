//! The grammar of the score language.
//!
//! ```text
//! root        := (macro_def | line | ghost_line | Newline)*
//! ghost_line  := '=' line
//! line        := (',' | Quantize | base_pitch | time_signature | bpm | note_group)* Newline
//! macro_def   := Identifier '=' (alias | simple | body)
//! note_group  := note ((':' | ';') note)* duration?
//! note        := pitch_chain duration?
//! pitch_chain := (pitch | Identifier) ('@' (pitch | Identifier) | '+' | '-')*
//! ```
//!
//! Every function here takes the tokens it understands and records an error
//! for what it does not; none of them stops the parse.

use super::lexer::SyntaxKind;
use super::marker::Marker;
use super::grammar::{
    alias, base_inside, base_pitch, body, body_lines, bpm, chain, chain_tail, group_read, is_atom, left, line,
    line_kind, line_rest, list, list_read, macro_def, names_pitch, nearer, note_group, note_made,
    plain_chain, root, signs, strays, time_signature, Group,
};
use super::parser::{
    bumped, completed, erred, expected, finished, fresh, parse, peeked, started, Parse,
    ParseEntry, Parser, ParserView,
};
use super::scan::tokens_from;
use super::types::Event;
use std::sync::Arc;
use vstd::prelude::*;
use vstd::string::{StringExecFns, StringSliceAdditionalSpecFns};

verus! {

/// The grammar of a whole source.
pub struct RootEntry;

impl ParseEntry for RootEntry {
    open spec fn made(&self, v: ParserView) -> ParserView {
        root(v)
    }

    fn run(&self, parser: &mut Parser) {
        parse_root(parser)
    }
}

/// Parses a source into its tree: the tree of the events that the grammar
/// records for the tokens of the source, under a root of kind `NODE_ROOT`.
pub fn parse_source(source: Arc<str>) -> (result: Parse)
    requires
        source.spec_bytes().len() < u32::MAX,
    ensures
        result.of(source.spec_bytes()),
        result.green_node.nodes@[0].kind == SyntaxKind::NODE_ROOT,
        result.made_by(
            finished(
                root(started(fresh(tokens_from(source.spec_bytes(), 0)))),
                SyntaxKind::NODE_ROOT,
            ),
        ),
{
    parse(source, RootEntry)
}

fn peeks_pitch(parser: &Parser) -> (b: bool)
    requires
        parser.wf(),
    ensures
        b == names_pitch(parser.ahead(0)),
{
    match parser.peek() {
        Some(k) => k.is_pitch() || k == SyntaxKind::Identifier,
        None => false,
    }
}

/// root := (macro_def | line | ghost_line | Newline)*
///
/// Reads every token. An identifier with a `=` later on its line starts a
/// macro definition, a `=` starts a ghost line, a line end stands alone,
/// and anything else starts a line.
pub fn parse_root(parser: &mut Parser)
    requires
        old(parser).wf(),
    ensures
        final(parser).extends(old(parser)),
        final(parser).at_end(),
        final(parser)@ == root(old(parser)@),
{
    let ghost total = root(parser@);
    loop
        invariant_except_break
            root(parser@) == total,
        invariant
            parser.extends(old(parser)),
        ensures
            parser.extends(old(parser)),
            parser.at_end(),
            parser@ == total,
        decreases parser.significant_indices@.len() - parser.cursor,
    {
        let tok = match parser.peek() {
            Some(tok) => tok,
            None => {
                break ;
            },
        };
        let ghost v = parser@;
        if tok == SyntaxKind::Identifier && parser.look_for_before(
            SyntaxKind::Equals,
            SyntaxKind::Newline,
        ) {
            parse_macro_def(parser);
        } else if tok == SyntaxKind::Equals {
            parse_normal_line(parser, true);
        } else if tok == SyntaxKind::Newline {
            parser.bump();
        } else {
            parse_normal_line(parser, false);
        }
        proof {
            assert(nearer(parser@, v));
        }
    }
}

/// line := (',' | Quantize | base_pitch | time_signature | bpm | note_group)* Newline
///
/// Makes one node, a ghost line if `is_ghost` and a normal line otherwise,
/// of the tokens up to and with the next line end; a leading `=` of a ghost
/// line is part of it.
pub fn parse_normal_line(parser: &mut Parser, is_ghost: bool)
    requires
        old(parser).wf(),
    ensures
        final(parser).extends(old(parser)),
        !old(parser).at_end() ==> final(parser).cursor > old(parser).cursor,
        final(parser).events@.len() >= old(parser).events@.len() + 2,
        final(parser).events@[old(parser).events@.len() as int] == (Event::StartNode {
            kind: line_kind(is_ghost),
            forward_parent: None,
        }),
        final(parser).events@.last() == Event::FinishNode,
        final(parser)@ == line(old(parser)@, is_ghost),
{
    let m = parser.start_node();
    if is_ghost {
        parser.eat(SyntaxKind::Equals);
    }
    let ghost total = line_rest(parser@);
    loop
        invariant_except_break
            line_rest(parser@) == total,
        invariant
            parser.extends(old(parser)),
            m.pending(parser),
            m.spec_pos() == old(parser).events@.len(),
        ensures
            parser.extends(old(parser)),
            m.pending(parser),
            m.spec_pos() == old(parser).events@.len(),
            parser.at_end() || parser.cursor > old(parser).cursor,
            parser@ == total,
        decreases parser.significant_indices@.len() - parser.cursor,
    {
        let tok = match parser.peek() {
            Some(tok) => tok,
            None => {
                break ;
            },
        };
        let second = parser.nth(1);
        let ghost v = parser@;
        if tok == SyntaxKind::Newline {
            parser.bump();
            break ;
        } else if tok == SyntaxKind::Comma || tok == SyntaxKind::Quantize {
            parser.bump();
        } else if tok == SyntaxKind::LAngle {
            parse_base_pitch(parser);
        } else if tok == SyntaxKind::LParen && second == Some(SyntaxKind::PitchRatio) {
            parse_time_signature(parser);
        } else if tok == SyntaxKind::LParen && (second == Some(SyntaxKind::DurationFraction)
            || second == Some(SyntaxKind::PitchFrequency)) {
            parse_bpm(parser);
        } else if tok.is_pitch() || tok.is_formal_pitch() || tok == SyntaxKind::Identifier || tok
            == SyntaxKind::Semicolon {
            parse_note_group(parser);
        } else {
            parser.error("Unexpected token in normal line");
            parser.bump();
        }
        proof {
            assert(nearer(parser@, v));
        }
    }
    m.complete(parser, line_kind_of(is_ghost));
}

/// The kind of a line.
fn line_kind_of(is_ghost: bool) -> (kind: SyntaxKind)
    ensures
        kind == line_kind(is_ghost),
{
    if is_ghost {
        SyntaxKind::NODE_GHOST_LINE
    } else {
        SyntaxKind::NODE_NORMAL_LINE
    }
}

/// Where a note that is being read started, if one is.
pub open spec fn place(note: Option<Marker>) -> Option<int> {
    match note {
        Some(m) => Some(m.spec_pos()),
        None => None,
    }
}

/// Completes the marker of a note, if there is one.
fn complete_note(parser: &mut Parser, note: Option<Marker>, Ghost(base): Ghost<int>)
    requires
        old(parser).wf(),
        note matches Some(m) ==> m.pending(old(parser)) && base <= m.spec_pos(),
    ensures
        final(parser).extends_from(old(parser), base),
        final(parser).cursor == old(parser).cursor,
        forall|i: int|
            0 <= i < old(parser).events@.len() && !(note matches Some(m) && m.spec_pos() == i)
                ==> #[trigger] final(parser).events@[i] == old(parser).events@[i],
        final(parser)@ == note_made(old(parser)@, place(note)),
{
    match note {
        Some(m) => {
            m.complete(parser, SyntaxKind::NODE_NOTE);
        },
        None => {},
    }
}

/// A pitch chain that starts with the next token, which is a pitch atom or
/// an identifier; an identifier and the tail behind it make a macro call
/// inside the chain.
fn parse_chain(parser: &mut Parser, tok: SyntaxKind)
    requires
        old(parser).wf(),
        old(parser).ahead(0) == Some(tok),
    ensures
        final(parser).extends(old(parser)),
        final(parser).cursor > old(parser).cursor,
        final(parser)@ == chain(old(parser)@),
{
    let chain_marker = parser.start_node();
    if tok == SyntaxKind::Identifier {
        let mm = parser.start_node();
        parser.bump();
        parse_pitch_chain_tail(parser);
        mm.complete(parser, SyntaxKind::NODE_MACRO_INVOKE);
    } else {
        parser.bump();
        parse_pitch_chain_tail(parser);
    }
    chain_marker.complete(parser, SyntaxKind::NODE_PITCH_CHAIN);
}

/// note_group := note ((':' | ';') note)* duration?
///
/// Takes notes and separators up to the first token that is neither. Each
/// note becomes a node; with a separator among them, they become a note
/// group together. A line end in place of the comma that should follow is
/// an error and is left for the line.
pub fn parse_note_group(parser: &mut Parser)
    requires
        old(parser).wf(),
    ensures
        final(parser).extends(old(parser)),
        old(parser).ahead(0) matches Some(k) && (is_atom(k) || k == SyntaxKind::Identifier || k
            == SyntaxKind::Colon || k == SyntaxKind::Semicolon) ==> final(parser).cursor > old(parser).cursor,
        final(parser)@ == note_group(old(parser)@),
{
    let note_group_marker = parser.start_node();
    let mut is_group = false;
    let mut note_marker: Option<Marker> = None;
    let ghost first = old(parser).ahead(0);
    let ghost total = group_read(Group { parser: parser@, is_group: false, note: None });
    loop
        invariant_except_break
            group_read(Group { parser: parser@, is_group, note: place(note_marker) }) == total,
        invariant
            parser.extends(old(parser)),
            note_group_marker.pending(parser),
            note_group_marker.spec_pos() == old(parser).events@.len(),
            note_marker matches Some(m) ==> m.pending(parser) && m.spec_pos()
                > note_group_marker.spec_pos(),
            parser.cursor == old(parser).cursor ==> parser.ahead(0) == first,
            first == old(parser).ahead(0),
        ensures
            parser.extends(old(parser)),
            note_group_marker.pending(parser),
            note_group_marker.spec_pos() == old(parser).events@.len(),
            note_marker matches Some(m) ==> m.pending(parser) && m.spec_pos()
                > note_group_marker.spec_pos(),
            first matches Some(k) && (is_atom(k) || k == SyntaxKind::Identifier || k
                == SyntaxKind::Colon || k == SyntaxKind::Semicolon) ==> parser.cursor > old(parser).cursor,
            (Group { parser: parser@, is_group, note: place(note_marker) }) == total,
        decreases parser.significant_indices@.len() - parser.cursor,
    {
        let tok = match parser.peek() {
            Some(tok) => tok,
            None => {
                break ;
            },
        };
        let ghost v = parser@;
        if tok.is_pitch() || tok.is_formal_pitch() || tok == SyntaxKind::Identifier {
            if note_marker.is_none() {
                note_marker = Some(parser.start_node());
            }
            parse_chain(parser, tok);
            proof {
                assert(nearer(parser@, v));
            }
        } else if tok == SyntaxKind::Colon || tok == SyntaxKind::Semicolon {
            is_group = true;
            complete_note(parser, note_marker, Ghost(old(parser).events@.len() as int));
            note_marker = None;
            parser.bump();
            proof {
                assert(nearer(parser@, v));
            }
        } else if tok == SyntaxKind::DurationCommas || tok == SyntaxKind::DurationFraction {
            parser.bump();
            proof {
                assert(nearer(parser@, v));
            }
        } else if tok == SyntaxKind::Newline {
            parser.error("unexpected end of line in note group");
            break ;
        } else {
            break ;
        }
    }
    complete_note(parser, note_marker, Ghost(old(parser).events@.len() as int));
    if is_group {
        note_group_marker.complete(parser, SyntaxKind::NODE_NOTE_GROUP);
    } else {
        note_group_marker.abandon(parser);
    }
}

/// The tail of a pitch chain: `+` and `-` as often as they come, and `@`
/// with a pitch atom or an identifier behind it. An `@` with anything else
/// behind it is an error and ends the tail.
pub fn parse_pitch_chain_tail(parser: &mut Parser)
    requires
        old(parser).wf(),
    ensures
        final(parser).extends(old(parser)),
        final(parser)@ == chain_tail(old(parser)@),
{
    let ghost total = chain_tail(parser@);
    loop
        invariant_except_break
            chain_tail(parser@) == total,
        invariant
            parser.extends(old(parser)),
        ensures
            parser.extends(old(parser)),
            parser@ == total,
        decreases parser.significant_indices@.len() - parser.cursor,
    {
        let ghost v = parser@;
        take_signs(parser);
        if !parser.eat(SyntaxKind::At) {
            break ;
        }
        if peeks_pitch(parser) {
            parser.bump();
            proof {
                assert(nearer(parser@, v));
            }
            continue ;
        }
        parser.error("Expected pitch token or identifier after '@'");
        break ;
    }
}

/// Takes the `+` and `-` that come next.
fn take_signs(parser: &mut Parser)
    requires
        old(parser).wf(),
    ensures
        final(parser).extends(old(parser)),
        final(parser)@ == signs(old(parser)@),
{
    let ghost total = signs(parser@);
    loop
        invariant_except_break
            signs(parser@) == total,
        invariant
            parser.extends(old(parser)),
        ensures
            parser.extends(old(parser)),
            parser@ == total,
        decreases parser.significant_indices@.len() - parser.cursor,
    {
        let ghost v = parser@;
        if !(parser.eat(SyntaxKind::Plus) || parser.eat(SyntaxKind::PitchSustain)) {
            break ;
        }
        proof {
            assert(nearer(parser@, v));
        }
    }
}

/// bpm := '(' (DurationFraction '=')? PitchFrequency ')'
#[verifier::rlimit(60)]
pub fn parse_bpm(parser: &mut Parser)
    requires
        old(parser).wf(),
    ensures
        final(parser).extends(old(parser)),
        old(parser).ahead(0) == Some(SyntaxKind::LParen) ==> final(parser).cursor > old(parser).cursor,
        final(parser).events@.len() >= old(parser).events@.len() + 2,
        final(parser).events@[old(parser).events@.len() as int] == (Event::StartNode {
            kind: SyntaxKind::NODE_BPM_DEF,
            forward_parent: None,
        }),
        final(parser).events@.last() == Event::FinishNode,
        final(parser)@ == bpm(old(parser)@),
{
    let m = parser.start_node();
    parser.expect(SyntaxKind::LParen);
    if parser.eat(SyntaxKind::DurationFraction) {
        parser.expect(SyntaxKind::Equals);
    }
    parser.expect(SyntaxKind::PitchFrequency);
    parser.expect(SyntaxKind::RParen);
    m.complete(parser, SyntaxKind::NODE_BPM_DEF);
}

/// time_signature := '(' PitchRatio ')'
pub fn parse_time_signature(parser: &mut Parser)
    requires
        old(parser).wf(),
    ensures
        final(parser).extends(old(parser)),
        old(parser).ahead(0) == Some(SyntaxKind::LParen) ==> final(parser).cursor > old(parser).cursor,
        final(parser).events@.len() >= old(parser).events@.len() + 2,
        final(parser).events@[old(parser).events@.len() as int] == (Event::StartNode {
            kind: SyntaxKind::NODE_TIME_SIGNATURE_DEF,
            forward_parent: None,
        }),
        final(parser).events@.last() == Event::FinishNode,
        final(parser)@ == time_signature(old(parser)@),
{
    let m = parser.start_node();
    parser.expect(SyntaxKind::LParen);
    parser.expect(SyntaxKind::PitchRatio);
    parser.expect(SyntaxKind::RParen);
    m.complete(parser, SyntaxKind::NODE_TIME_SIGNATURE_DEF);
}

/// A pitch chain without a macro call around an identifier at its head.
fn parse_plain_chain(parser: &mut Parser)
    requires
        old(parser).wf(),
    ensures
        final(parser).extends(old(parser)),
        final(parser)@ == plain_chain(old(parser)@),
{
    let chain_marker = parser.start_node();
    parser.bump();
    parse_pitch_chain_tail(parser);
    chain_marker.complete(parser, SyntaxKind::NODE_PITCH_CHAIN);
}

/// base_pitch := '<' (spell ('=' pitch_chain)? | pitch_chain) '>'
pub fn parse_base_pitch(parser: &mut Parser)
    requires
        old(parser).wf(),
    ensures
        final(parser).extends(old(parser)),
        old(parser).ahead(0) == Some(SyntaxKind::LAngle) ==> final(parser).cursor > old(parser).cursor,
        final(parser).events@.len() >= old(parser).events@.len() + 2,
        final(parser).events@[old(parser).events@.len() as int] == (Event::StartNode {
            kind: SyntaxKind::NODE_BASE_PITCH_DEF,
            forward_parent: None,
        }),
        final(parser).events@.last() == Event::FinishNode,
        final(parser)@ == base_pitch(old(parser)@),
{
    let m = parser.start_node();
    parser.expect(SyntaxKind::LAngle);
    let ghost opened = *parser;
    parse_base_inside(parser);
    proof {
        parser.lemma_extends_chain(
            &opened,
            old(parser),
            opened.events@.len() as int,
            old(parser).events@.len() as int,
        );
    }
    parser.expect(SyntaxKind::RAngle);
    m.complete(parser, SyntaxKind::NODE_BASE_PITCH_DEF);
}

/// What stands between `<` and `>`: a spelling, a spelling with `=` and a
/// chain, or a chain.
fn parse_base_inside(parser: &mut Parser)
    requires
        old(parser).wf(),
    ensures
        final(parser).extends(old(parser)),
        final(parser)@ == base_inside(old(parser)@),
{
    let has_spell = parser.eat(SyntaxKind::PitchSpellOctave) || parser.eat(
        SyntaxKind::PitchSpellSimple,
    );
    if has_spell {
        if parser.eat(SyntaxKind::Equals) {
            if peeks_pitch(parser) {
                parse_plain_chain(parser);
            } else {
                parser.error("Expected pitch token after '=' in base pitch definition");
            }
        }
    } else if peeks_pitch(parser) {
        parse_plain_chain(parser);
    } else {
        parser.error("Base pitch definition must contain a pitch token");
    }
}

/// macro_def := Identifier '=' (alias | simple | body)
///
/// Behind the `=`, a line end starts a body of several lines; a pitch or an
/// identifier starts a list of notes if a `:` follows on the line, and a
/// single chain otherwise; anything else starts a body of one line.
pub fn parse_macro_def(parser: &mut Parser)
    requires
        old(parser).wf(),
    ensures
        final(parser).extends(old(parser)),
        old(parser).ahead(0) == Some(SyntaxKind::Identifier) ==> final(parser).cursor > old(parser).cursor,
        final(parser).events@.len() >= old(parser).events@.len() + 2,
        final(parser).events@[old(parser).events@.len() as int] matches Event::StartNode {
            kind,
            forward_parent: None,
        } && (kind == SyntaxKind::NODE_MACRODEF_ALIAS || kind == SyntaxKind::NODE_MACRODEF_SIMPLE
            || kind == SyntaxKind::NODE_MACRODEF_COMPLEX),
        final(parser).events@.last() == Event::FinishNode,
        final(parser)@ == macro_def(old(parser)@),
{
    let m = parser.start_node();
    parser.expect(SyntaxKind::Identifier);
    parser.expect(SyntaxKind::Equals);
    if parser.at(SyntaxKind::Newline) {
        parse_multi_line_macro_def(parser, m, false);
    } else if peeks_pitch(parser) {
        if parser.look_for_before(SyntaxKind::Colon, SyntaxKind::Newline) {
            parse_simple_macro_def(parser, m);
        } else {
            parse_alias_macro_def(parser, m);
        }
    } else {
        parse_multi_line_macro_def(parser, m, true);
    }
}

fn unexpected_token_in(tok: SyntaxKind, place: &str) -> (message: String)
    ensures
        message@ == "Unexpected token "@ + tok.spec_name() + place@,
{
    let mut message = String::from_str("Unexpected token ");
    message.append(tok.name());
    message.append(place);
    message
}

/// Takes the tokens up to the next line end, each as an error with the
/// message that `place` ends.
fn take_strays(parser: &mut Parser, place: &str)
    requires
        old(parser).wf(),
    ensures
        final(parser).extends(old(parser)),
        final(parser)@ == strays(old(parser)@, place@),
{
    let ghost total = strays(parser@, place@);
    loop
        invariant_except_break
            strays(parser@, place@) == total,
        invariant
            parser.extends(old(parser)),
        ensures
            parser.extends(old(parser)),
            parser@ == total,
        decreases parser.significant_indices@.len() - parser.cursor,
    {
        let tok = match parser.peek() {
            Some(tok) => tok,
            None => {
                break ;
            },
        };
        if tok == SyntaxKind::Newline {
            break ;
        }
        let ghost v = parser@;
        let message = unexpected_token_in(tok, place);
        parser.error(message.as_str());
        parser.bump();
        proof {
            assert(nearer(parser@, v));
        }
    }
}

/// alias := pitch_chain
///
/// The chain is the definition; every token behind it on the line is an
/// error.
pub fn parse_alias_macro_def(parser: &mut Parser, m: Marker)
    requires
        old(parser).wf(),
        m.pending(old(parser)),
    ensures
        final(parser).extends_from(old(parser), m.spec_pos()),
        final(parser).events@[m.spec_pos()] == (Event::StartNode {
            kind: SyntaxKind::NODE_MACRODEF_ALIAS,
            forward_parent: None,
        }),
        final(parser).events@.last() == Event::FinishNode,
        final(parser)@ == alias(old(parser)@, m.spec_pos()),
{
    let chain_marker = parser.start_node();
    match parser.peek() {
        Some(k) if k.is_pitch() => {
            parser.bump();
        },
        Some(SyntaxKind::Identifier) => {
            let mm = parser.start_node();
            parser.bump();
            mm.complete(parser, SyntaxKind::NODE_MACRO_INVOKE);
        },
        _ => {
            parser.error("Alias macro definition must start with a pitch token or identifier");
            chain_marker.abandon(parser);
            m.complete(parser, SyntaxKind::NODE_MACRODEF_ALIAS);
            return ;
        },
    }
    parse_pitch_chain_tail(parser);
    chain_marker.complete(parser, SyntaxKind::NODE_PITCH_CHAIN);
    let ghost chained = *parser;
    take_strays(parser, " in alias macro definition");
    proof {
        parser.lemma_extends_chain(
            &chained,
            old(parser),
            chained.events@.len() as int,
            old(parser).events@.len() as int,
        );
    }
    m.complete(parser, SyntaxKind::NODE_MACRODEF_ALIAS);
}

/// simple := note (':' note)*
pub fn parse_simple_macro_def(parser: &mut Parser, m: Marker)
    requires
        old(parser).wf(),
        m.pending(old(parser)),
    ensures
        final(parser).extends_from(old(parser), m.spec_pos()),
        final(parser).events@[m.spec_pos()] == (Event::StartNode {
            kind: SyntaxKind::NODE_MACRODEF_SIMPLE,
            forward_parent: None,
        }),
        final(parser).events@.last() == Event::FinishNode,
        final(parser)@ == list(old(parser)@, m.spec_pos()),
{
    let mut note_marker: Option<Marker> = None;
    let ghost total = list_read(Group { parser: parser@, is_group: false, note: None });
    loop
        invariant_except_break
            list_read(Group { parser: parser@, is_group: false, note: place(note_marker) })
                == total,
        invariant
            parser.extends(old(parser)),
            m.pending(parser),
            m.spec_pos() < old(parser).events@.len(),
            note_marker matches Some(n) ==> n.pending(parser) && n.spec_pos() >= old(parser).events@.len(),
        ensures
            parser.extends(old(parser)),
            m.pending(parser),
            m.spec_pos() < old(parser).events@.len(),
            note_marker matches Some(n) ==> n.pending(parser) && n.spec_pos() >= old(parser).events@.len(),
            (Group { parser: parser@, is_group: false, note: place(note_marker) }) == total,
        decreases parser.significant_indices@.len() - parser.cursor,
    {
        let tok = match parser.peek() {
            Some(tok) => tok,
            None => {
                break ;
            },
        };
        let ghost v = parser@;
        if tok.is_pitch() || tok.is_formal_pitch() || tok == SyntaxKind::Identifier {
            if note_marker.is_none() {
                note_marker = Some(parser.start_node());
            }
            parse_chain(parser, tok);
        } else if tok == SyntaxKind::Colon {
            complete_note(parser, note_marker, Ghost(old(parser).events@.len() as int));
            note_marker = None;
            parser.bump();
        } else if tok == SyntaxKind::Newline {
            break ;
        } else {
            let message = unexpected_token_in(tok, " in simple macro definition");
            parser.error(message.as_str());
            parser.bump();
        }
        proof {
            assert(nearer(parser@, v));
        }
    }
    complete_note(parser, note_marker, Ghost(old(parser).events@.len() as int));
    m.complete(parser, SyntaxKind::NODE_MACRODEF_SIMPLE);
}

/// body := Newline line* Newline | line
///
/// A body of several lines starts behind a line end and goes up to the
/// first empty line; a body of one line is that line.
pub fn parse_multi_line_macro_def(parser: &mut Parser, m: Marker, is_single_line: bool)
    requires
        old(parser).wf(),
        m.pending(old(parser)),
    ensures
        final(parser).extends_from(old(parser), m.spec_pos()),
        final(parser).events@[m.spec_pos()] == (Event::StartNode {
            kind: SyntaxKind::NODE_MACRODEF_COMPLEX,
            forward_parent: None,
        }),
        final(parser).events@.last() == Event::FinishNode,
        final(parser)@ == body(old(parser)@, m.spec_pos(), is_single_line),
{
    if !is_single_line {
        parser.expect(SyntaxKind::Newline);
    }
    let body_marker = parser.start_node();
    let ghost total = body_lines(parser@, is_single_line);
    loop
        invariant_except_break
            body_lines(parser@, is_single_line) == total,
        invariant
            parser.extends(old(parser)),
            m.pending(parser),
            m.spec_pos() < old(parser).events@.len(),
            body_marker.pending(parser),
            body_marker.spec_pos() >= old(parser).events@.len(),
        ensures
            parser.extends(old(parser)),
            m.pending(parser),
            m.spec_pos() < old(parser).events@.len(),
            body_marker.pending(parser),
            body_marker.spec_pos() >= old(parser).events@.len(),
            parser@ == total,
        decreases parser.significant_indices@.len() - parser.cursor,
    {
        let tok = match parser.peek() {
            Some(tok) => tok,
            None => {
                break ;
            },
        };
        let ghost v = parser@;
        if tok == SyntaxKind::Newline {
            parser.bump();
            break ;
        } else {
            parse_normal_line(parser, false);
            proof {
                assert(nearer(parser@, v));
            }
            if is_single_line {
                break ;
            }
        }
    }
    body_marker.complete(parser, SyntaxKind::NODE_MACRODEF_COMPLEX_BODY);
    m.complete(parser, SyntaxKind::NODE_MACRODEF_COMPLEX);
}

} // verus!
