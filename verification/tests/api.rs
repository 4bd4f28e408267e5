use std::sync::Arc;
use symi::compiler::atoms::{char_to_semitone, steps_from_base, steps_from_local_base};
use symi::compiler::compile::{
    check_power_of_two, count_commas, read_atom, read_duration, Compiler,
};
use symi::compiler::time::nanos_of;
use symi::compiler::types::{
    same_text, CompileState, Decimal, EventBody, MacroDef, MacroRegistry, Note, Pitch, TimeStamp,
};
use symi::rational::Rational32;
use symi::syntax::lexer::SyntaxKind;
use symi::syntax::marker::{DropBomb, Marker};
use symi::syntax::parse_fn::{parse_bpm, parse_note_group};
use symi::syntax::parser::{
    parse, parse_with_options, ParseEntry, ParseOptions, Parser, SymiLanguage,
};
use symi::syntax::scan::{tokenize, unrecognized_message};
use symi::syntax::sink::Sink;
use symi::syntax::tree::{Element, GreenNodeBuilder, SyntaxNode};
use symi::syntax::types::{Event, ParseError, TextRange, Token};

fn fraction(r: Rational32) -> (i32, i32) {
    (r.0, r.1)
}

#[test]
fn kinds_know_what_they_are() {
    assert!(SyntaxKind::Whitespace.is_trivia());
    assert!(SyntaxKind::Comment.is_trivia());
    assert!(!SyntaxKind::Newline.is_trivia());
    assert!(!SyntaxKind::Identifier.is_trivia());
    assert!(SyntaxKind::NODE_ROOT.is_node());
    assert!(SyntaxKind::NODE_PITCH_CHAIN.is_node());
    assert!(!SyntaxKind::NODE_NOTE.is_token());
    assert!(SyntaxKind::Error.is_token());
    assert!(SyntaxKind::Plus.is_token());
    for kind in [
        SyntaxKind::PitchSpellOctave,
        SyntaxKind::PitchSpellSimple,
        SyntaxKind::PitchFrequency,
        SyntaxKind::PitchRatio,
        SyntaxKind::PitchEdo,
        SyntaxKind::PitchCents,
    ] {
        assert!(kind.is_pitch());
        assert!(!kind.is_formal_pitch());
    }
    assert!(SyntaxKind::PitchRest.is_formal_pitch());
    assert!(SyntaxKind::PitchSustain.is_formal_pitch());
    assert!(!SyntaxKind::PitchRest.is_pitch());
    assert_eq!(SyntaxKind::NODE_MACRODEF_COMPLEX_BODY.name(), "NODE_MACRODEF_COMPLEX_BODY");
    assert_eq!(SyntaxKind::DurationCommas.name(), "DurationCommas");
    assert_eq!(SymiLanguage, SymiLanguage::default());
}

#[test]
fn text_ranges() {
    let r = TextRange::new(3, 7);
    assert_eq!((r.start(), r.end()), (3, 7));
    assert!(!r.is_empty());
    assert!(TextRange::empty(5).is_empty());
    assert_eq!(TextRange::default(), TextRange::new(0, 0));
    let e = ParseError::new("m".to_string(), r);
    assert_eq!(e.message, "m");
    assert_eq!(e.range, r);
    assert_eq!(unrecognized_message("\"x\""), "Unrecognized token: \"x\"");
    let mut bomb = DropBomb::new();
    assert!(bomb.armed);
    bomb.defuse();
    assert!(!bomb.armed);
}

struct Wrapping;

impl ParseEntry for Wrapping {
    fn run(&self, parser: &mut Parser) {
        // C4 becomes a note, and a group goes round the note afterwards.
        let m = parser.start_node();
        assert!(parser.at(SyntaxKind::PitchSpellOctave));
        assert!(parser.bump());
        let done = m.complete(parser, SyntaxKind::NODE_NOTE);
        let outer = done.precede(parser);
        assert!(parser.at_any(&[SyntaxKind::Colon, SyntaxKind::Comma]));
        assert!(!parser.at_any(&[SyntaxKind::Colon, SyntaxKind::Semicolon]));
        assert!(!parser.at_any(&[]));
        assert!(parser.bump_as(SyntaxKind::Colon));
        outer.complete(parser, SyntaxKind::NODE_NOTE_GROUP);
        let given_up = parser.start_node();
        given_up.abandon(parser);
    }
}

#[test]
fn markers_wrap_nodes_afterwards() {
    let parsed = parse(Arc::from("C4 , x"), Wrapping);
    let root = parsed.syntax_node();
    let group = root.children().into_iter().next().expect("the group");
    assert_eq!(group.kind(), SyntaxKind::NODE_NOTE_GROUP);
    let note = group.children().into_iter().next().expect("the note");
    assert_eq!(note.kind(), SyntaxKind::NODE_NOTE);
    let leaves: Vec<SyntaxKind> = root.tokens().iter().map(|t| t.kind()).collect();
    assert_eq!(
        leaves,
        vec![
            SyntaxKind::PitchSpellOctave,
            SyntaxKind::Whitespace,
            SyntaxKind::Colon,
            SyntaxKind::Whitespace,
            SyntaxKind::Identifier,
        ]
    );
    assert_eq!(group.text_range(), TextRange::new(0, 4));
    assert_eq!(root.text_range(), TextRange::new(0, 6));
    // The tokens that the grammar left are children of the root.
    assert_eq!(root.children_with_tokens().len(), 3);
    assert!(root.contains(note.index));
    assert!(!note.contains(group.index));
    let green = parsed.green_node();
    assert_eq!(green.nodes.len(), 3);
    assert_eq!(green.nodes[0].children[0], Element::Node(1));
    assert_eq!(parsed.into_green().tokens.len(), 5);
}

struct Looking;

impl ParseEntry for Looking {
    fn run(&self, parser: &mut Parser) {
        assert_eq!(parser.peek(), Some(SyntaxKind::Identifier));
        assert_eq!(parser.nth(1), Some(SyntaxKind::Equals));
        assert_eq!(parser.nth(2), Some(SyntaxKind::PitchRatio));
        assert_eq!(parser.nth(3), Some(SyntaxKind::Newline));
        assert_eq!(parser.nth(5), None);
        assert!(parser.look_for_before(SyntaxKind::Equals, SyntaxKind::Newline));
        assert!(!parser.look_for_before(SyntaxKind::Colon, SyntaxKind::Newline));
        assert!(!parser.look_for_before(SyntaxKind::Comma, SyntaxKind::Newline));
        assert!(parser.look_for_before(SyntaxKind::Comma, SyntaxKind::Semicolon));
        assert!(!parser.look_for_before(SyntaxKind::Newline, SyntaxKind::Newline));
        assert!(!parser.eat(SyntaxKind::Equals));
        assert!(parser.eat(SyntaxKind::Identifier));
        parser.expect(SyntaxKind::Equals);
        parser.expect(SyntaxKind::Colon);
        parser.error("by hand");
        assert!(!parser.is_eof());
        while parser.bump() {}
        assert!(parser.is_eof());
        assert!(!parser.bump());
        parser.error("at the end");
    }
}

#[test]
fn parser_looks_ahead_over_trivia() {
    let parsed = parse_with_options(
        Arc::from("a  = 3/2 // x\n,"),
        ParseOptions { root_kind: SyntaxKind::NODE_NORMAL_LINE },
        Looking,
    );
    assert_eq!(parsed.syntax_node().kind(), SyntaxKind::NODE_NORMAL_LINE);
    let errors: Vec<(&str, u32, u32)> = parsed
        .errors()
        .iter()
        .map(|e| (e.message.as_str(), e.range.start, e.range.end))
        .collect();
    assert_eq!(
        errors,
        vec![("expected Colon", 5, 8), ("by hand", 5, 8), ("at the end", 15, 15)]
    );
    assert_eq!(ParseOptions::default().root_kind, SyntaxKind::NODE_ROOT);
}

struct Parts;

impl ParseEntry for Parts {
    fn run(&self, parser: &mut Parser) {
        parse_bpm(parser);
        parse_note_group(parser);
    }
}

#[test]
fn parts_of_the_grammar_can_be_used_alone() {
    let parsed = parse(Arc::from("([4]=90)C4:D4"), Parts);
    assert!(parsed.errors().is_empty());
    let kinds: Vec<SyntaxKind> = parsed
        .syntax_node()
        .children()
        .iter()
        .map(|n| n.kind())
        .collect();
    assert_eq!(kinds, vec![SyntaxKind::NODE_BPM_DEF, SyntaxKind::NODE_NOTE_GROUP]);
}

#[test]
fn sink_builds_the_tree_of_the_events() {
    let (tokens, _) = tokenize("C4,");
    let events = vec![
        Event::StartNode { kind: SyntaxKind::NODE_NOTE, forward_parent: Some(1) },
        Event::StartNode { kind: SyntaxKind::NODE_ROOT, forward_parent: None },
        Event::Token { kind: None },
        Event::FinishNode,
        Event::Tombstone,
        Event::Token { kind: Some(SyntaxKind::Semicolon) },
        Event::FinishNode,
    ];
    let green = Sink::new(tokens, events).finish();
    assert_eq!(green.nodes.len(), 2);
    assert_eq!(green.nodes[0].kind, SyntaxKind::NODE_ROOT);
    assert_eq!(green.nodes[1].kind, SyntaxKind::NODE_NOTE);
    assert_eq!(green.nodes[1].parent, Some(0));
    assert_eq!((green.nodes[1].first_token, green.nodes[1].end_token), (0, 1));
    assert_eq!((green.nodes[0].first_token, green.nodes[0].end_token), (0, 2));
    assert_eq!(green.nodes[0].children, vec![Element::Node(1), Element::Token(1)]);
    assert_eq!(green.tokens[1].kind, SyntaxKind::Semicolon);
    assert_eq!(green.tokens[0].kind, SyntaxKind::PitchSpellOctave);
}

#[test]
fn builder_nests_nodes() {
    let mut builder = GreenNodeBuilder::new();
    builder.start_node(SyntaxKind::NODE_ROOT);
    builder.start_node(SyntaxKind::NODE_NORMAL_LINE);
    builder.finish_node();
    builder.token(Token { kind: SyntaxKind::Newline, range: TextRange::new(0, 1) });
    builder.start_node(SyntaxKind::NODE_NORMAL_LINE);
    builder.token(Token { kind: SyntaxKind::Comma, range: TextRange::new(1, 2) });
    builder.finish_node();
    builder.finish_node();
    let green = builder.finish();
    assert_eq!(green.nodes.len(), 3);
    assert_eq!(
        green.nodes[0].children,
        vec![Element::Node(1), Element::Token(0), Element::Node(2)]
    );
    assert_eq!((green.nodes[1].first_token, green.nodes[1].end_token), (0, 0));
    assert_eq!((green.nodes[2].first_token, green.nodes[2].end_token), (1, 2));
    let root = SyntaxNode { tree: &green, source: "\n,", index: 0 };
    let below: Vec<usize> = root.descendants().iter().map(|n| n.index).collect();
    assert_eq!(below, vec![0, 1, 2]);
    let empty = SyntaxNode { tree: &green, source: "\n,", index: 1 };
    assert_eq!(empty.text_range(), TextRange::new(0, 0));
    assert_eq!(root.tokens()[1].text(), ",");
}

#[test]
fn spelled_pitches() {
    assert_eq!(char_to_semitone('C'), Some(0));
    assert_eq!(char_to_semitone('A'), Some(9));
    assert_eq!(char_to_semitone('B'), Some(11));
    assert_eq!(char_to_semitone('H'), None);
    assert_eq!(char_to_semitone('c'), None);
    assert_eq!(Pitch::parse_spell_octave("C4"), Some(Pitch::SpellOctave(60)));
    assert_eq!(Pitch::parse_spell_octave("C#4"), Some(Pitch::SpellOctave(61)));
    assert_eq!(Pitch::parse_spell_octave("Cb-1"), Some(Pitch::SpellOctave(-1)));
    assert_eq!(Pitch::parse_spell_octave("A##b19"), Some(Pitch::SpellOctave(250)));
    assert_eq!(Pitch::parse_spell_octave("G3000"), None);
    assert_eq!(Pitch::parse_spell_octave("C"), None);
    assert_eq!(Pitch::parse_spell_octave("H4"), None);
    assert_eq!(Pitch::parse_spell_octave("C4x"), None);
    assert_eq!(Pitch::parse_spell_octave(""), None);
    assert_eq!(Pitch::parse_spell_simple("D"), Some(Pitch::SpellSimple(2)));
    assert_eq!(Pitch::parse_spell_simple("Db"), Some(Pitch::SpellSimple(1)));
    assert_eq!(Pitch::parse_spell_simple("B#"), Some(Pitch::SpellSimple(12)));
    assert_eq!(Pitch::parse_spell_simple("C+"), None);
    assert_eq!(Pitch::parse_spell_simple("C4"), None);
}

#[test]
fn numbers_in_atoms() {
    assert_eq!(Pitch::parse_fequency("440"), Some(Pitch::Frequency(Decimal(440_000_000_000))));
    assert_eq!(
        Pitch::parse_fequency("261.63"),
        Some(Pitch::Frequency(Decimal(261_630_000_000)))
    );
    assert_eq!(
        Pitch::parse_fequency("-0.0000000019"),
        Some(Pitch::Frequency(Decimal(-1)))
    );
    assert_eq!(
        Pitch::parse_fequency("1.123456789"),
        Some(Pitch::Frequency(Decimal(1_123_456_789)))
    );
    assert_eq!(Pitch::parse_fequency("1."), None);
    assert_eq!(Pitch::parse_fequency(".5"), None);
    assert_eq!(Pitch::parse_fequency("1e5"), None);
    assert_eq!(Pitch::parse_fequency("1000000000"), None);
    assert!(matches!(Pitch::parse_ratio("3/2"), Some(Pitch::Ratio(r)) if fraction(r) == (3, 2)));
    assert!(matches!(Pitch::parse_ratio("3/-2"), Some(Pitch::Ratio(r)) if fraction(r) == (-3, 2)));
    assert_eq!(Pitch::parse_ratio("3/0"), None);
    assert_eq!(Pitch::parse_ratio("3"), None);
    assert_eq!(Pitch::parse_ratio("3/2/1"), None);
    assert_eq!(Pitch::parse_ratio("2147483648/1"), None);
    assert!(matches!(Pitch::parse_edo("-7\\12"), Some(Pitch::Edo(r)) if fraction(r) == (-7, 12)));
    assert_eq!(Pitch::parse_edo("7/12"), None);
    assert_eq!(Pitch::parse_cents("100c"), Some(Pitch::Cents(100)));
    assert_eq!(Pitch::parse_cents("-50c"), Some(Pitch::Cents(-50)));
    assert_eq!(Pitch::parse_cents("-2147483648c"), Some(Pitch::Cents(i32::MIN)));
    assert_eq!(Pitch::parse_cents("2147483648c"), None);
    assert_eq!(Pitch::parse_cents("c"), None);
    assert_eq!(Pitch::parse_cents(""), None);
}

#[test]
fn atoms_follow_the_equal_division() {
    assert_eq!(
        read_atom(SyntaxKind::PitchFrequency, "440", 0),
        (Some(Pitch::Frequency(Decimal(440_000_000_000))), 0)
    );
    assert!(matches!(
        read_atom(SyntaxKind::PitchFrequency, "-3", 19),
        (Some(Pitch::Edo(r)), 19) if fraction(r) == (-3, 19)
    ));
    assert_eq!(
        read_atom(SyntaxKind::PitchFrequency, "3.5", 19),
        (Some(Pitch::Frequency(Decimal(3_500_000_000))), 0)
    );
    assert_eq!(read_atom(SyntaxKind::PitchFrequency, "0.5", 19), (None, 19));
    assert_eq!(read_atom(SyntaxKind::PitchFrequency, "1", 0), (None, 0));
    assert_eq!(read_atom(SyntaxKind::PitchFrequency, "99999999.5", 0).1, 0);
    assert!(matches!(
        read_atom(SyntaxKind::PitchEdo, "5\\31", 12),
        (Some(Pitch::Edo(r)), 31) if fraction(r) == (5, 31)
    ));
    assert_eq!(read_atom(SyntaxKind::PitchRest, "...", 7), (Some(Pitch::Rest), 7));
    assert_eq!(read_atom(SyntaxKind::PitchSustain, "-", 7), (Some(Pitch::Sustain), 7));
    assert_eq!(read_atom(SyntaxKind::Comma, ",", 7), (None, 7));
}

#[test]
fn durations_between_brackets() {
    assert_eq!(read_duration("[4]").map(fraction), Some((1, 4)));
    assert_eq!(read_duration("[3:8]").map(fraction), Some((3, 8)));
    assert_eq!(read_duration("[-3:8]").map(fraction), Some((-3, 8)));
    assert_eq!(read_duration("[-8]").map(fraction), Some((-1, 8)));
    assert_eq!(read_duration("{4:3}").map(fraction), Some((4, 3)));
    assert_eq!(read_duration("[0]").map(fraction), None);
    assert_eq!(read_duration("[3:0]").map(fraction), None);
    assert_eq!(read_duration("[0:3]").map(fraction), None);
    assert_eq!(read_duration("[3:]").map(fraction), None);
    assert_eq!(read_duration("[]").map(fraction), None);
    assert_eq!(read_duration("[").map(fraction), None);
    assert_eq!(read_duration("[3:-8]").map(fraction), None);
    assert_eq!(count_commas("[,,,]"), Some(3));
    assert_eq!(count_commas("[]"), Some(0));
    assert!(check_power_of_two(1));
    assert!(check_power_of_two(64));
    assert!(!check_power_of_two(0));
    assert!(!check_power_of_two(6));
    assert!(!check_power_of_two(-4));
}

#[test]
fn nanoseconds_of_durations() {
    let quarter = Rational32(1, 4);
    let bpm = Decimal(120_000_000_000);
    assert_eq!(nanos_of(quarter, quarter, bpm), 500_000_000);
    assert_eq!(nanos_of(Rational32(-1, 4), quarter, bpm), -500_000_000);
    assert_eq!(nanos_of(Rational32(1, -4), quarter, bpm), -500_000_000);
    assert_eq!(nanos_of(Rational32(1, 12), quarter, bpm), 166_666_666);
    assert_eq!(nanos_of(Rational32(-1, 12), quarter, bpm), -166_666_666);
    assert_eq!(nanos_of(quarter, Rational32(-1, -8), Decimal(90_500_000_000)), 1_325_966_850);
    assert_eq!(nanos_of(quarter, quarter, Decimal(0)), 0);
    assert_eq!(nanos_of(quarter, quarter, Decimal(-5)), 0);
    assert_eq!(nanos_of(quarter, Rational32(-1, 4), bpm), 0);
    assert_eq!(nanos_of(quarter, Rational32(0, 4), bpm), 0);
    assert_eq!(nanos_of(Rational32(1, 0), quarter, bpm), 0);
    assert_eq!(
        nanos_of(Rational32(i32::MAX, 1), Rational32(1, i32::MAX), Decimal(1)),
        i64::MAX
    );
    assert_eq!(
        nanos_of(Rational32(i32::MIN, 1), Rational32(1, i32::MAX), Decimal(1)),
        i64::MIN
    );
    assert_eq!(
        nanos_of(Rational32(1, i32::MAX), Rational32(i32::MAX, 1), Decimal(i64::MAX)),
        0
    );
}

#[test]
fn time_stamps_move() {
    let state = CompileState::new();
    let start = TimeStamp::default();
    let later = start.add_duration(Rational32(1, 3), &state).expect("fits");
    assert_eq!(later.nanos, 666_666_666);
    assert_eq!(fraction(later.ticks), (1, 3));
    assert_eq!(later.bars, 0);
    assert!(!later.is_zero());
    let snapped = later.reduct_to_quantize(Rational32(1, 4)).expect("fits");
    assert_eq!(fraction(snapped.ticks), (4, 12));
    assert_eq!(snapped.nanos, later.nanos);
    let next = later.next_bar(Rational32(3, -8)).expect("fits");
    assert_eq!((next.bars, fraction(next.ticks), next.nanos), (1, (0, 8), 666_666_666));
    assert!(later.next_bar(Rational32(3, 0)).is_none());
    let full = TimeStamp { bars: u32::MAX, ..later };
    assert!(full.next_bar(Rational32(4, 4)).is_none());
    assert!(start.add_duration(Rational32(1, 0), &state).is_none());
    let far = TimeStamp { nanos: i64::MAX, ..start };
    assert!(far.add_duration(Rational32(1, 4), &state).is_none());
    assert!(later.reduct_to_quantize(Rational32(1, 0)).is_none());
}

#[test]
fn notes_know_rests_and_sustains() {
    let state = CompileState::new();
    let rest = Note::from_pitch(Pitch::Rest, &state);
    assert!(rest.is_rest());
    assert!(!rest.is_sustain());
    assert_eq!(fraction(rest.duration), (0, 4));
    assert_eq!(rest.base, 0);
    let sustain = Note::from_pitch(Pitch::Sustain, &state);
    assert!(sustain.is_sustain());
    let mut note = Note::from_pitch(Pitch::Cents(5), &state)
        .with_pitch_chain(vec![Pitch::Rest, Pitch::Cents(7)]);
    assert!(!note.is_rest());
    assert_eq!(note.pitch_chain, vec![Pitch::Rest, Pitch::Cents(7)]);
    note.set_duration(Rational32(3, 8), &state);
    assert_eq!(fraction(note.duration), (3, 8));
    assert_eq!(note.duration_nanos, 750_000_000);
    let copy = note.copy();
    assert_eq!(copy.pitch_chain, note.pitch_chain);
    assert_eq!(copy.duration_nanos, note.duration_nanos);
    assert_eq!(state.bpm, Decimal(120_000_000_000));
    assert_eq!(fraction(state.quantize), (1, 4));
    assert_eq!(fraction(state.time_signature), (4, 4));
    assert_eq!(state.edo_def, 0);
}

#[test]
fn later_macro_of_a_name_is_the_one_in_force() {
    let mut macros = MacroRegistry::default();
    assert_eq!(macros.find("m"), None);
    macros.define("m".to_string(), MacroDef::Simple(Vec::new()));
    macros.define("n".to_string(), MacroDef::Alias(vec![Pitch::Rest]));
    macros.define("m".to_string(), MacroDef::Alias(vec![Pitch::Cents(1)]));
    assert_eq!(macros.find("m"), Some(2));
    assert_eq!(macros.find("n"), Some(1));
    assert_eq!(macros.find("M"), None);
    assert!(same_text("abc", "abc"));
    assert!(!same_text("abc", "abd"));
    assert!(!same_text("abc", "ab"));
}

#[test]
fn compiler_steps() {
    let mut compiler = Compiler::new();
    compiler.reset_ticks();
    assert!(compiler.events.is_empty());
    compiler.comma(TextRange::default());
    assert_eq!(fraction(compiler.state.time.ticks), (1, 4));
    assert_eq!(compiler.state.time.nanos, 500_000_000);
    assert!(compiler.advance(Rational32(1, 6), TextRange::default()));
    assert_eq!(fraction(compiler.state.time.ticks), (5, 12));
    compiler.comma(TextRange::default());
    assert_eq!(fraction(compiler.state.time.ticks), (8, 12));
    compiler.reset_ticks();
    assert_eq!(compiler.state.time.bars, 1);
    assert_eq!(fraction(compiler.state.time.ticks), (0, 4));
    assert!(matches!(compiler.events[0].body, EventBody::NewMeasure(1)));
    assert!(compiler.advance(Rational32(i32::MAX, 1), TextRange::new(1, 2)));
    let reached = compiler.state.time;
    assert!(!compiler.advance(Rational32(i32::MAX, 1), TextRange::new(1, 2)));
    assert_eq!(compiler.diagnostics.len(), 1);
    assert_eq!(compiler.diagnostics[0].span, TextRange::new(1, 2));
    assert_eq!(compiler.state.time.nanos, reached.nanos);
    assert_eq!(fraction(compiler.state.time.ticks), (i32::MAX, 1));
    assert_eq!(compiler.state.time.bars, 1);
}

#[test]
fn checked_operations_say_when_a_number_does_not_fit() {
    let big = Rational32(i32::MAX, 1);
    assert_eq!(big.checked_add(Rational32(1, 1)), None);
    assert_eq!(big.checked_mul(Rational32(2, 1)), None);
    assert_eq!(big.checked_div(Rational32(1, 2)), None);
    assert_eq!(Rational32(1, i32::MAX).checked_add(Rational32(1, 2)), None);
    assert_eq!(Rational32(1, 2).checked_div(Rational32(0, 5)), None);
    assert_eq!(Rational32(1, 0).checked_reduce(), None);
    assert_eq!(Rational32(i32::MIN, -1).checked_reduce(), None);
    assert_eq!(Rational32(i32::MIN, 1).checked_neg(), None);
    assert_eq!(Rational32(1, 2).checked_reduct_to(0), None);
    let sub = Rational32(1, 2).checked_sub(Rational32(1, 3)).expect("fits");
    assert_eq!(fraction(sub), (1, 6));
    let sum = Rational32(2, 4).checked_add(Rational32(-1, 6)).expect("fits");
    assert_eq!(fraction(sum), (1, 3));
    let edge = Rational32(i32::MIN, i32::MIN).checked_add(Rational32(i32::MIN, i32::MIN));
    assert_eq!(edge.map(fraction), Some((2, 1)));
    let far = Rational32(1, i32::MIN).checked_add(Rational32(1, i32::MIN)).expect("fits");
    assert_eq!(fraction(far), (-1, 0x4000_0000));
    let product = big.checked_mul(Rational32(1, i32::MAX)).expect("fits");
    assert_eq!(fraction(product), (1, 1));
    let scaled = Rational32(3, -6).checked_reduct_to(8).expect("fits");
    assert_eq!(fraction(scaled), (-4, 8));
    let reduced = Rational32(i32::MIN, i32::MIN).checked_reduce().expect("fits");
    assert_eq!(fraction(reduced), (1, 1));
    assert!(Rational32(i32::MIN, 3) < Rational32(i32::MAX, 3));
    assert_eq!(Rational32(i32::MIN, 2), Rational32(i32::MIN, 2));
}

#[test]
fn abandon_leaves_a_pending_place_as_it_is() {
    let mut parser = Parser::new(Vec::new());
    let kept = parser.start_node();
    let given_up = parser.start_node();
    given_up.abandon(&mut parser);
    assert_eq!(parser.events, vec![Event::Tombstone, Event::Tombstone]);
    assert!(parser.errors.is_empty());
    assert_eq!(parser.cursor, 0);
    assert_eq!(parser.raw_cursor, 0);
    kept.complete(&mut parser, SyntaxKind::NODE_ROOT);
}

#[test]
fn abandon_puts_the_tombstone_back() {
    let mut parser = Parser::new(Vec::new());
    let m = parser.start_node();
    m.complete(&mut parser, SyntaxKind::NODE_NOTE);
    assert_eq!(
        parser.events,
        vec![
            Event::StartNode { kind: SyntaxKind::NODE_NOTE, forward_parent: None },
            Event::FinishNode,
        ]
    );
    Marker::new(0).abandon(&mut parser);
    assert_eq!(parser.events, vec![Event::Tombstone, Event::FinishNode]);
}

#[test]
fn a_spelling_without_octave_is_counted_from_the_base() {
    // E under C4: the third above, in the octave that the spelling names.
    assert_eq!(steps_from_base(4, 60), 4);
    assert_eq!(steps_from_base(0, 60), 0);
    // G under D4 (62): a fourth above the base's pitch class.
    assert_eq!(steps_from_base(7, 62), 5);
    // C under D4: ten semitones up, never down.
    assert_eq!(steps_from_base(0, 62), 10);
    // A spelling below zero counts its own octave down.
    assert_eq!(steps_from_base(-1, 60), -1);
    assert_eq!(steps_from_base(-13, 60), -24 + 11);
    assert_eq!(steps_from_base(12, 61), 12 + 11);
    assert_eq!(steps_from_base(i16::MIN, i16::MAX), -32772 + 9);
    assert_eq!(steps_from_base(i16::MAX, i16::MIN), 32760 + 3);
}

#[test]
fn a_spelling_under_a_local_base_is_counted_from_its_class() {
    assert_eq!(steps_from_local_base(4, 62), 2);
    assert_eq!(steps_from_local_base(4, 60), 4);
    assert_eq!(steps_from_local_base(0, 71), -11);
    // Below zero the class is counted towards zero.
    assert_eq!(steps_from_local_base(4, -1), 5);
    assert_eq!(steps_from_local_base(4, -13), 5);
    assert_eq!(steps_from_local_base(i16::MIN, i16::MAX), -32768 - 7);
}
