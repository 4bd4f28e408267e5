use std::sync::Arc;
use symi::byte_char_mapper::ByteCharMapper;
use symi::compiler::compile::Compiler;
use symi::compiler::helpers::{NodeOrTokenAsKind, SyntaxNodeEx};
use symi::host::{get_diagnostics, get_events, get_tokens, NoteEventKind};
use symi::syntax::lexer::SyntaxKind;
use symi::syntax::parse_fn::parse_source;

#[test]
fn tokens_are_told_without_trivia() {
    let source = "é = C4 // x\r\nC4,\n";
    let parsed = parse_source(Arc::from(source));
    let mapper = ByteCharMapper::new(source);
    let tokens = get_tokens(&parsed.tokens, &mapper);
    let got: Vec<(&str, u32, u32)> = tokens.iter().map(|t| (t.0.as_str(), t.1, t.2)).collect();
    assert_eq!(
        got,
        vec![
            ("Error", 0, 1),
            ("Equals", 2, 3),
            ("PitchSpellOctave", 4, 6),
            ("Newline", 11, 12),
            ("PitchSpellOctave", 12, 14),
            ("Comma", 14, 15),
            ("Newline", 15, 16),
        ]
    );
}

#[test]
fn diagnostics_are_told_in_display_characters() {
    let source = "é\nC4@,\nnothing,";
    let parsed = parse_source(Arc::from(source));
    let mut compiler = Compiler::new();
    compiler.compile(&parsed.syntax_node());
    let mapper = ByteCharMapper::new(source);
    let diagnostics = get_diagnostics(parsed.errors(), &compiler.diagnostics, &mapper);
    assert_eq!(
        diagnostics.len(),
        parsed.errors().len() + compiler.diagnostics.len()
    );
    assert_eq!(diagnostics[0].message, "Unrecognized token: \"é\"");
    assert_eq!(diagnostics[0].severity, "Error");
    assert_eq!((diagnostics[0].from, diagnostics[0].to), (0, 1));
    let undefined = diagnostics
        .iter()
        .find(|d| d.message == "Undefined macro invoked: nothing")
        .expect("the call of an undefined macro");
    assert_eq!(undefined.severity, "Error");
    assert_eq!((undefined.from, undefined.to), (7, 14));
    assert!(diagnostics.iter().any(|d| d.severity == "Warning"));
}

#[test]
fn empty_range_is_shown_one_character_to_the_left() {
    let source = "C4:";
    let parsed = parse_source(Arc::from(source));
    let mapper = ByteCharMapper::new(source);
    // At the end of the source the parser speaks of the end of the last
    // token.
    let errors = parsed.errors();
    assert!(errors.is_empty() || errors.iter().all(|e| e.range.start <= 3));
    let made = vec![symi::syntax::types::ParseError::new(
        "here".to_string(),
        symi::syntax::types::TextRange::empty(3),
    ), symi::syntax::types::ParseError::new(
        "at the start".to_string(),
        symi::syntax::types::TextRange::empty(0),
    )];
    let shown = get_diagnostics(&made, &Vec::new(), &mapper);
    assert_eq!((shown[0].from, shown[0].to), (2, 3));
    assert_eq!((shown[1].from, shown[1].to), (0, 0));
}

#[test]
fn events_are_told_with_their_places() {
    let source = "// ü\n<A4=440>\n(120)\n";
    let parsed = parse_source(Arc::from(source));
    let mut compiler = Compiler::new();
    compiler.compile(&parsed.syntax_node());
    let mapper = ByteCharMapper::new(source);
    let events = get_events(&compiler.events, &mapper);
    let kinds: Vec<&str> = events.iter().map(|e| e.kind.name()).collect();
    assert_eq!(kinds, vec!["BaseFrequencyDef"]);
    assert_eq!(events[0].kind, NoteEventKind::BaseFrequencyDef);
    assert_eq!(events[0].event, 1);
    assert_eq!(events[0].base, Some(1));
    assert_eq!((events[0].span_from, events[0].span_to), (5, 13));
    assert_eq!(events[0].duration_tick, (0, 1));
    let source = "m = C4\nm@3/2[8],\n";
    let parsed = parse_source(Arc::from(source));
    let mut compiler = Compiler::new();
    compiler.compile(&parsed.syntax_node());
    let mapper = ByteCharMapper::new(source);
    let events = get_events(&compiler.events, &mapper);
    assert_eq!(events.len(), 2);
    let note = events[0];
    assert_eq!(note.kind, NoteEventKind::Note);
    assert_eq!(note.event, 0);
    assert_eq!(note.base, Some(0));
    assert_eq!(note.start_nanos, 0);
    assert_eq!(note.start_tick, (0, 4));
    assert_eq!(note.duration_tick, (1, 8));
    assert_eq!(note.duration_nanos, 250_000_000);
    assert_eq!((note.span_from, note.span_to), (7, 15));
    assert_eq!(note.span_invoked_from, None);
    assert_eq!(events[1].kind, NoteEventKind::NewMeasure);
    assert_eq!(events[1].start_bar, 1);
}

#[test]
fn children_can_be_searched() {
    let parsed = parse_source(Arc::from("m = C4:D4\n"));
    let root = parsed.syntax_node();
    let def = root
        .find_child_node_by_fn(|n| n.kind() == SyntaxKind::NODE_MACRODEF_SIMPLE)
        .expect("the definition");
    let name = def
        .find_child_token_by_fn(|t| t.kind() == SyntaxKind::Identifier)
        .expect("the name");
    assert_eq!(name.text(), "m");
    assert!(def
        .find_child_token_by_fn(|t| t.kind() == SyntaxKind::Comma)
        .is_none());
    let notes = def.find_child_nodes_by_fn(|n| n.kind() == SyntaxKind::NODE_NOTE);
    assert_eq!(notes.len(), 2);
    let marks = def.find_child_tokens_by_fn(|t| !t.kind().is_trivia());
    let kinds: Vec<SyntaxKind> = marks.iter().map(|t| t.kind()).collect();
    assert_eq!(
        kinds,
        vec![SyntaxKind::Identifier, SyntaxKind::Equals, SyntaxKind::Colon]
    );
    let elements = def.children_with_tokens();
    assert_eq!(NodeOrTokenAsKind::kind(&elements[0]), SyntaxKind::Identifier);
    assert_eq!(
        NodeOrTokenAsKind::kind(elements.last().unwrap()),
        SyntaxKind::NODE_NOTE
    );
}
