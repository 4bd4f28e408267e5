use std::sync::Arc;
use symi::syntax::lexer::SyntaxKind;
use symi::syntax::parse_fn::parse_source;
use symi::syntax::parser::{parse, EmptyEntry};
use symi::syntax::tree::SyntaxNode;

fn collect_kinds(root: &SyntaxNode) -> Vec<SyntaxKind> {
    root.descendants().iter().map(|n| n.kind()).collect()
}

fn has_token(root: &SyntaxNode, kind: SyntaxKind) -> bool {
    root.tokens().iter().any(|t| t.kind() == kind)
}

#[test]
fn builds_empty_root() {
    let parse = parse(Arc::from("   "), EmptyEntry);
    assert!(parse.errors().is_empty());
    let root_kind: SyntaxKind = parse.syntax_node().kind().into();
    assert_eq!(root_kind, SyntaxKind::NODE_ROOT);
}

#[test]
fn parse_empty_source_ok() {
    let result = parse_source(Arc::from(""));
    assert!(result.errors().is_empty());
    let root_kind: SyntaxKind = result.syntax_node().kind().into();
    assert_eq!(root_kind, SyntaxKind::NODE_ROOT);
}

#[test]
fn parse_newline_only_ok() {
    let result = parse_source(Arc::from("\n"));
    assert!(result.errors().is_empty());
    let root_kind: SyntaxKind = result.syntax_node().kind().into();
    assert_eq!(root_kind, SyntaxKind::NODE_ROOT);
}

#[test]
fn parse_assign_creates_ghost_line() {
    let result = parse_source(Arc::from("="));
    assert!(result.errors().is_empty());
    let root = result.syntax_node();
    let first_child = root
        .children()
        .into_iter()
        .next()
        .expect("expected a line node");
    let kind: SyntaxKind = first_child.kind().into();
    assert_eq!(kind, SyntaxKind::NODE_GHOST_LINE);
}

#[test]
fn parse_simple_note_ok() {
    let result = parse_source(Arc::from("C4,"));
    assert!(result.errors().is_empty());
    let root = result.syntax_node();
    let line = root
        .children()
        .into_iter()
        .next()
        .expect("expected line node");
    let line_kind: SyntaxKind = line.kind().into();
    assert_eq!(line_kind, SyntaxKind::NODE_NORMAL_LINE);
    let note = line.children().into_iter().find(|n| {
        let kind: SyntaxKind = n.kind().into();
        kind == SyntaxKind::NODE_NOTE
    });
    assert!(note.is_some());
}

#[test]
fn parse_note_group_ok() {
    let result = parse_source(Arc::from("C4:D4,"));
    assert!(result.errors().is_empty());
    let root = result.syntax_node();
    let line = root
        .children()
        .into_iter()
        .next()
        .expect("expected line node");
    let group = line.children().into_iter().find(|n| {
        let kind: SyntaxKind = n.kind().into();
        kind == SyntaxKind::NODE_NOTE_GROUP
    });
    assert!(group.is_some());
}

#[test]
fn parse_macro_alias_def_ok() {
    let result = parse_source(Arc::from("foo = C4\n"));
    assert!(result.errors().is_empty());
    let root = result.syntax_node();
    let def = root.children().into_iter().find(|n| {
        let kind: SyntaxKind = n.kind().into();
        kind == SyntaxKind::NODE_MACRODEF_ALIAS
    });
    assert!(def.is_some());
}

#[test]
fn parse_macro_simple_def_pitch_chain_builds_note_nodes() {
    let result = parse_source(Arc::from("a = 3/2\nfoo = C4@a:D4\n"));
    assert!(result.errors().is_empty());
    let root = result.syntax_node();
    let has_simple_def = root.children().into_iter().any(|n| {
        let kind: SyntaxKind = n.kind().into();
        kind == SyntaxKind::NODE_MACRODEF_SIMPLE
    });
    assert!(has_simple_def);
    let note_count = root
        .descendants()
        .into_iter()
        .filter(|n| {
            let kind: SyntaxKind = n.kind().into();
            kind == SyntaxKind::NODE_NOTE
        })
        .count();
    assert!(note_count >= 2);
}

#[test]
fn parse_macro_complex_def_ok() {
    let result = parse_source(Arc::from("baz =\nC4,\n\n"));
    assert!(result.errors().is_empty());
    let root = result.syntax_node();
    let def = root.children().into_iter().find(|n| {
        let kind: SyntaxKind = n.kind().into();
        kind == SyntaxKind::NODE_MACRODEF_COMPLEX
    });
    assert!(def.is_some());
}

#[test]
fn parse_base_pitch_ok() {
    let result = parse_source(Arc::from("<C4=440>\n"));
    assert!(result.errors().is_empty());
    let root = result.syntax_node();
    let def = root
        .children()
        .into_iter()
        .flat_map(|n| n.children())
        .find(|n| {
            let kind: SyntaxKind = n.kind().into();
            kind == SyntaxKind::NODE_BASE_PITCH_DEF
        });
    assert!(def.is_some());
}

#[test]
fn parse_base_pitch_non_frequency_rhs_ok() {
    let result = parse_source(Arc::from("<C4=3/2>\n"));
    assert!(result.errors().is_empty());
    let root = result.syntax_node();
    let def = root
        .children()
        .into_iter()
        .flat_map(|n| n.children())
        .find(|n| {
            let kind: SyntaxKind = n.kind().into();
            kind == SyntaxKind::NODE_BASE_PITCH_DEF
        });
    assert!(def.is_some());
}

#[test]
fn parse_base_pitch_rhs_identifier_chain_ok() {
    let result = parse_source(Arc::from("a = 3/2@5/4\n<C4=a>\n"));
    assert!(result.errors().is_empty());
    let root = result.syntax_node();
    let has_chain = root.descendants().into_iter().any(|n| {
        let kind: SyntaxKind = n.kind().into();
        kind == SyntaxKind::NODE_BASE_PITCH_DEF
            && n.children().into_iter().any(|c| {
                let ck: SyntaxKind = c.kind().into();
                ck == SyntaxKind::NODE_PITCH_CHAIN
            })
    });
    assert!(has_chain);
}

#[test]
fn parse_bpm_ok() {
    let result = parse_source(Arc::from("(120)\n"));
    assert!(result.errors().is_empty());
    let root = result.syntax_node();
    let def = root
        .children()
        .into_iter()
        .flat_map(|n| n.children())
        .find(|n| {
            let kind: SyntaxKind = n.kind().into();
            kind == SyntaxKind::NODE_BPM_DEF
        });
    assert!(def.is_some());
}

#[test]
fn parse_time_signature_ok() {
    let result = parse_source(Arc::from("(3/4)\n"));
    assert!(result.errors().is_empty());
    let root = result.syntax_node();
    let def = root
        .children()
        .into_iter()
        .flat_map(|n| n.children())
        .find(|n| {
            let kind: SyntaxKind = n.kind().into();
            kind == SyntaxKind::NODE_TIME_SIGNATURE_DEF
        });
    assert!(def.is_some());
}

#[test]
fn parse_pitch_chain_note_ok() {
    let result = parse_source(Arc::from("C4@3/2@100c,\n"));
    assert!(result.errors().is_empty());
    let root = result.syntax_node();
    let has_chain_node = root.descendants().into_iter().any(|n| {
        let kind: SyntaxKind = n.kind().into();
        kind == SyntaxKind::NODE_PITCH_CHAIN
    });
    assert!(has_chain_node);
    let has_at = has_token(&root, SyntaxKind::At.into());
    assert!(has_at);
}

#[test]
fn parse_pitch_chain_suffix_plus_minus_ok() {
    let result = parse_source(Arc::from("3/2++@4/3-,\n"));
    assert!(result.errors().is_empty());
    let root = result.syntax_node();
    let has_plus = has_token(&root, SyntaxKind::Plus.into());
    let has_minus = has_token(&root, SyntaxKind::PitchSustain.into());
    assert!(has_plus);
    assert!(has_minus);
}

#[test]
fn parse_pitch_chain_macro_invoke_ok() {
    let result = parse_source(Arc::from("foo@C4@3/2,\n"));
    assert!(result.errors().is_empty());
    let root = result.syntax_node();
    let has_invoke = root.descendants().into_iter().any(|n| {
        let kind: SyntaxKind = n.kind().into();
        kind == SyntaxKind::NODE_MACRO_INVOKE
    });
    assert!(has_invoke);
    let has_at = has_token(&root, SyntaxKind::At.into());
    assert!(has_at);
}

#[test]
fn parse_pitch_chain_identifier_tail_ok() {
    let result = parse_source(Arc::from("m = 3/2\nC4@m,\n"));
    assert!(result.errors().is_empty());
    let root = result.syntax_node();
    let has_identifier = has_token(&root, SyntaxKind::Identifier.into());
    assert!(has_identifier);
}

#[test]
fn parse_pitch_chain_trailing_at_reports_error() {
    let result = parse_source(Arc::from("C4@,\n"));
    assert!(!result.errors().is_empty());
}

#[test]
fn parse_line_with_quantize_ok() {
    let result = parse_source(Arc::from("C4,{4}\n"));
    assert!(result.errors().is_empty());
    let root = result.syntax_node();
    let line = root
        .children()
        .into_iter()
        .next()
        .expect("expected line node");
    let line_kind: SyntaxKind = line.kind().into();
    assert_eq!(line_kind, SyntaxKind::NODE_NORMAL_LINE);
}

#[test]
fn parse_duration_commas_ok() {
    let result = parse_source(Arc::from("C4[,,],\n"));
    assert!(result.errors().is_empty());
    let kinds = collect_kinds(&result.syntax_node());
    assert!(kinds.contains(&SyntaxKind::NODE_NOTE));
}

#[test]
fn parse_mixed_program_ok() {
    let source = "foo = C4\nbar = C4:D4\n<C4=440>\n(120)\n(3/4)\nC4:D4,\n";
    let result = parse_source(Arc::from(source));
    assert!(result.errors().is_empty());
    let kinds = collect_kinds(&result.syntax_node());
    assert!(kinds.contains(&SyntaxKind::NODE_MACRODEF_ALIAS));
    assert!(kinds.contains(&SyntaxKind::NODE_MACRODEF_SIMPLE));
    assert!(kinds.contains(&SyntaxKind::NODE_BASE_PITCH_DEF));
    assert!(kinds.contains(&SyntaxKind::NODE_BPM_DEF));
    assert!(kinds.contains(&SyntaxKind::NODE_TIME_SIGNATURE_DEF));
    assert!(kinds.contains(&SyntaxKind::NODE_NOTE_GROUP));
}

#[test]
fn parse_note_group_reports_error_on_eol() {
    let result = parse_source(Arc::from("C4\n"));
    assert!(!result.errors().is_empty());
}

fn shape(node: &SyntaxNode, out: &mut String) {
    out.push_str(node.kind().name());
    out.push('(');
    let mut first = true;
    for child in node.children_with_tokens() {
        if !first {
            out.push(' ');
        }
        first = false;
        match child.into_node() {
            Some(n) => shape(&n, out),
            None => out.push_str(child.into_token().unwrap().kind().name()),
        }
    }
    out.push(')');
}

fn shape_of(source: &str) -> String {
    let result = parse_source(Arc::from(source));
    let mut out = String::new();
    shape(&result.syntax_node(), &mut out);
    out
}

#[test]
fn tree_of_a_note_line() {
    assert_eq!(
        shape_of("C4@3/2 ,\n"),
        "NODE_ROOT(NODE_NORMAL_LINE(NODE_NOTE(NODE_PITCH_CHAIN(PitchSpellOctave At PitchRatio)) \
         Whitespace Comma Newline))"
    );
}

#[test]
fn tree_of_a_note_group_with_macro_call() {
    assert_eq!(
        shape_of("m+:D4[,],\n"),
        "NODE_ROOT(NODE_NORMAL_LINE(NODE_NOTE_GROUP(NODE_NOTE(NODE_PITCH_CHAIN(\
         NODE_MACRO_INVOKE(Identifier Plus))) Colon NODE_NOTE(NODE_PITCH_CHAIN(PitchSpellOctave) \
         DurationCommas)) Comma Newline))"
    );
}

#[test]
fn tree_of_macro_definitions() {
    assert_eq!(
        shape_of("a = 3/2\n"),
        "NODE_ROOT(NODE_MACRODEF_ALIAS(Identifier Whitespace Equals \
         NODE_PITCH_CHAIN(Whitespace PitchRatio)) Newline)"
    );
    assert_eq!(
        shape_of("b = C4:D4\n"),
        "NODE_ROOT(NODE_MACRODEF_SIMPLE(Identifier Whitespace Equals \
         NODE_NOTE(NODE_PITCH_CHAIN(Whitespace PitchSpellOctave)) Colon \
         NODE_NOTE(NODE_PITCH_CHAIN(PitchSpellOctave))) Newline)"
    );
    assert_eq!(
        shape_of("c =\nC4,\n\n"),
        "NODE_ROOT(NODE_MACRODEF_COMPLEX(Identifier Whitespace Equals Newline \
         NODE_MACRODEF_COMPLEX_BODY(NODE_NORMAL_LINE(NODE_NOTE(NODE_PITCH_CHAIN(PitchSpellOctave)) \
         Comma Newline) Newline)))"
    );
}

#[test]
fn tree_of_definitions_in_a_line() {
    assert_eq!(
        shape_of("<C4=440>([4]=90)(3/4){8}\n"),
        "NODE_ROOT(NODE_NORMAL_LINE(NODE_BASE_PITCH_DEF(LAngle PitchSpellOctave Equals \
         NODE_PITCH_CHAIN(PitchFrequency) RAngle) NODE_BPM_DEF(LParen DurationFraction Equals \
         PitchFrequency RParen) NODE_TIME_SIGNATURE_DEF(LParen PitchRatio RParen) Quantize Newline))"
    );
}

#[test]
fn ghost_line_keeps_its_equals_sign() {
    assert_eq!(
        shape_of("=C4,\n"),
        "NODE_ROOT(NODE_GHOST_LINE(Equals NODE_NOTE(NODE_PITCH_CHAIN(PitchSpellOctave)) Comma \
         Newline))"
    );
}

#[test]
fn every_token_is_a_leaf_once_and_in_order() {
    let source = "m = 3/2 // ratio\n<C4=440> (120) $\nm@D4:.[1:8];C4-,, // é\n";
    let result = parse_source(Arc::from(source));
    let root = result.syntax_node();
    let leaves = root.tokens();
    assert_eq!(leaves.len(), result.tokens.len());
    let mut text = String::new();
    for (leaf, token) in leaves.iter().zip(result.tokens.iter()) {
        assert_eq!(leaf.kind(), token.kind);
        assert_eq!(leaf.text_range(), token.range);
        let r = leaf.text_range();
        text.push_str(&source[r.start as usize..r.end as usize]);
    }
    assert_eq!(text, source);
}

#[test]
fn node_ranges_come_from_their_children() {
    let source = "a =\nC4:D4,\n\n<C4=3/2@5/4>\nC4@a;E4[,,],\n";
    let result = parse_source(Arc::from(source));
    let root = result.syntax_node();
    assert_eq!(root.text_range().start, 0);
    assert_eq!(root.text_range().end as usize, source.len());
    for node in root.descendants() {
        let range = node.text_range();
        let children = node.children_with_tokens();
        if children.is_empty() {
            assert_eq!(range.start, range.end);
            continue;
        }
        let mut at = range.start;
        for child in children {
            let r = match child.into_node() {
                Some(n) => n.text_range(),
                None => child.into_token().unwrap().text_range(),
            };
            assert_eq!(r.start, at);
            assert!(r.start <= r.end);
            at = r.end;
        }
        assert_eq!(at, range.end);
    }
}

#[test]
fn errors_of_the_scanner_come_first() {
    let result = parse_source(Arc::from("C4 $,\n)\n"));
    let errors = result.errors();
    assert!(errors.len() >= 2);
    assert_eq!(errors[0].message, "Unrecognized token: \"$\"");
    assert_eq!(errors[1].message, "Unexpected token in normal line");
}

#[test]
fn expect_names_the_missing_kind() {
    let result = parse_source(Arc::from("(3/4\n"));
    let errors = result.errors();
    assert_eq!(errors.len(), 1);
    assert_eq!(errors[0].message, "expected RParen");
    assert_eq!((errors[0].range.start, errors[0].range.end), (4, 5));
}
