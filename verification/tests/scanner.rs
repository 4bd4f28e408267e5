use symi::syntax::lexer::SyntaxKind;
use symi::syntax::scan::tokenize;

fn kinds(source: &str) -> Vec<(SyntaxKind, u32, u32)> {
    let (tokens, _) = tokenize(source);
    tokens
        .iter()
        .map(|t| (t.kind, t.range.start, t.range.end))
        .collect()
}

fn only_kinds(source: &str) -> Vec<SyntaxKind> {
    kinds(source).into_iter().map(|t| t.0).collect()
}

#[test]
fn scans_a_note_line() {
    assert_eq!(
        kinds("C4,\n"),
        vec![
            (SyntaxKind::PitchSpellOctave, 0, 2),
            (SyntaxKind::Comma, 2, 3),
            (SyntaxKind::Newline, 3, 4),
        ]
    );
}

#[test]
fn octave_spelling_wins_over_plain_spelling_and_identifier() {
    assert_eq!(only_kinds("C4"), vec![SyntaxKind::PitchSpellOctave]);
    assert_eq!(only_kinds("C#4"), vec![SyntaxKind::PitchSpellOctave]);
    assert_eq!(only_kinds("Db-1"), vec![SyntaxKind::PitchSpellOctave]);
    assert_eq!(only_kinds("C12"), vec![SyntaxKind::PitchSpellOctave]);
    assert_eq!(only_kinds("C"), vec![SyntaxKind::PitchSpellSimple]);
    assert_eq!(only_kinds("Cb"), vec![SyntaxKind::PitchSpellSimple]);
    assert_eq!(only_kinds("C+"), vec![SyntaxKind::PitchSpellSimple]);
    assert_eq!(only_kinds("Cab"), vec![SyntaxKind::Identifier]);
    assert_eq!(only_kinds("C4x"), vec![SyntaxKind::Identifier]);
    assert_eq!(only_kinds("foo_1"), vec![SyntaxKind::Identifier]);
    assert_eq!(only_kinds("C20"), vec![SyntaxKind::Identifier]);
    assert_eq!(
        only_kinds("C#20"),
        vec![SyntaxKind::PitchSpellOctave, SyntaxKind::PitchFrequency]
    );
}

#[test]
fn minus_after_an_octave_is_a_token_of_its_own() {
    assert_eq!(
        kinds("C4-,"),
        vec![
            (SyntaxKind::PitchSpellOctave, 0, 2),
            (SyntaxKind::PitchSustain, 2, 3),
            (SyntaxKind::Comma, 3, 4),
        ]
    );
}

#[test]
fn scans_numbers_in_their_forms() {
    assert_eq!(only_kinds("440"), vec![SyntaxKind::PitchFrequency]);
    assert_eq!(only_kinds("261.63"), vec![SyntaxKind::PitchFrequency]);
    assert_eq!(only_kinds("-5"), vec![SyntaxKind::PitchFrequency]);
    assert_eq!(only_kinds("3/2"), vec![SyntaxKind::PitchRatio]);
    assert_eq!(only_kinds("7\\12"), vec![SyntaxKind::PitchEdo]);
    assert_eq!(only_kinds("-7\\12"), vec![SyntaxKind::PitchEdo]);
    assert_eq!(only_kinds("100c"), vec![SyntaxKind::PitchCents]);
    assert_eq!(only_kinds("-50c"), vec![SyntaxKind::PitchCents]);
    assert_eq!(
        only_kinds("1."),
        vec![SyntaxKind::PitchFrequency, SyntaxKind::PitchRest]
    );
}

#[test]
fn numbers_out_of_range_make_error_tokens() {
    assert_eq!(kinds("0/5"), vec![(SyntaxKind::Error, 0, 3)]);
    assert_eq!(kinds("3/65536"), vec![(SyntaxKind::Error, 0, 7)]);
    assert_eq!(kinds("3/65535"), vec![(SyntaxKind::PitchRatio, 0, 7)]);
    assert_eq!(kinds("100000000"), vec![(SyntaxKind::Error, 0, 9)]);
    assert_eq!(kinds("99999999"), vec![(SyntaxKind::PitchFrequency, 0, 8)]);
    assert_eq!(kinds("000000000099"), vec![(SyntaxKind::PitchFrequency, 0, 12)]);
    assert_eq!(kinds("32768\\12"), vec![(SyntaxKind::Error, 0, 8)]);
    assert_eq!(kinds("-32768\\12"), vec![(SyntaxKind::PitchEdo, 0, 9)]);
    assert_eq!(kinds("5\\0"), vec![(SyntaxKind::Error, 0, 3)]);
    assert_eq!(kinds("2147483648c"), vec![(SyntaxKind::Error, 0, 11)]);
    assert_eq!(kinds("-2147483648c"), vec![(SyntaxKind::PitchCents, 0, 12)]);
    assert_eq!(kinds("[0]"), vec![(SyntaxKind::Error, 0, 3)]);
    assert_eq!(kinds("{4:0}"), vec![(SyntaxKind::Error, 0, 5)]);
}

#[test]
fn scans_durations_and_quantize() {
    assert_eq!(only_kinds("[,,]"), vec![SyntaxKind::DurationCommas]);
    assert_eq!(only_kinds("[3]"), vec![SyntaxKind::DurationFraction]);
    assert_eq!(only_kinds("[3:2]"), vec![SyntaxKind::DurationFraction]);
    assert_eq!(only_kinds("[-3:2]"), vec![SyntaxKind::DurationFraction]);
    assert_eq!(only_kinds("{4}"), vec![SyntaxKind::Quantize]);
    assert_eq!(only_kinds("{4:3}"), vec![SyntaxKind::Quantize]);
}

#[test]
fn scans_punctuation_and_trivia() {
    assert_eq!(
        only_kinds(" \t,:;@=<>()+-.\r\n// note\n"),
        vec![
            SyntaxKind::Whitespace,
            SyntaxKind::Comma,
            SyntaxKind::Colon,
            SyntaxKind::Semicolon,
            SyntaxKind::At,
            SyntaxKind::Equals,
            SyntaxKind::LAngle,
            SyntaxKind::RAngle,
            SyntaxKind::LParen,
            SyntaxKind::RParen,
            SyntaxKind::Plus,
            SyntaxKind::PitchSustain,
            SyntaxKind::PitchRest,
            SyntaxKind::Newline,
            SyntaxKind::Comment,
            SyntaxKind::Newline,
        ]
    );
}

#[test]
fn unknown_bytes_make_one_error_token_per_scalar() {
    let (tokens, errors) = tokenize("C4 é?\n");
    let got: Vec<(SyntaxKind, u32, u32)> = tokens
        .iter()
        .map(|t| (t.kind, t.range.start, t.range.end))
        .collect();
    assert_eq!(
        got,
        vec![
            (SyntaxKind::PitchSpellOctave, 0, 2),
            (SyntaxKind::Whitespace, 2, 3),
            (SyntaxKind::Error, 3, 5),
            (SyntaxKind::Error, 5, 6),
            (SyntaxKind::Newline, 6, 7),
        ]
    );
    assert_eq!(errors.len(), 2);
    assert_eq!(errors[0].message, "Unrecognized token: \"é\"");
    assert_eq!((errors[0].range.start, errors[0].range.end), (3, 5));
    assert_eq!(errors[1].message, "Unrecognized token: \"?\"");
}

#[test]
fn tokens_cover_the_source_end_to_end() {
    let source = "m = 3/2\n<C4=440>{4}(3/4)\nC4@m:D4[,,];E4[1:8],  // é\n\t$ 1e9 [,] [3:] {}";
    let (tokens, _) = tokenize(source);
    let mut at = 0u32;
    let mut text = String::new();
    for t in &tokens {
        assert_eq!(t.range.start, at);
        assert!(t.range.start < t.range.end);
        text.push_str(&source[t.range.start as usize..t.range.end as usize]);
        at = t.range.end;
    }
    assert_eq!(at as usize, source.len());
    assert_eq!(text, source);
}

#[test]
fn empty_source_has_no_tokens() {
    let (tokens, errors) = tokenize("");
    assert!(tokens.is_empty());
    assert!(errors.is_empty());
}
