use std::sync::Arc;
use symi::compiler::atoms::{steps_from_base, steps_from_local_base};
use symi::compiler::compile::{find_invoke, tail_tokens, Compiler};
use symi::compiler::types::{
    CompileEvent, DiagnosticLevel, EventBody, Note, Pitch, TimeStamp,
};
use symi::rational::Rational32;
use symi::syntax::lexer::SyntaxKind;
use symi::syntax::parse_fn::parse_source;

fn compile_source(source: &str) -> Compiler {
    let parsed = parse_source(Arc::from(source));
    let mut compiler = Compiler::new();
    compiler.compile(&parsed.syntax_node());
    compiler
}

fn has_error_diagnostics(compiler: &Compiler) -> bool {
    compiler
        .diagnostics
        .iter()
        .any(|d| matches!(d.level, DiagnosticLevel::Error))
}

fn ratio(r: Rational32) -> f32 {
    r.0 as f32 / r.1 as f32
}

/// The frequency of one atom under the base pitch in force.
fn from_pitch(pitch: Pitch, base: (i16, f32)) -> f32 {
    let (base_note, base_frequency) = base;
    match pitch {
        Pitch::SpellOctave(spell) => {
            base_frequency * 2f32.powf((spell - base_note) as f32 / 12.0)
        }
        Pitch::SpellSimple(spell) => {
            let diff = steps_from_base(spell, base_note);
            base_frequency * 2f32.powf(diff as f32 / 12.0)
        }
        Pitch::Frequency(d) => (d.0 as f64 / 1e9) as f32,
        Pitch::Ratio(r) => base_frequency * ratio(r),
        Pitch::Edo(r) => base_frequency * 2f32.powf(ratio(r)),
        Pitch::Cents(c) => base_frequency * 2f32.powf(c as f32 / 1200.0),
        Pitch::Rest | Pitch::Sustain => 0.0,
    }
}

/// The frequency of one atom under the base that the atom to its right
/// has left.
fn with_local_base(pitch: Pitch, base: (i16, f32)) -> f32 {
    match pitch {
        Pitch::SpellSimple(spell) => {
            base.1 * 2f32.powf(steps_from_local_base(spell, base.0) as f32 / 12.0)
        }
        other => from_pitch(other, base),
    }
}

fn freq2spell(freq: f32, base: (i16, f32)) -> i16 {
    ((12.0 * (freq / base.1).log2()).round() as i16) + base.0
}

fn base_note_from_pitch(pitch: Pitch, freq: f32, base: (i16, f32)) -> i16 {
    match pitch {
        Pitch::SpellOctave(s) | Pitch::SpellSimple(s) => s,
        _ => freq2spell(freq, base),
    }
}

fn eval_chain(chain: &[Pitch], base: (i16, f32)) -> f32 {
    if chain.len() == 1 {
        return from_pitch(chain[0], base);
    }
    let right = *chain.last().unwrap();
    let mut freq = from_pitch(right, base);
    let mut local = (base_note_from_pitch(right, freq, base), freq);
    for pitch in chain[..chain.len() - 1].iter().rev() {
        freq = with_local_base(*pitch, local);
        local = (base_note_from_pitch(*pitch, freq, local), freq);
    }
    freq
}

fn bases(compiler: &Compiler) -> Vec<(i16, f32)> {
    let mut out: Vec<(i16, f32)> = vec![(60, 261.63)];
    for def in compiler.bases.iter().skip(1) {
        let under = out[def.under];
        let chain_freq = def.chain.as_ref().map(|c| eval_chain(c, under));
        let base = match def.spell {
            Some(spell) => {
                let note = match spell {
                    Pitch::SpellOctave(s) | Pitch::SpellSimple(s) => s,
                    _ => unreachable!(),
                };
                (note, chain_freq.unwrap_or(from_pitch(spell, under)))
            }
            None => {
                let f = chain_freq.unwrap();
                (freq2spell(f, under), f)
            }
        };
        out.push(base);
    }
    out
}

fn note_freq(compiler: &Compiler, note: &Note) -> f32 {
    eval_chain(&note.pitch_chain, bases(compiler)[note.base])
}

fn notes(compiler: &Compiler) -> Vec<(&CompileEvent, &Note)> {
    compiler
        .events
        .iter()
        .filter_map(|e| match &e.body {
            EventBody::Note(n) => Some((e, n)),
            _ => None,
        })
        .collect()
}

fn first_note_freq(compiler: &Compiler) -> f32 {
    let all = notes(compiler);
    let (_, note) = all.first().expect("expected one note event");
    note_freq(compiler, note)
}

fn base_frequency_event(compiler: &Compiler) -> f32 {
    compiler
        .events
        .iter()
        .find_map(|e| match e.body {
            EventBody::BaseFrequencyDef(b) => Some(bases(compiler)[b].1),
            _ => None,
        })
        .expect("expected base frequency event")
}

fn same(a: Rational32, n: i32, d: i32) -> bool {
    (a.0, a.1) == (n, d)
}

#[test]
fn compile_pitch_chain_right_to_left() {
    let compiler = compile_source("C4@3/2,\n");
    assert!(!has_error_diagnostics(&compiler));

    let freq = first_note_freq(&compiler);
    let right_freq = 261.63f32 * 1.5;
    let expected = right_freq * 2f32.powf((60f32 - 67f32) / 12.0);
    assert!((freq - expected).abs() < 0.2);
}

#[test]
fn compile_pitch_chain_rejects_rest_or_sustain() {
    let compiler = compile_source(".@C4,\n");
    assert!(compiler.diagnostics.iter().any(|d| {
        d.message
            .contains("rest/sustain cannot be used inside pitch chain")
    }));
}

#[test]
fn compile_pitch_chain_identifier_tail_from_alias_macro_ok() {
    let compiler = compile_source("m = 3/2\nC4@m,\n");
    assert!(!has_error_diagnostics(&compiler));

    let freq = first_note_freq(&compiler);
    let right_freq = 261.63f32 * 1.5;
    let expected = right_freq * 2f32.powf((60f32 - 67f32) / 12.0);
    assert!((freq - expected).abs() < 0.3);
}

#[test]
fn compile_pitch_chain_identifier_tail_from_multi_simple_macro_reports_error() {
    let compiler = compile_source("m = C4:D4\nC4@m,\n");
    assert!(compiler.diagnostics.iter().any(|d| {
        d.message
            .contains("Identifier in pitch chain must resolve to an alias macro")
    }));
}

#[test]
fn compile_pitch_chain_identifier_tail_from_complex_macro_reports_error() {
    let compiler = compile_source("m =\nC4,\n\nC4@m,\n");
    assert!(compiler.diagnostics.iter().any(|d| {
        d.message
            .contains("Identifier in pitch chain cannot resolve to a complex macro")
    }));
}

#[test]
fn compile_macro_invoke_head_unrestricted_tail_identifier_restricted() {
    let compiler = compile_source("m = C4:D4\nb = 3/2\nm@b,\n");
    assert!(!has_error_diagnostics(&compiler));

    let note_count = compiler
        .events
        .iter()
        .filter(|e| matches!(e.body, EventBody::Note(_)))
        .count();
    assert_eq!(note_count, 2);
}

#[test]
fn compile_simple_macro_def_allows_pitch_chain_with_identifier() {
    let compiler = compile_source("a = 3/2\nm = C4@a\nm,\n");
    assert!(!has_error_diagnostics(&compiler));

    let freq = first_note_freq(&compiler);
    let right_freq = 261.63f32 * 1.5;
    let expected = right_freq * 2f32.powf((60f32 - 67f32) / 12.0);
    assert!((freq - expected).abs() < 0.3);
}

#[test]
fn compile_simple_macro_anchor_pitch_chain() {
    let compiler = compile_source("m = 3/2\nm@D4,\n");
    assert!(!has_error_diagnostics(&compiler));

    let freq = first_note_freq(&compiler);
    let expected = 293.66f32 * 1.5;
    assert!((freq - expected).abs() < 0.3);
}

#[test]
fn compile_complex_macro_anchor_pitch_chain() {
    let compiler = compile_source("m =\n3/2,\n\nm@D4,\n");
    assert!(!has_error_diagnostics(&compiler));

    let freq = first_note_freq(&compiler);
    let expected = 293.66f32 * 1.5;
    assert!((freq - expected).abs() < 0.3);
}

#[test]
fn compile_simple_macro_anchor_appends_pitch_chain() {
    let direct = compile_source("3/2@D4,\n");
    let from_macro = compile_source("m = 3/2\nm@D4,\n");
    assert!(!has_error_diagnostics(&direct));
    assert!(!has_error_diagnostics(&from_macro));

    let direct_freq = first_note_freq(&direct);
    let macro_freq = first_note_freq(&from_macro);
    assert!((direct_freq - macro_freq).abs() < 1e-3);
}

#[test]
fn compile_complex_macro_anchor_appends_pitch_chain() {
    let direct = compile_source("3/2@D4,\n");
    let from_macro = compile_source("m =\n3/2,\n\nm@D4,\n");
    assert!(!has_error_diagnostics(&direct));
    assert!(!has_error_diagnostics(&from_macro));

    let direct_freq = first_note_freq(&direct);
    let macro_freq = first_note_freq(&from_macro);
    assert!((direct_freq - macro_freq).abs() < 1e-3);
}

#[test]
fn compile_pitch_chain_plus_suffix_equivalent_to_ratio_up() {
    let with_suffix = compile_source("3/2+,\n");
    let with_ratio = compile_source("3/2@2/1,\n");
    assert!(!has_error_diagnostics(&with_suffix));
    assert!(!has_error_diagnostics(&with_ratio));

    let suffix_freq = first_note_freq(&with_suffix);
    let ratio_freq = first_note_freq(&with_ratio);
    assert!((suffix_freq - ratio_freq).abs() < 1e-3);
}

#[test]
fn compile_pitch_chain_minus_suffix_equivalent_to_ratio_down() {
    let with_suffix = compile_source("3/2-,\n");
    let with_ratio = compile_source("3/2@1/2,\n");
    assert!(!has_error_diagnostics(&with_suffix));
    assert!(!has_error_diagnostics(&with_ratio));

    let suffix_freq = first_note_freq(&with_suffix);
    let ratio_freq = first_note_freq(&with_ratio);
    assert!((suffix_freq - ratio_freq).abs() < 1e-3);
}

#[test]
fn compile_macro_invoke_plus_suffix_equivalent_to_ratio_up() {
    let with_suffix = compile_source("m = 3/2\nm+,\n");
    let with_ratio = compile_source("m = 3/2\nm@2/1,\n");
    assert!(!has_error_diagnostics(&with_suffix));
    assert!(!has_error_diagnostics(&with_ratio));

    let suffix_freq = first_note_freq(&with_suffix);
    let ratio_freq = first_note_freq(&with_ratio);
    assert!((suffix_freq - ratio_freq).abs() < 1e-3);
}

#[test]
fn compile_macro_invoke_minus_suffix_equivalent_to_ratio_down() {
    let with_suffix = compile_source("m = 3/2\nm-,\n");
    let with_ratio = compile_source("m = 3/2\nm@1/2,\n");
    assert!(!has_error_diagnostics(&with_suffix));
    assert!(!has_error_diagnostics(&with_ratio));

    let suffix_freq = first_note_freq(&with_suffix);
    let ratio_freq = first_note_freq(&with_ratio);
    assert!((suffix_freq - ratio_freq).abs() < 1e-3);
}

#[test]
fn compile_simple_macro_preserves_pitch_chain_semantics() {
    let direct = compile_source("4/5@3/2,\n");
    let from_macro = compile_source("m = 4/5@3/2\nm,\n");
    assert!(!has_error_diagnostics(&direct));
    assert!(!has_error_diagnostics(&from_macro));

    let direct_freq = first_note_freq(&direct);
    let macro_freq = first_note_freq(&from_macro);
    assert!((direct_freq - macro_freq).abs() < 1e-3);
}

#[test]
fn compile_complex_macro_preserves_pitch_chain_semantics() {
    let direct = compile_source("4/5@3/2,\n");
    let from_macro = compile_source("m =\n4/5@3/2,\n\nm,\n");
    assert!(!has_error_diagnostics(&direct));
    assert!(!has_error_diagnostics(&from_macro));

    let direct_freq = first_note_freq(&direct);
    let macro_freq = first_note_freq(&from_macro);
    assert!((direct_freq - macro_freq).abs() < 1e-3);
}

#[test]
fn compile_base_pitch_accepts_non_frequency_reference() {
    let compiler = compile_source("<C4=3/2>\n");
    assert!(!has_error_diagnostics(&compiler));
    assert!(compiler
        .events
        .iter()
        .any(|e| matches!(e.body, EventBody::BaseNoteDef(_))));
    assert!(compiler
        .events
        .iter()
        .any(|e| matches!(e.body, EventBody::BaseFrequencyDef(_))));
}

#[test]
fn compile_base_pitch_rhs_identifier_chain_alias_macro_ok() {
    let direct = compile_source("<C4=3/2@5/4>\n");
    let from_ident = compile_source("a = 3/2@5/4\n<C4=a>\n");
    assert!(!has_error_diagnostics(&direct));
    assert!(!has_error_diagnostics(&from_ident));

    let direct_freq = base_frequency_event(&direct);
    let ident_freq = base_frequency_event(&from_ident);
    assert!((direct_freq - ident_freq).abs() < 1e-3);
}

#[test]
fn compile_base_pitch_rhs_identifier_chain_rejects_multi_note_simple_macro() {
    let compiler = compile_source("a = C4:D4\n<C4=a>\n");
    assert!(compiler.diagnostics.iter().any(|d| {
        d.message
            .contains("Identifier in base pitch RHS must resolve to an alias macro")
    }));
}

#[test]
fn compile_base_pitch_spell_without_rhs_infers_frequency() {
    let shorthand = compile_source("<D4>\n");
    let explicit = compile_source("<D4=D4>\n");
    assert!(!has_error_diagnostics(&shorthand));
    assert!(!has_error_diagnostics(&explicit));

    let shorthand_freq = base_frequency_event(&shorthand);
    let explicit_freq = base_frequency_event(&explicit);
    assert!((shorthand_freq - explicit_freq).abs() < 1e-3);
}

#[test]
fn one_note_with_a_comma() {
    let compiler = compile_source("C4,\n");
    assert!(!has_error_diagnostics(&compiler));
    let all = notes(&compiler);
    assert_eq!(all.len(), 1);
    let (event, note) = all[0];
    assert!((note_freq(&compiler, note) - 261.63).abs() < 1e-3);
    assert_eq!(event.start_time.nanos, 0);
    assert_eq!(event.start_time.bars, 0);
    assert!(same(note.duration, 1, 4));
    assert_eq!(note.duration_nanos, 500_000_000);
    assert_eq!((event.range.start, event.range.end), (0, 2));
    assert!(event.range_invoked.is_none());
    // The comma moved the time on by a quarter, and the line ended the bar.
    assert_eq!(compiler.events.len(), 2);
    match compiler.events[1].body {
        EventBody::NewMeasure(bar) => assert_eq!(bar, 1),
        _ => panic!("expected the bar to end"),
    }
    assert_eq!(compiler.state.time.bars, 1);
    assert_eq!(compiler.state.time.nanos, 500_000_000);
    assert!(same(compiler.state.time.ticks, 0, 4));
    assert_eq!(compiler.events[1].start_time.nanos, 500_000_000);
}

#[test]
fn two_notes_at_once() {
    let compiler = compile_source("(4/4)\n(120)\nC4:E4,\n");
    assert!(!has_error_diagnostics(&compiler));
    let all = notes(&compiler);
    assert_eq!(all.len(), 2);
    assert_eq!(all[0].0.start_time.nanos, 0);
    assert_eq!(all[1].0.start_time.nanos, 0);
    assert!((note_freq(&compiler, all[0].1) - 261.63).abs() < 0.01);
    assert!((note_freq(&compiler, all[1].1) - 329.63).abs() < 0.01);
    assert!(same(all[0].1.duration, 1, 4));
    assert!(same(all[1].1.duration, 1, 4));
    assert!(compiler
        .events
        .iter()
        .any(|e| matches!(e.body, EventBody::TimeSignatureDef(r) if same(r, 4, 4))));
    assert!(compiler
        .events
        .iter()
        .any(|e| matches!(e.body, EventBody::BPMDef(d) if d.0 == 120_000_000_000)));
}

#[test]
fn chain_with_a_ratio_on_the_right() {
    let compiler = compile_source("C4@3/2,\n");
    let all = notes(&compiler);
    assert_eq!(all.len(), 1);
    let note = all[0].1;
    assert_eq!(note.pitch_chain.len(), 2);
    assert!(matches!(note.pitch_chain[0], Pitch::SpellOctave(60)));
    assert!(matches!(note.pitch_chain[1], Pitch::Ratio(r) if same(r, 3, 2)));
    assert!(same(note.duration, 1, 4));
    let expected = 261.63f32 * 1.5 * 2f32.powf(-7.0 / 12.0);
    assert!((note_freq(&compiler, note) - expected).abs() < 0.01);
}

#[test]
fn rest_in_a_chain_gives_no_note() {
    let compiler = compile_source(".@C4,\n");
    assert!(notes(&compiler).is_empty());
    assert!(compiler.diagnostics.iter().any(|d| {
        matches!(d.level, DiagnosticLevel::Error)
            && d.message
                .contains("rest/sustain cannot be used inside pitch chain")
    }));
}

#[test]
fn alias_moved_by_a_pitch() {
    let compiler = compile_source("m = 3/2\nm@D4,\n");
    let all = notes(&compiler);
    assert_eq!(all.len(), 1);
    let note = all[0].1;
    assert!(matches!(note.pitch_chain[0], Pitch::Ratio(r) if same(r, 3, 2)));
    assert!(matches!(note.pitch_chain[1], Pitch::SpellOctave(62)));
    assert!((note_freq(&compiler, note) - 293.66 * 1.5).abs() < 0.05);
}

#[test]
fn minus_behind_an_atom_is_a_half() {
    let compiler = compile_source("C4-,\n");
    assert!(!has_error_diagnostics(&compiler));
    let all = notes(&compiler);
    assert_eq!(all.len(), 1);
    let note = all[0].1;
    assert_eq!(note.pitch_chain.len(), 2);
    assert!(matches!(note.pitch_chain[0], Pitch::SpellOctave(60)));
    assert!(matches!(note.pitch_chain[1], Pitch::Ratio(r) if same(r, 1, 2)));
    let half = compile_source("1/1-,\n");
    assert!((first_note_freq(&half) - 130.815).abs() < 0.01);
}

#[test]
fn durations_in_brackets() {
    let compiler = compile_source("C4[3:8]:D4[,,]:E4[8]:F4,\n");
    assert!(!has_error_diagnostics(&compiler));
    let all = notes(&compiler);
    assert_eq!(all.len(), 4);
    assert!(same(all[0].1.duration, 3, 8));
    assert_eq!(all[0].1.duration_nanos, 750_000_000);
    assert!(same(all[1].1.duration, 3, 4));
    assert_eq!(all[1].1.duration_nanos, 1_500_000_000);
    assert!(same(all[2].1.duration, 1, 8));
    assert!(same(all[3].1.duration, 1, 4));
}

#[test]
fn notes_without_duration_take_the_next_one() {
    let compiler = compile_source("C4:D4[8]:E4:F4,\n");
    let all = notes(&compiler);
    assert_eq!(all.len(), 4);
    assert!(same(all[0].1.duration, 1, 8));
    assert!(same(all[1].1.duration, 1, 8));
    assert!(same(all[2].1.duration, 1, 4));
    assert!(same(all[3].1.duration, 1, 4));
}

#[test]
fn semicolons_split_the_quantize() {
    let compiler = compile_source("C4;D4;E4,\n");
    assert!(!has_error_diagnostics(&compiler));
    let all = notes(&compiler);
    assert_eq!(all.len(), 3);
    for (_, note) in &all {
        assert!(same(note.duration, 1, 12));
    }
    assert_eq!(all[0].0.start_time.nanos, 0);
    assert_eq!(all[1].0.start_time.nanos, 166_666_666);
    assert_eq!(all[2].0.start_time.nanos, 333_333_332);
    assert!(same(all[1].0.start_time.ticks, 1, 12));
    assert!(same(all[2].0.start_time.ticks, 1, 6));
    assert!(same(compiler.state.quantize, 1, 4));
}

#[test]
fn ghost_line_does_not_move_the_time() {
    let compiler = compile_source("=C4,D4,\nE4,\n");
    let all = notes(&compiler);
    assert_eq!(all.len(), 3);
    assert_eq!(all[0].0.start_time.nanos, 0);
    assert_eq!(all[1].0.start_time.nanos, 500_000_000);
    assert_eq!(all[2].0.start_time.nanos, 0);
    assert_eq!(all[2].0.start_time.bars, 0);
}

#[test]
fn tempo_changes_the_nanoseconds() {
    let compiler = compile_source("(60)\nC4,\n([8]=90)\nD4,\n");
    let all = notes(&compiler);
    assert_eq!(all[0].1.duration_nanos, 1_000_000_000);
    // A quarter at 90 eighths a minute lasts two beats of two thirds of a second.
    assert_eq!(all[1].1.duration_nanos, 1_333_333_333);
    assert!(compiler
        .events
        .iter()
        .any(|e| matches!(e.body, EventBody::BeatDurationDef(r) if same(r, 1, 8))));
}

#[test]
fn quantize_changes_the_default_duration() {
    let compiler = compile_source("{8}C4,{3:16}D4,\n");
    let all = notes(&compiler);
    assert!(same(all[0].1.duration, 1, 8));
    assert!(same(all[1].1.duration, 3, 16));
    assert!(same(all[1].0.start_time.ticks, 1, 8));
    assert!(compiler
        .events
        .iter()
        .any(|e| matches!(e.body, EventBody::QuantizeDef(r) if same(r, 3, 16))));
}

#[test]
fn negative_duration_starts_earlier() {
    let compiler = compile_source("C4,D4[-1:8],\n");
    assert!(!has_error_diagnostics(&compiler));
    let all = notes(&compiler);
    assert_eq!(all.len(), 2);
    let (event, note) = all[1];
    assert!(same(note.duration, 1, 8));
    assert_eq!(note.duration_nanos, 250_000_000);
    assert_eq!(event.start_time.nanos, 250_000_000);
    assert!(same(event.start_time.ticks, 1, 8));
}

#[test]
fn sustain_makes_the_note_before_it_longer() {
    let compiler = compile_source("C4,-,D4,\n");
    let all = notes(&compiler);
    assert_eq!(all.len(), 2);
    assert!(same(all[0].1.duration, 1, 2));
    assert_eq!(all[0].1.duration_nanos, 1_000_000_000);
    assert!(same(all[1].1.duration, 1, 4));
    assert!(!compiler
        .diagnostics
        .iter()
        .any(|d| d.message.contains("Sustain")));
    for (_, note) in &all {
        assert!(!note.is_sustain());
    }
}

#[test]
fn sustain_without_a_note_is_warned_of() {
    let compiler = compile_source("-,\n");
    assert!(notes(&compiler).is_empty());
    assert_eq!(compiler.diagnostics.len(), 2);
    let last = &compiler.diagnostics[1];
    assert!(matches!(last.level, DiagnosticLevel::Warning));
    assert_eq!(last.message, "Sustain note has no matching preceding note");
    assert_eq!((last.span.start, last.span.end), (0, 1));
}

#[test]
fn folding_sustains_twice_changes_nothing() {
    let mut compiler = compile_source("C4:E4,-,.,-,G4,\n");
    let once: Vec<(i64, i64, (i32, i32))> = notes(&compiler)
        .iter()
        .map(|(e, n)| (e.start_time.nanos, n.duration_nanos, (n.duration.0, n.duration.1)))
        .collect();
    let warnings = compiler.diagnostics.len();
    compiler.finalize_sustain_notes();
    let twice: Vec<(i64, i64, (i32, i32))> = notes(&compiler)
        .iter()
        .map(|(e, n)| (e.start_time.nanos, n.duration_nanos, (n.duration.0, n.duration.1)))
        .collect();
    assert_eq!(once, twice);
    assert_eq!(compiler.diagnostics.len(), warnings);
    assert_eq!(once[0], (0, 1_000_000_000, (1, 2)));
    assert_eq!(once[1], (0, 1_000_000_000, (1, 2)));
    // The rest is held by the second sustain.
    assert_eq!(once[2], (1_000_000_000, 1_000_000_000, (1, 2)));
}

#[test]
fn complex_macro_is_placed_at_the_call() {
    let compiler = compile_source("m =\nC4,D4,\n\nE4,m,\n");
    assert!(!has_error_diagnostics(&compiler));
    let all = notes(&compiler);
    assert_eq!(all.len(), 3);
    assert_eq!(all[1].0.start_time.nanos, 500_000_000);
    assert_eq!(all[2].0.start_time.nanos, 1_000_000_000);
    assert_eq!(all[1].0.range_invoked.map(|r| (r.start, r.end)), Some((15, 16)));
    assert_eq!((all[1].0.range.start, all[1].0.range.end), (4, 6));
    assert!(all[0].0.range_invoked.is_none());
}

#[test]
fn undefined_macro_is_an_error() {
    let compiler = compile_source("nothing,\n");
    assert!(notes(&compiler).is_empty());
    assert!(matches!(compiler.diagnostics[0].level, DiagnosticLevel::Error));
    assert_eq!(compiler.diagnostics[0].message, "Undefined macro invoked: nothing");
    assert_eq!(
        (compiler.diagnostics[0].span.start, compiler.diagnostics[0].span.end),
        (0, 7)
    );
}

#[test]
fn later_definition_takes_the_place_of_an_earlier_one() {
    let compiler = compile_source("m = C4:D4\nm = 3/2\nC4@m,\n");
    assert!(!has_error_diagnostics(&compiler));
    assert_eq!(notes(&compiler).len(), 1);
}

#[test]
fn equal_division_stays_in_force_for_bare_numbers() {
    let compiler = compile_source("7\\12:4:440.0:4,\n");
    assert!(!has_error_diagnostics(&compiler));
    let all = notes(&compiler);
    assert_eq!(all.len(), 4);
    assert!(matches!(all[0].1.pitch_chain[0], Pitch::Edo(r) if same(r, 7, 12)));
    assert!(matches!(all[1].1.pitch_chain[0], Pitch::Edo(r) if same(r, 4, 12)));
    assert!(matches!(all[2].1.pitch_chain[0], Pitch::Frequency(d) if d.0 == 440_000_000_000));
    assert!(matches!(all[3].1.pitch_chain[0], Pitch::Frequency(d) if d.0 == 4_000_000_000));
}

#[test]
fn frequency_has_to_lie_above_one() {
    let compiler = compile_source("1,\n0.5,\n");
    assert!(notes(&compiler).is_empty());
    let errors: Vec<&str> = compiler
        .diagnostics
        .iter()
        .filter(|d| matches!(d.level, DiagnosticLevel::Error))
        .map(|d| d.message.as_str())
        .collect();
    assert_eq!(errors, vec!["Invalid frequency value: 1", "Invalid frequency value: 0.5"]);
}

#[test]
fn base_pitch_definitions_are_listed() {
    let compiler = compile_source("<D4>\n<A4=440>\n<3/2>\nC4,\n");
    assert!(!has_error_diagnostics(&compiler));
    assert_eq!(compiler.bases.len(), 4);
    assert_eq!(compiler.bases[1].under, 0);
    assert_eq!(compiler.bases[2].under, 1);
    assert_eq!(compiler.bases[3].under, 2);
    assert!(matches!(compiler.bases[1].spell, Some(Pitch::SpellOctave(62))));
    assert!(compiler.bases[1].chain.is_none());
    assert!(matches!(compiler.bases[2].spell, Some(Pitch::SpellOctave(69))));
    assert!(compiler.bases[3].spell.is_none());
    let realised = bases(&compiler);
    assert!((realised[1].1 - 293.66).abs() < 0.01);
    assert_eq!(realised[2].0, 69);
    assert!((realised[2].1 - 440.0).abs() < 1e-3);
    assert_eq!(realised[3].0, 76);
    assert!((realised[3].1 - 660.0).abs() < 1e-3);
    let all = notes(&compiler);
    assert_eq!(all[0].1.base, 3);
}

#[test]
fn time_signature_that_is_no_power_of_two_is_warned_of() {
    let compiler = compile_source("(4/6)\n(3/4)\n");
    let warnings: Vec<&str> = compiler
        .diagnostics
        .iter()
        .filter(|d| matches!(d.level, DiagnosticLevel::Warning))
        .map(|d| d.message.as_str())
        .collect();
    assert_eq!(
        warnings,
        vec!["Denominator of time signature is not a power of 2, which is discouraged: 4/6"]
    );
    assert!(same(compiler.state.time_signature, 3, 4));
}

#[test]
fn line_that_ends_within_a_bar_is_warned_of() {
    let compiler = compile_source("(2/4)\nC4,\nC4,D4,\n");
    let warnings = compiler
        .diagnostics
        .iter()
        .filter(|d| d.message == "Line ended but current ticks do not align with time signature")
        .count();
    assert_eq!(warnings, 1);
}

#[test]
fn time_stamp_of_the_start() {
    let t = TimeStamp::default();
    assert_eq!(t.nanos, 0);
    assert_eq!(t.bars, 0);
    assert!(same(t.ticks, 0, 4));
    assert!(t.is_zero());
}

#[test]
fn tail_of_a_call_leaves_out_the_name_and_the_at() {
    let parsed = parse_source(Arc::from("m = 3/2\nm@D4+,\n"));
    let root = parsed.syntax_node();
    let call = find_invoke(&root).expect("the second line calls m");
    assert_eq!(call.kind(), SyntaxKind::NODE_MACRO_INVOKE);
    let tail = tail_tokens(&call);
    let kinds: Vec<SyntaxKind> = tail.iter().map(|t| t.kind()).collect();
    assert_eq!(kinds, vec![SyntaxKind::PitchSpellOctave, SyntaxKind::Plus]);
    assert_eq!(tail[0].text(), "D4");
}

#[test]
fn tail_of_a_bare_call_is_empty() {
    let parsed = parse_source(Arc::from("m = 3/2\nm,\n"));
    let root = parsed.syntax_node();
    let call = find_invoke(&root).expect("the second line calls m");
    assert!(tail_tokens(&call).is_empty());
}

#[test]
fn two_sustains_in_a_row_both_hold_on() {
    let compiler = compile_source("C4,-,-,D4,\n");
    let all = notes(&compiler);
    assert_eq!(all.len(), 2);
    assert!(same(all[0].1.duration, 3, 4));
    assert_eq!(all[0].1.duration_nanos, 1_500_000_000);
    assert!(same(all[1].1.duration, 1, 4));
    assert_eq!(all[1].0.start_time.nanos, 1_500_000_000);
    assert!(compiler.diagnostics.is_empty());
}

fn note_at(start: i64, lasts: i64, pitch: Pitch) -> CompileEvent {
    CompileEvent {
        body: EventBody::Note(Note {
            pitch_chain: vec![pitch],
            base: 0,
            duration: Rational32(1, 4),
            duration_nanos: lasts,
        }),
        start_time: TimeStamp { nanos: start, bars: 0, ticks: Rational32(0, 4) },
        range: symi::syntax::types::TextRange { start: 0, end: 1 },
        range_invoked: None,
    }
}

#[test]
fn a_sustain_finds_the_notes_of_the_buckets_next_to_its_own() {
    let mut compiler = Compiler::new();
    // The sustain starts at 200 050 ns. A note holds if it ends less than
    // 100 000 ns from there.
    compiler.events = vec![
        note_at(0, 199_999, Pitch::SpellOctave(60)),
        note_at(100_000, 200_040, Pitch::SpellOctave(62)),
        note_at(100_050, 200_000, Pitch::SpellOctave(64)),
        note_at(0, 100_050, Pitch::SpellOctave(65)),
        note_at(0, 100_051, Pitch::SpellOctave(67)),
        note_at(200_050, 1_000, Pitch::Sustain),
        note_at(-300_000, 150_000, Pitch::SpellOctave(69)),
        note_at(-100_001, 7, Pitch::Sustain),
    ];
    compiler.finalize_sustain_notes();
    let lasts: Vec<i64> = compiler
        .events
        .iter()
        .map(|e| match &e.body {
            EventBody::Note(n) => n.duration_nanos,
            _ => 0,
        })
        .collect();
    assert_eq!(lasts, vec![200_999, 201_040, 200_000, 100_050, 101_051, 150_007]);
    let halves: Vec<(i32, i32)> = compiler
        .events
        .iter()
        .map(|e| match &e.body {
            EventBody::Note(n) => (n.duration.0, n.duration.1),
            _ => (0, 0),
        })
        .collect();
    assert_eq!(halves, vec![(1, 2), (1, 2), (1, 4), (1, 4), (1, 2), (1, 2)]);
    assert!(compiler.diagnostics.is_empty());
}

#[test]
fn a_note_that_has_grown_is_found_where_it_ends_now() {
    let mut compiler = Compiler::new();
    compiler.events = vec![
        note_at(0, 1_000_000, Pitch::SpellOctave(60)),
        note_at(1_000_000, 500_000, Pitch::Sustain),
        note_at(1_500_000, 250_000, Pitch::Sustain),
        // Where the note ended at first, nothing ends any more.
        note_at(1_000_000, 1, Pitch::Sustain),
    ];
    compiler.finalize_sustain_notes();
    assert_eq!(compiler.events.len(), 1);
    match &compiler.events[0].body {
        EventBody::Note(n) => {
            assert_eq!(n.duration_nanos, 1_750_000);
            assert_eq!((n.duration.0, n.duration.1), (3, 4));
        }
        _ => panic!("a note"),
    }
    assert_eq!(compiler.diagnostics.len(), 1);
    assert_eq!(compiler.diagnostics[0].message, "Sustain note has no matching preceding note");
}
