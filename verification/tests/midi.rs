use midly::{Format, MetaMessage, MidiMessage, Smf, TrackEventKind};
use std::sync::Arc;
use symi::compiler::atoms::{steps_from_base, steps_from_local_base};
use symi::compiler::compile::Compiler;
use symi::compiler::types::{
    CompileEvent, Decimal, DiagnosticLevel, EventBody, Note, Pitch, TimeStamp,
};
use symi::midi::export::{export_smf_format1, layout_tracks};
use symi::midi::layout::{
    build_same_start_groups, collect_note_specs, NoteGroup, NoteSpec,
};
use symi::midi::render::{
    append_rpn_pitch_bend_setup, build_meta_track, to_delta_track, AbsEvent, MidiEvent,
    TrackEvent,
};
use symi::midi::smf::{write_tracks, written};
use symi::midi::tempo::{
    build_tempo_points, collect_tempo_and_signature, seconds_to_tick, sorted_order,
    RawTempoPoint,
};
use symi::midi::tracks::assign_groups_to_tracks;
use symi::midi::writer::{
    bend14_to_signed, bpm_beat_to_mpq, freq_to_key_and_bend, normalize_tpq,
    seconds_to_ticks_with_mpq, signed_to_bend14, ExportError, MidiWriterConfig,
};
use symi::rational::Rational32;
use symi::syntax::parse_fn::parse_source;
use symi::syntax::types::TextRange;

fn compile_source(source: &str) -> Compiler {
    let parsed = parse_source(Arc::from(source));
    let mut compiler = Compiler::new();
    compiler.compile(&parsed.syntax_node());
    compiler
}

fn has_error_diagnostics(compiler: &Compiler) -> bool {
    compiler
        .diagnostics
        .iter()
        .any(|d| matches!(d.level, DiagnosticLevel::Error))
}

fn ratio(r: Rational32) -> f32 {
    r.0 as f32 / r.1 as f32
}

/// The frequency of one atom under the base pitch in force.
fn from_pitch(pitch: Pitch, base: (i16, f32)) -> f32 {
    let (base_note, base_frequency) = base;
    match pitch {
        Pitch::SpellOctave(spell) => {
            base_frequency * 2f32.powf((spell - base_note) as f32 / 12.0)
        }
        Pitch::SpellSimple(spell) => {
            let diff = steps_from_base(spell, base_note);
            base_frequency * 2f32.powf(diff as f32 / 12.0)
        }
        Pitch::Frequency(d) => (d.0 as f64 / 1e9) as f32,
        Pitch::Ratio(r) => base_frequency * ratio(r),
        Pitch::Edo(r) => base_frequency * 2f32.powf(ratio(r)),
        Pitch::Cents(c) => base_frequency * 2f32.powf(c as f32 / 1200.0),
        Pitch::Rest | Pitch::Sustain => 0.0,
    }
}

/// The frequency of one atom under the base that the atom to its right
/// has left.
fn with_local_base(pitch: Pitch, base: (i16, f32)) -> f32 {
    match pitch {
        Pitch::SpellSimple(spell) => {
            base.1 * 2f32.powf(steps_from_local_base(spell, base.0) as f32 / 12.0)
        }
        other => from_pitch(other, base),
    }
}

fn freq2spell(freq: f32, base: (i16, f32)) -> i16 {
    ((12.0 * (freq / base.1).log2()).round() as i16) + base.0
}

fn base_note_from_pitch(pitch: Pitch, freq: f32, base: (i16, f32)) -> i16 {
    match pitch {
        Pitch::SpellOctave(s) | Pitch::SpellSimple(s) => s,
        _ => freq2spell(freq, base),
    }
}

fn eval_chain(chain: &[Pitch], base: (i16, f32)) -> f32 {
    if chain.len() == 1 {
        return from_pitch(chain[0], base);
    }
    let right = *chain.last().unwrap();
    let mut freq = from_pitch(right, base);
    let mut local = (base_note_from_pitch(right, freq, base), freq);
    for pitch in chain[..chain.len() - 1].iter().rev() {
        freq = with_local_base(*pitch, local);
        local = (base_note_from_pitch(*pitch, freq, local), freq);
    }
    freq
}

fn bases(compiler: &Compiler) -> Vec<(i16, f32)> {
    let mut out: Vec<(i16, f32)> = vec![(60, 261.63)];
    for def in compiler.bases.iter().skip(1) {
        let under = out[def.under];
        let chain_freq = def.chain.as_ref().map(|c| eval_chain(c, under));
        let base = match def.spell {
            Some(spell) => {
                let note = match spell {
                    Pitch::SpellOctave(s) | Pitch::SpellSimple(s) => s,
                    _ => unreachable!(),
                };
                (note, chain_freq.unwrap_or(from_pitch(spell, under)))
            }
            None => {
                let f = chain_freq.unwrap();
                (freq2spell(f, under), f)
            }
        };
        out.push(base);
    }
    out
}

fn note_freq(compiler: &Compiler, note: &Note) -> f32 {
    eval_chain(&note.pitch_chain, bases(compiler)[note.base])
}

fn notes(compiler: &Compiler) -> Vec<(&CompileEvent, &Note)> {
    compiler
        .events
        .iter()
        .filter_map(|e| match &e.body {
            EventBody::Note(n) => Some((e, n)),
            _ => None,
        })
        .collect()
}

fn first_note_freq(compiler: &Compiler) -> f32 {
    let all = notes(compiler);
    let (_, note) = all.first().expect("expected one note event");
    note_freq(compiler, note)
}

fn base_frequency_event(compiler: &Compiler) -> f32 {
    compiler
        .events
        .iter()
        .find_map(|e| match e.body {
            EventBody::BaseFrequencyDef(b) => Some(bases(compiler)[b].1),
            _ => None,
        })
        .expect("expected base frequency event")
}


/// The pitch of a frequency on the MIDI scale, in millionths of a semitone.
fn pitch_of(freq: f64) -> Option<i64> {
    if freq > 0.0 {
        Some(((69.0 + 12.0 * (freq / 440.0).log2()) * 1e6).round() as i64)
    } else {
        None
    }
}

fn pitches(compiler: &Compiler) -> Vec<Option<i64>> {
    compiler
        .events
        .iter()
        .map(|e| match &e.body {
            EventBody::Note(n) => pitch_of(note_freq(compiler, n) as f64),
            _ => None,
        })
        .collect()
}

fn note_event(start: i64, duration: i64, pitch: Pitch) -> CompileEvent {
    CompileEvent {
        body: EventBody::Note(Note {
            pitch_chain: vec![pitch],
            base: 0,
            duration: Rational32(1, 4),
            duration_nanos: duration,
        }),
        start_time: TimeStamp { nanos: start, bars: 0, ticks: Rational32(0, 4) },
        range: TextRange { start: 0, end: 0 },
        range_invoked: None,
    }
}

fn event_at(start: i64, body: EventBody) -> CompileEvent {
    CompileEvent {
        body,
        start_time: TimeStamp { nanos: start, bars: 0, ticks: Rational32(0, 4) },
        range: TextRange { start: 0, end: 0 },
        range_invoked: None,
    }
}

#[test]
fn export_compiled_events_to_smf1() {
    let compiler = compile_source("(4/4)\n(120)\nC4:E4,\n");
    assert!(
        compiler
            .diagnostics
            .iter()
            .all(|d| { !matches!(d.level, DiagnosticLevel::Error) }),
        "compiler has diagnostics: {:?}",
        compiler
            .diagnostics
            .iter()
            .map(|d| d.message.clone())
            .collect::<Vec<_>>()
    );

    let bytes = export_smf_format1(
        &compiler.events,
        &pitches(&compiler),
        MidiWriterConfig::default(),
    )
    .expect("midi export should succeed");
    assert!(!bytes.is_empty());

    let parsed_midi = Smf::parse(&bytes).expect("generated bytes should be valid SMF");
    assert_eq!(parsed_midi.header.format, Format::Parallel);
    assert!(parsed_midi.tracks.len() >= 2);

    let has_time_signature = parsed_midi.tracks[0].iter().any(|event| {
        matches!(
            event.kind,
            TrackEventKind::Meta(MetaMessage::TimeSignature(_, _, _, _))
        )
    });
    let has_tempo = parsed_midi.tracks[0]
        .iter()
        .any(|event| matches!(event.kind, TrackEventKind::Meta(MetaMessage::Tempo(_))));
    assert!(
        has_time_signature,
        "meta track should contain time signature"
    );
    assert!(has_tempo, "meta track should contain tempo");

    let has_note_on = parsed_midi.tracks.iter().skip(1).any(|track| {
        track.iter().any(|event| {
            matches!(
                event.kind,
                TrackEventKind::Midi {
                    message: MidiMessage::NoteOn { .. },
                    ..
                }
            )
        })
    });
    assert!(has_note_on, "at least one note track should contain NoteOn");
}

#[test]
fn test_same_start_note_groups() {
    let compiler = compile_source("(4/4)\n(120)\n1/1:3/2,\n");
    let bytes = export_smf_format1(
        &compiler.events,
        &pitches(&compiler),
        MidiWriterConfig::default(),
    )
    .expect("midi export should succeed");
    let parsed_midi = Smf::parse(&bytes).expect("generated bytes should be valid SMF");
    let bends = parsed_midi
        .tracks
        .iter()
        .skip(1)
        .flat_map(|track| track.iter())
        .filter_map(|event| {
            if let TrackEventKind::Midi {
                message: MidiMessage::PitchBend { bend },
                ..
            } = event.kind
            {
                Some(bend.0)
            } else {
                None
            }
        })
        .collect::<Vec<_>>();
    println!("Extracted pitch bends: {:?}", bends);
    // The fifth lies two cents from its key: both notes share one bend.
    assert_eq!(bends.len(), 1);
}

#[test]
fn pitch_bend_neutral_is_8192() {
    let pitch = pitch_of(440.0).expect("A4 should convert");
    let (key, bend14, cents) = freq_to_key_and_bend(pitch, 2).expect("A4 should convert");
    assert_eq!(key, 69);
    assert_eq!(bend14, 8192);
    assert_eq!(cents, 0);
    for range in [1u16, 2, 12, 24, 65535] {
        assert_eq!(freq_to_key_and_bend(69_000_000, range), Ok((69, 8192, 0)));
    }
}

#[test]
fn same_start_group_averages_bend_around_center() {
    let groups = build_same_start_groups(
        vec![
            NoteSpec {
                start_nanos: 0,
                end_nanos: 1_000_000_000,
                midi_key: 60,
                bend14: 8191,
                bend_cents: -100_000,
            },
            NoteSpec {
                start_nanos: 0,
                end_nanos: 1_000_000_000,
                midi_key: 64,
                bend14: 8193,
                bend_cents: 100_000,
            },
        ],
        1_000_000,
    );

    assert_eq!(groups.len(), 1);
    assert_eq!(groups[0].bend14, 8192);
    assert_eq!(groups[0].bend_cents, 0);
    assert_eq!(groups[0].notes.len(), 2);
}

#[test]
fn key_and_bend_of_pitches_between_keys() {
    // A quarter tone above middle C with a range of two semitones.
    assert_eq!(freq_to_key_and_bend(60_250_000, 2), Ok((60, 9216, 25_000_000)));
    // Half way between two keys goes to the upper one.
    assert_eq!(freq_to_key_and_bend(60_500_000, 2), Ok((61, 6144, -50_000_000)));
    // Below the lowest key the bend is held at its end.
    assert_eq!(freq_to_key_and_bend(-3_000_000, 2), Ok((0, 0, -300_000_000)));
    assert_eq!(freq_to_key_and_bend(130_000_000, 2), Ok((127, 16383, 300_000_000)));
    assert_eq!(freq_to_key_and_bend(60_000_000, 0), Err(ExportError::BendRangeZero));
}

#[test]
fn bend_conversions_hold_their_range() {
    assert_eq!(bend14_to_signed(8192), 0);
    assert_eq!(bend14_to_signed(0), -8192);
    assert_eq!(bend14_to_signed(16383), 8191);
    assert_eq!(bend14_to_signed(60000), 8191);
    assert_eq!(signed_to_bend14(0), 8192);
    assert_eq!(signed_to_bend14(-9000), 0);
    assert_eq!(signed_to_bend14(9000), 16383);
    assert_eq!(signed_to_bend14(-1), 8191);
}

#[test]
fn ticks_per_quarter_have_to_fit() {
    assert_eq!(normalize_tpq(480), Ok(480));
    assert_eq!(normalize_tpq(32767), Ok(32767));
    assert_eq!(normalize_tpq(0), Err(ExportError::TicksPerQuarterZero));
    assert_eq!(normalize_tpq(32768), Err(ExportError::TicksPerQuarterTooLarge));
}

#[test]
fn microseconds_per_quarter() {
    assert_eq!(bpm_beat_to_mpq(Decimal(120_000_000_000), Rational32(1, 4)), Ok(500_000));
    assert_eq!(bpm_beat_to_mpq(Decimal(90_000_000_000), Rational32(1, 8)), Ok(1_333_333));
    assert_eq!(bpm_beat_to_mpq(Decimal(60_000_000_000), Rational32(1, 2)), Ok(500_000));
    assert_eq!(bpm_beat_to_mpq(Decimal(1), Rational32(1, 4)), Ok(16_777_215));
    assert_eq!(
        bpm_beat_to_mpq(Decimal(99_999_999_000_000_000), Rational32(255, 1)),
        Ok(1)
    );
    assert_eq!(
        bpm_beat_to_mpq(Decimal(0), Rational32(1, 4)),
        Err(ExportError::TempoNotPositive)
    );
    assert_eq!(
        bpm_beat_to_mpq(Decimal(120_000_000_000), Rational32(-1, 4)),
        Err(ExportError::TempoNotPositive)
    );
}

#[test]
fn ticks_of_a_stretch() {
    assert_eq!(seconds_to_ticks_with_mpq(500_000_000, 500_000, 480), 480);
    assert_eq!(seconds_to_ticks_with_mpq(1_000_000_000, 500_000, 480), 960);
    assert_eq!(seconds_to_ticks_with_mpq(1_041_666, 500_000, 480), 1);
    assert_eq!(seconds_to_ticks_with_mpq(520_834, 500_000, 480), 1);
    assert_eq!(seconds_to_ticks_with_mpq(520_833, 500_000, 480), 0);
    assert_eq!(seconds_to_ticks_with_mpq(0, 500_000, 480), 0);
    assert_eq!(seconds_to_ticks_with_mpq(-5, 500_000, 480), 0);
}

#[test]
fn ticks_never_fall_as_time_goes_on() {
    let raw = vec![
        RawTempoPoint { nanos: 0, mpq: 500_000 },
        RawTempoPoint { nanos: 1_000_000_000, mpq: 250_000 },
        RawTempoPoint { nanos: 1_500_000_000, mpq: 1_000_000 },
    ];
    let points = build_tempo_points(&raw, 480);
    assert_eq!(points[0].start_tick, 0);
    assert_eq!(points[1].start_tick, 960);
    assert_eq!(points[2].start_tick, 1920);
    assert_eq!(seconds_to_tick(500_000_000, &points, 480), 480);
    assert_eq!(seconds_to_tick(1_250_000_000, &points, 480), 1440);
    assert_eq!(seconds_to_tick(2_500_000_000, &points, 480), 2400);
    assert_eq!(seconds_to_tick(-1, &points, 480), 0);
    let mut last = 0;
    for step in 0..300 {
        let tick = seconds_to_tick(step * 10_000_000, &points, 480);
        assert!(tick >= last);
        last = tick;
    }
}

#[test]
fn order_keeps_equal_keys_in_place() {
    let keys = vec![(5, 0), (1, 7), (5, 0), (1, 2), (0, 9), (5, -1)];
    assert_eq!(sorted_order(&keys), vec![4, 3, 1, 5, 0, 2]);
    assert_eq!(sorted_order(&Vec::new()), Vec::<usize>::new());
}

#[test]
fn tempo_points_of_a_score() {
    let events = vec![
        event_at(1_000, EventBody::BPMDef(Decimal(60_000_000_000))),
        event_at(0, EventBody::BPMDef(Decimal(100_000_000_000))),
        event_at(1_000, EventBody::BeatDurationDef(Rational32(1, 8))),
        event_at(500, EventBody::TimeSignatureDef(Rational32(3, 4))),
    ];
    let (tempos, signatures) = collect_tempo_and_signature(&events).expect("tempo map");
    let got: Vec<(i64, u32)> = tempos.iter().map(|t| (t.nanos, t.mpq)).collect();
    // At zero the score's own tempo takes the place of the default, and at
    // 1000 the tempo with the new beat takes the place of the one before.
    assert_eq!(got, vec![(0, 600_000), (1_000, 2_000_000)]);
    assert_eq!(signatures.len(), 1);
    assert_eq!(
        (signatures[0].nanos, signatures[0].numerator, signatures[0].denominator),
        (500, 3, 4)
    );
}

#[test]
fn time_signatures_that_cannot_be_written() {
    let export = |ts: Rational32| {
        collect_tempo_and_signature(&vec![event_at(0, EventBody::TimeSignatureDef(ts))])
            .map(|_| ())
    };
    assert_eq!(export(Rational32(4, 4)), Ok(()));
    assert_eq!(export(Rational32(0, 4)), Err(ExportError::TimeSignatureNotPositive));
    assert_eq!(export(Rational32(4, -4)), Err(ExportError::TimeSignatureNotPositive));
    assert_eq!(export(Rational32(4, 6)), Err(ExportError::TimeSignatureNotPowerOfTwo));
    assert_eq!(export(Rational32(256, 4)), Err(ExportError::TimeSignatureOutOfRange));
    assert_eq!(export(Rational32(4, 256)), Err(ExportError::TimeSignatureOutOfRange));
}

#[test]
fn notes_that_cannot_be_written() {
    let config = MidiWriterConfig::default();
    let sounding = vec![note_event(0, 1_000, Pitch::SpellOctave(60))];
    assert_eq!(
        export_smf_format1(&sounding, &vec![None], config),
        Err(ExportError::FrequencyNotPositive)
    );
    let lasting_no_time = vec![note_event(0, 0, Pitch::SpellOctave(60))];
    assert_eq!(
        export_smf_format1(&lasting_no_time, &vec![Some(60_000_000)], config),
        Err(ExportError::DurationNotPositive)
    );
    assert_eq!(
        export_smf_format1(
            &sounding,
            &vec![Some(60_000_000)],
            MidiWriterConfig { pitch_bend_range_semitones: 0, ..config }
        ),
        Err(ExportError::BendRangeZero)
    );
    assert_eq!(
        export_smf_format1(
            &sounding,
            &vec![Some(60_000_000)],
            MidiWriterConfig { ticks_per_quarter: 0, ..config }
        ),
        Err(ExportError::TicksPerQuarterZero)
    );
    assert_eq!(
        export_smf_format1(
            &sounding,
            &vec![Some(60_000_000)],
            MidiWriterConfig { ticks_per_quarter: 40_000, ..config }
        ),
        Err(ExportError::TicksPerQuarterTooLarge)
    );
    assert_eq!(
        export_smf_format1(&sounding, &Vec::new(), config),
        Err(ExportError::PitchCountMismatch)
    );
    let bad_tempo = vec![event_at(0, EventBody::BPMDef(Decimal(0)))];
    assert_eq!(
        export_smf_format1(&bad_tempo, &vec![None], config),
        Err(ExportError::TempoNotPositive)
    );
    // A rest needs no pitch.
    let rest = vec![note_event(0, 1_000, Pitch::Rest)];
    assert!(export_smf_format1(&rest, &vec![None], config).is_ok());
}

#[test]
fn more_than_sixteen_tracks_cannot_be_written() {
    let config = MidiWriterConfig::default();
    let chord = |n: usize| -> (Vec<CompileEvent>, Vec<Option<i64>>) {
        let events = (0..n)
            .map(|_| note_event(0, 1_000_000_000, Pitch::SpellOctave(60)))
            .collect();
        let pitches = (0..n).map(|i| Some(40_000_000 + i as i64 * 1_050_000)).collect();
        (events, pitches)
    };
    let (events, pitches) = chord(16);
    assert!(export_smf_format1(&events, &pitches, config).is_ok());
    let (events, pitches) = chord(17);
    assert_eq!(
        export_smf_format1(&events, &pitches, config),
        Err(ExportError::TooManyTracks)
    );
}

fn group(start: i64, end: i64) -> NoteGroup {
    NoteGroup {
        start_nanos: start,
        end_nanos: end,
        bend14: 8192,
        bend_cents: 0,
        notes: vec![NoteSpec {
            start_nanos: start,
            end_nanos: end,
            midi_key: 60,
            bend14: 8192,
            bend_cents: 0,
        }],
    }
}

#[test]
fn note_that_reaches_into_the_next_is_cut_short() {
    // The first note ends a hundredth of a millisecond after the second
    // starts.
    let tracks = assign_groups_to_tracks(
        vec![group(0, 500_010_000), group(500_000_000, 1_000_000_000)],
        100_000,
    );
    assert_eq!(tracks.len(), 1);
    assert_eq!(tracks[0].groups.len(), 2);
    assert_eq!(tracks[0].groups[0].end_nanos, 500_000_000);
    assert_eq!(tracks[0].groups[0].notes[0].end_nanos, 500_000_000);
    assert_eq!(tracks[0].groups[1].start_nanos, 500_000_000);
    assert_eq!(tracks[0].groups[1].end_nanos, 1_000_000_000);
}

#[test]
fn notes_that_sound_together_go_on_different_tracks() {
    let tracks = assign_groups_to_tracks(
        vec![
            group(0, 1_000_000_000),
            group(500_000_000, 1_500_000_000),
            group(1_000_000_000, 2_000_000_000),
            group(1_000_100_001, 1_200_000_000),
        ],
        100_000,
    );
    assert_eq!(tracks.len(), 3);
    let starts: Vec<Vec<i64>> = tracks
        .iter()
        .map(|t| t.groups.iter().map(|g| g.start_nanos).collect())
        .collect();
    assert_eq!(
        starts,
        vec![vec![0, 1_000_000_000], vec![500_000_000], vec![1_000_100_001]]
    );
    for track in &tracks {
        for pair in track.groups.windows(2) {
            assert!(pair[0].end_nanos <= pair[1].start_nanos);
        }
    }
    // Exactly the tolerance is still cut short, one nanosecond more is not.
    let tracks = assign_groups_to_tracks(
        vec![group(0, 1_000_000_000), group(999_900_000, 2_000_000_000)],
        100_000,
    );
    assert_eq!(tracks.len(), 1);
    let tracks = assign_groups_to_tracks(
        vec![group(0, 1_000_000_000), group(999_899_999, 2_000_000_000)],
        100_000,
    );
    assert_eq!(tracks.len(), 2);
}

#[test]
fn groups_take_notes_that_start_together_and_lie_close() {
    let note = |start: i64, end: i64, key: u8, cents: i64| NoteSpec {
        start_nanos: start,
        end_nanos: end,
        midi_key: key,
        bend14: 8192,
        bend_cents: cents,
    };
    let groups = build_same_start_groups(
        vec![
            note(10, 20, 60, 0),
            note(0, 5, 62, 40_000_000),
            note(10, 30, 64, 2_000_000),
            note(0, 9, 67, 0),
            note(10, 15, 65, 9_000_000),
        ],
        3_000_000,
    );
    let got: Vec<(i64, i64, Vec<u8>)> = groups
        .iter()
        .map(|g| (g.start_nanos, g.end_nanos, g.notes.iter().map(|n| n.midi_key).collect()))
        .collect();
    assert_eq!(
        got,
        vec![
            (0, 9, vec![67]),
            (0, 5, vec![62]),
            (10, 15, vec![65]),
            (10, 30, vec![60, 64]),
        ]
    );
    assert_eq!(groups[3].bend_cents, 1_000_000);
}

#[test]
fn events_of_a_tick_go_by_priority() {
    let on = MidiEvent::NoteOn { channel: 0, key: 60, vel: 100 };
    let off = MidiEvent::NoteOff { channel: 0, key: 59, vel: 0 };
    let bend = MidiEvent::PitchBend { channel: 0, bend: 8192 };
    let track = to_delta_track(vec![
        AbsEvent { tick: 480, priority: 2, kind: on },
        AbsEvent { tick: 480, priority: 1, kind: bend },
        AbsEvent { tick: 0, priority: 2, kind: on },
        AbsEvent { tick: 480, priority: 0, kind: off },
        AbsEvent { tick: 1_000_000_000, priority: 0, kind: off },
    ]);
    assert_eq!(
        track,
        vec![
            TrackEvent { delta: 0, kind: on },
            TrackEvent { delta: 480, kind: off },
            TrackEvent { delta: 0, kind: bend },
            TrackEvent { delta: 0, kind: on },
            TrackEvent { delta: 0x0FFF_FFFF, kind: off },
            TrackEvent { delta: 0, kind: MidiEvent::EndOfTrack },
        ]
    );
}

#[test]
fn pitch_bend_range_is_set_up_first() {
    let mut events = Vec::new();
    append_rpn_pitch_bend_setup(&mut events, 3, 300);
    let got: Vec<MidiEvent> = events.iter().map(|e| e.kind).collect();
    assert_eq!(
        got,
        vec![
            MidiEvent::Controller { channel: 3, controller: 101, value: 0 },
            MidiEvent::Controller { channel: 3, controller: 100, value: 0 },
            MidiEvent::Controller { channel: 3, controller: 6, value: 127 },
            MidiEvent::Controller { channel: 3, controller: 38, value: 0 },
        ]
    );
    assert!(events.iter().all(|e| e.tick == 0 && e.priority == 0));
}

#[test]
fn written_file_holds_the_events() {
    let compiler = compile_source("(3/8)\n(90)\nA4,C4[8],\n");
    let config = MidiWriterConfig::default();
    let tracks = layout_tracks(&compiler.events, &pitches(&compiler), 480, config)
        .expect("tracks");
    assert_eq!(tracks.len(), 2);
    let bytes = write_tracks(480, &tracks).expect("bytes");
    assert_eq!(&bytes[..4], b"MThd");
    let parsed = Smf::parse(&bytes).expect("valid file");
    assert_eq!(parsed.tracks.len(), 2);
    let meta: Vec<String> = parsed.tracks[0].iter().map(|e| format!("{:?}", e.kind)).collect();
    assert_eq!(
        meta,
        vec![
            "Meta(Tempo(u24(666667)))",
            "Meta(TimeSignature(3, 3, 24, 8))",
            "Meta(EndOfTrack)",
        ]
    );
    let notes: Vec<(u32, String)> = parsed.tracks[1]
        .iter()
        .map(|e| (e.delta.as_int(), format!("{:?}", e.kind)))
        .collect();
    let midi = |message: &str| format!("Midi {{ channel: u4(0), message: {} }}", message);
    assert_eq!(
        notes,
        vec![
            (0, midi("Controller { controller: u7(101), value: u7(0) }")),
            (0, midi("Controller { controller: u7(100), value: u7(0) }")),
            (0, midi("Controller { controller: u7(6), value: u7(2) }")),
            (0, midi("Controller { controller: u7(38), value: u7(0) }")),
            (0, midi("PitchBend { bend: PitchBend(u14(8193)) }")),
            (0, midi("NoteOn { key: u7(69), vel: u7(100) }")),
            (480, midi("NoteOff { key: u7(69), vel: u7(0) }")),
            (0, midi("PitchBend { bend: PitchBend(u14(8193)) }")),
            (0, midi("NoteOn { key: u7(60), vel: u7(100) }")),
            (240, midi("NoteOff { key: u7(60), vel: u7(0) }")),
            (0, "Meta(EndOfTrack)".to_string()),
        ]
    );
    // Other tracks give other bytes.
    let other = write_tracks(480, &vec![tracks[0].clone()]).expect("bytes");
    assert_ne!(bytes, other);
    assert_eq!(Smf::parse(&other).expect("valid file").tracks.len(), 1);
}

#[test]
fn events_out_of_range_are_not_written() {
    let track = vec![TrackEvent {
        delta: 0,
        kind: MidiEvent::NoteOn { channel: 16, key: 60, vel: 100 },
    }];
    assert_eq!(write_tracks(480, &vec![track]), Err(ExportError::EventOutOfRange));
    let track = vec![TrackEvent { delta: 0x1000_0000, kind: MidiEvent::EndOfTrack }];
    assert_eq!(write_tracks(480, &vec![track]), Err(ExportError::EventOutOfRange));
}

#[test]
fn meta_track_puts_tempos_at_their_ticks() {
    let raw = vec![
        RawTempoPoint { nanos: 0, mpq: 500_000 },
        RawTempoPoint { nanos: 2_000_000_000, mpq: 250_000 },
    ];
    let points = build_tempo_points(&raw, 96);
    let track = build_meta_track(&points, &Vec::new(), 96);
    assert_eq!(
        track,
        vec![
            TrackEvent { delta: 0, kind: MidiEvent::Tempo(500_000) },
            TrackEvent { delta: 384, kind: MidiEvent::Tempo(250_000) },
            TrackEvent { delta: 0, kind: MidiEvent::EndOfTrack },
        ]
    );
}

#[test]
fn default_settings() {
    let config = MidiWriterConfig::default();
    assert_eq!(config.pitch_bend_range_semitones, 2);
    assert_eq!(config.ticks_per_quarter, 480);
    assert_eq!(config.time_tolerance_nanos, 100_000);
    assert_eq!(config.pitch_tolerance_microcents, 3_000_000);
    assert_eq!(
        ExportError::TooManyTracks.message(),
        "Too many note tracks for MIDI channels"
    );
}

#[test]
fn rests_and_notes_become_specs() {
    let events = vec![
        note_event(0, 1_000, Pitch::Rest),
        note_event(5, 1_000, Pitch::SpellOctave(60)),
        event_at(7, EventBody::NewMeasure(1)),
    ];
    let specs = collect_note_specs(&events, &vec![None, Some(60_250_000), None], 2).expect("specs");
    assert_eq!(
        specs,
        vec![NoteSpec {
            start_nanos: 5,
            end_nanos: 1_005,
            midi_key: 60,
            bend14: 9216,
            bend_cents: 25_000_000,
        }]
    );
}

#[test]
fn written_bytes_are_handed_on() {
    assert_eq!(written(Ok(vec![0x4D, 0x54, 0x68, 0x64])), Ok(vec![0x4D, 0x54, 0x68, 0x64]));
}

#[test]
fn a_failed_write_is_named() {
    let failure = std::io::Error::new(std::io::ErrorKind::Other, "no room");
    assert_eq!(written(Err(failure)), Err(ExportError::WriteFailed));
}

#[test]
fn first_wrong_tempo_in_time_gives_the_error() {
    // The time signature stands first in the list but later in time.
    let events = vec![
        CompileEvent {
            body: EventBody::TimeSignatureDef(Rational32(3, 3)),
            start_time: TimeStamp { nanos: 2_000, bars: 0, ticks: Rational32(0, 4) },
            range: TextRange { start: 0, end: 1 },
            range_invoked: None,
        },
        CompileEvent {
            body: EventBody::BPMDef(Decimal(0)),
            start_time: TimeStamp { nanos: 1_000, bars: 0, ticks: Rational32(0, 4) },
            range: TextRange { start: 1, end: 2 },
            range_invoked: None,
        },
    ];
    let pitches = vec![None, None];
    assert_eq!(
        export_smf_format1(&events, &pitches, MidiWriterConfig::default()),
        Err(ExportError::TempoNotPositive)
    );
}
