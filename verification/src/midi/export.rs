//! From the events of a score to the bytes of a MIDI file.

use super::layout::{
    build_same_start_groups, collect_note_specs, first_note_error, group_fits, group_views,
    in_order, layout_views, note_fits, same_start_groups, specs_upto, GroupView, NoteSpec,
    TrackLayout,
};
use super::render::{
    as_track, build_meta_track, build_note_track, meta_events, note_events, TrackEvent,
};
use super::smf::{all_sayable, sayable, smf_bytes, track_views, wires, write_tracks};
use super::tempo::{
    build_tempo_points, collect_tempo_and_signature, order_of, sorted_order, tempo_changes,
    tempos_in_order, with_ticks,
};
use super::tracks::{assign_groups_to_tracks, assigned};
use super::writer::{normalize_tpq, ExportError, MidiWriterConfig};
use crate::compiler::types::CompileEvent;
use vstd::prelude::*;

verus! {

/// The keys by which notes are put in order: the start, then the key.
pub open spec fn note_keys(notes: Seq<NoteSpec>) -> Seq<(i64, i64)> {
    Seq::new(notes.len(), |i: int| (notes[i].start_nanos, notes[i].midi_key as i64))
}

/// The notes in the order of their starts, those that start together in
/// the order of their keys.
pub fn order_notes(notes: &Vec<NoteSpec>) -> (ordered: Vec<NoteSpec>)
    ensures
        ordered@ == in_order(notes@, order_of(note_keys(notes@))),
        ordered@.len() == notes@.len(),
        forall|i: int|
            0 <= i < ordered@.len() ==> (#[trigger] order_of(note_keys(notes@))[i]) < notes@.len(),
{
    let mut keys: Vec<(i64, i64)> = Vec::new();
    let ghost want = note_keys(notes@);
    let mut i: usize = 0;
    while i < notes.len()
        invariant
            0 <= i <= notes@.len(),
            keys@.len() == i,
            want == note_keys(notes@),
            forall|j: int| 0 <= j < i ==> #[trigger] keys@[j] == want[j],
        decreases notes@.len() - i,
    {
        keys.push((notes[i].start_nanos, notes[i].midi_key as i64));
        i += 1;
    }
    proof {
        assert(keys@ =~= want);
    }
    let order = sorted_order(&keys);
    let mut ordered: Vec<NoteSpec> = Vec::new();
    let mut k: usize = 0;
    while k < order.len()
        invariant
            0 <= k <= order@.len(),
            order@.len() == notes@.len(),
            forall|i: int| 0 <= i < order@.len() ==> (#[trigger] order@[i]) < notes@.len(),
            ordered@.len() == k,
            forall|i: int| 0 <= i < k ==> #[trigger] ordered@[i] == notes@[order@[i] as int],
        decreases order@.len() - k,
    {
        ordered.push(notes[order[k]]);
        k += 1;
    }
    proof {
        assert(ordered@ =~= in_order(notes@, order@));
    }
    ordered
}

/// The groups of notes of a score on their tracks: the notes that sound,
/// in the order of their starts and keys, gathered into groups that start
/// together and lie close in pitch, and each group on the first track that
/// is free for it.
pub open spec fn score_layout(
    events: Seq<CompileEvent>,
    pitches: Seq<Option<i64>>,
    config: MidiWriterConfig,
) -> Seq<Seq<GroupView>> {
    let notes = specs_upto(
        events,
        pitches,
        config.pitch_bend_range_semitones,
        events.len() as int,
    );
    let sorted = in_order(notes, order_of(note_keys(notes)));
    let groups = same_start_groups(sorted, config.pitch_tolerance_microcents);
    assigned(groups, config.time_tolerance_nanos, groups.len() as int)
}

/// What keeps a score from being laid out on tracks, if anything does:
/// what is wrong with the first tempo or time signature in time that is
/// wrong; else what is wrong with the first note that is; else that its
/// notes need more than 16 tracks.
pub open spec fn score_error(
    events: Seq<CompileEvent>,
    pitches: Seq<Option<i64>>,
    config: MidiWriterConfig,
) -> Option<ExportError> {
    if tempo_changes(events).error is Some {
        tempo_changes(events).error
    } else if first_note_error(
        events,
        pitches,
        config.pitch_bend_range_semitones,
        events.len() as int,
    ) is Some {
        first_note_error(events, pitches, config.pitch_bend_range_semitones, events.len() as int)
    } else if score_layout(events, pitches, config).len() > 16 {
        Some(ExportError::TooManyTracks)
    } else {
        None
    }
}

/// The tracks of the file for a score: the first holds the tempos and the
/// time signatures, each at its tick; every other track holds the notes of
/// one track of the layout, on the channel of its place.
pub open spec fn score_tracks(
    events: Seq<CompileEvent>,
    pitches: Seq<Option<i64>>,
    tpq: u16,
    config: MidiWriterConfig,
) -> Seq<Seq<TrackEvent>> {
    let walk = tempo_changes(events);
    let points = with_ticks(tempos_in_order(walk.raw), tpq as int);
    let layout = score_layout(events, pitches, config);
    Seq::new(
        layout.len() + 1,
        |t: int|
            if t == 0 {
                as_track(meta_events(points, walk.signatures, tpq as int))
            } else {
                as_track(
                    note_events(
                        layout[t - 1],
                        (t - 1) as u8,
                        config.pitch_bend_range_semitones,
                        points,
                        tpq as int,
                        layout[t - 1].len() as int,
                    ),
                )
            },
    )
}

/// The tracks of the file for a score. `pitches` gives the pitch of each
/// event that is a note, in millionths of a semitone on the MIDI scale, and
/// `None` for a note without a frequency above zero.
pub fn layout_tracks(
    events: &Vec<CompileEvent>,
    pitches: &Vec<Option<i64>>,
    tpq: u16,
    config: MidiWriterConfig,
) -> (r: Result<Vec<Vec<TrackEvent>>, ExportError>)
    requires
        pitches@.len() == events@.len(),
    ensures
        match r {
            Ok(tracks) => score_error(events@, pitches@, config) is None && track_views(tracks@)
                == score_tracks(events@, pitches@, tpq, config),
            Err(e) => score_error(events@, pitches@, config) == Some(e),
        },
        r matches Ok(tracks) ==> 1 <= tracks@.len() <= 17 && all_sayable(track_views(tracks@)),
{
    let bend_range = config.pitch_bend_range_semitones;
    let (raw_tempos, time_signatures) = match collect_tempo_and_signature(events) {
        Ok(maps) => maps,
        Err(e) => {
            return Err(e);
        },
    };
    let tempo_points = build_tempo_points(&raw_tempos, tpq);
    let note_specs = match collect_note_specs(events, pitches, bend_range) {
        Ok(notes) => notes,
        Err(e) => {
            return Err(e);
        },
    };
    let ordered = order_notes(&note_specs);
    proof {
        assert forall|i: int| 0 <= i < ordered@.len() implies (#[trigger] ordered@[i]).start_nanos
            <= ordered@[i].end_nanos && note_fits(ordered@[i]) by {
            let j = order_of(note_keys(note_specs@))[i] as int;
            assert(ordered@[i] == note_specs@[j]);
            assert(note_specs@[j].start_nanos < note_specs@[j].end_nanos);
        }
        assert forall|i: int| 0 <= i < tempo_points@.len() implies (
        #[trigger] tempo_points@[i]).mpq <= 0xFF_FFFF by {
            assert(tempo_points@[i].mpq == raw_tempos@[i].mpq);
        }
    }
    let grouped = build_same_start_groups(ordered, config.pitch_tolerance_microcents);
    let ghost groups = group_views(grouped@);
    let layouts = assign_groups_to_tracks(grouped, config.time_tolerance_nanos);
    proof {
        assert(layout_views(layouts@) == score_layout(events@, pitches@, config));
    }
    if layouts.len() > 16 {
        return Err(ExportError::TooManyTracks);
    }
    let ghost want = score_tracks(events@, pitches@, tpq, config);
    let mut tracks: Vec<Vec<TrackEvent>> = Vec::new();
    tracks.push(build_meta_track(&tempo_points, &time_signatures, tpq));
    let mut channel: usize = 0;
    while channel < layouts.len()
        invariant
            0 <= channel <= layouts@.len(),
            layouts@.len() <= 16,
            bend_range == config.pitch_bend_range_semitones,
            tracks@.len() == channel + 1,
            forall|i: int| 0 <= i < tempo_points@.len() ==> (#[trigger] tempo_points@[i]).mpq >= 1,
            layout_views(layouts@) == score_layout(events@, pitches@, config),
            tempo_points@ == with_ticks(tempos_in_order(tempo_changes(events@).raw), tpq as int),
            want == score_tracks(events@, pitches@, tpq, config),
            forall|t: int| 0 <= t < tracks@.len() ==> (#[trigger] tracks@[t])@ == want[t],
            forall|t: int, g: int|
                0 <= t < layouts@.len() && 0 <= g < layouts@[t]@.len() ==> group_fits(
                    #[trigger] layouts@[t]@[g],
                ),
            forall|t: int, i: int|
                0 <= t < tracks@.len() && 0 <= i < tracks@[t]@.len() ==> sayable(
                    #[trigger] tracks@[t]@[i],
                ),
        decreases layouts@.len() - channel,
    {
        let track = build_note_track(&layouts[channel], channel as u8, bend_range, &tempo_points, tpq);
        proof {
            assert(layout_views(layouts@)[channel as int] == layouts@[channel as int]@);
            assert(layouts@[channel as int]@.len() == layouts@[channel as int].groups@.len());
            assert(track@ == want[channel + 1]);
        }
        tracks.push(track);
        channel += 1;
    }
    proof {
        assert(track_views(tracks@) =~= want);
        assert forall|t: int, i: int|
            0 <= t < track_views(tracks@).len() && 0 <= i < track_views(
                tracks@,
            )[t].len() implies sayable(#[trigger] track_views(tracks@)[t][i]) by {
            assert(track_views(tracks@)[t] == tracks@[t]@);
            assert(sayable(tracks@[t]@[i]));
        }
    }
    Ok(tracks)
}

/// The bytes of a MIDI file of format 1 for the events of a score.
/// `pitches` gives the pitch of each event that is a note, in millionths of
/// a semitone on the MIDI scale, and `None` for a note without a frequency
/// above zero; it has to have a place for each event.
///
/// Nothing is written unless the whole score can be: the ticks per quarter
/// have to lie from 1 to 32767, every tempo has to be positive, every time
/// signature has to have positive parts that fit a byte and a power of two
/// below, every note that is no rest has to have a pitch and to last, the
/// range of the pitch bend must not be zero if there is such a note, and
/// the notes must not need more than 16 tracks. Such a score is written,
/// unless one of its tracks holds more than 2^28 - 1 events: every event
/// of it is one that a MIDI file can say.
pub fn export_smf_format1(
    events: &Vec<CompileEvent>,
    pitches: &Vec<Option<i64>>,
    config: MidiWriterConfig,
) -> (r: Result<Vec<u8>, ExportError>)
    ensures
        config.ticks_per_quarter == 0 ==> r == Err::<Vec<u8>, ExportError>(
            ExportError::TicksPerQuarterZero,
        ),
        config.ticks_per_quarter > 0x7FFF ==> r == Err::<Vec<u8>, ExportError>(
            ExportError::TicksPerQuarterTooLarge,
        ),
        0 < config.ticks_per_quarter <= 0x7FFF && pitches@.len() != events@.len() ==> r == Err::<
            Vec<u8>,
            ExportError,
        >(ExportError::PitchCountMismatch),
        0 < config.ticks_per_quarter <= 0x7FFF && pitches@.len() == events@.len() ==> ({
            let tracks = score_tracks(
                events@,
                pitches@,
                config.ticks_per_quarter as u16,
                config,
            );
            match score_error(events@, pitches@, config) {
                Some(e) => r == Err::<Vec<u8>, ExportError>(e),
                None => match r {
                    Ok(bytes) => bytes@ == smf_bytes(
                        config.ticks_per_quarter as int,
                        wires(tracks),
                    ),
                    Err(e) => e == ExportError::WriteFailed && exists|t: int|
                        0 <= t < tracks.len() && (#[trigger] tracks[t]).len() > 0x0FFF_FFFF,
                },
            }
        }),
{
    let tpq = match normalize_tpq(config.ticks_per_quarter) {
        Ok(t) => t,
        Err(e) => {
            return Err(e);
        },
    };
    if pitches.len() != events.len() {
        return Err(ExportError::PitchCountMismatch);
    }
    let tracks = match layout_tracks(events, pitches, tpq, config) {
        Ok(t) => t,
        Err(e) => {
            return Err(e);
        },
    };
    let written = write_tracks(tpq, &tracks);
    proof {
        if written is Err {
            let held = track_views(tracks@);
            let t = choose|t: int|
                0 <= t < tracks@.len() && (#[trigger] tracks@[t])@.len() > 0x0FFF_FFFF;
            assert(held[t] == tracks@[t]@);
        }
    }
    written
}

} // verus!
