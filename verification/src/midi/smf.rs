//! Writing the tracks as the bytes of a Standard MIDI File, which the
//! crate `midly` does. The file is built event by event from plain numbers;
//! what it holds is followed here as sequences of numbers, and the bytes
//! that `midly` makes of it have a name.

use super::render::{says, MidiEvent, TrackEvent};
use super::writer::ExportError;
use vstd::prelude::*;

verus! {

/// `midly::Smf`: a MIDI file in memory, a header and tracks of events.
#[verifier::external_type_specification]
#[verifier::external_body]
pub struct ExSmf<'a>(midly::Smf<'a>);

/// `std::io::Error`: why writing failed.
#[verifier::external_type_specification]
#[verifier::external_body]
pub struct ExIoError(std::io::Error);

/// The tracks of a file: each event as its delta time, a number for its
/// kind and the numbers it carries, as `wire` gives them for the seven
/// kinds of events that are written here. An event of another kind reads
/// as no numbers at all.
pub uninterp spec fn smf_tracks(smf: midly::Smf<'static>) -> Seq<Seq<Seq<int>>>;

/// The ticks per quarter of a file.
pub uninterp spec fn smf_tpq(smf: midly::Smf<'static>) -> int;

/// The bytes of a file of format 1 with these ticks per quarter and these
/// tracks.
pub uninterp spec fn smf_bytes(tpq: int, tracks: Seq<Seq<Seq<int>>>) -> Seq<u8>;

/// An event as numbers: the delta time, the kind, and what the event
/// carries.
pub open spec fn wire(e: TrackEvent) -> Seq<int> {
    match e.kind {
        MidiEvent::Tempo(mpq) => seq![e.delta as int, 0, mpq as int],
        MidiEvent::TimeSignature(a, b, c, d) => seq![
            e.delta as int,
            1,
            a as int,
            b as int,
            c as int,
            d as int,
        ],
        MidiEvent::Controller { channel, controller, value } => seq![
            e.delta as int,
            2,
            channel as int,
            controller as int,
            value as int,
        ],
        MidiEvent::PitchBend { channel, bend } => seq![e.delta as int, 3, channel as int, bend as int],
        MidiEvent::NoteOn { channel, key, vel } => seq![
            e.delta as int,
            4,
            channel as int,
            key as int,
            vel as int,
        ],
        MidiEvent::NoteOff { channel, key, vel } => seq![
            e.delta as int,
            5,
            channel as int,
            key as int,
            vel as int,
        ],
        MidiEvent::EndOfTrack => seq![e.delta as int, 6],
    }
}

/// The numbers are those of an event of one of the seven kinds.
pub open spec fn of_a_kind(e: Seq<int>) -> bool {
    e.len() >= 2 && 0 <= e[1] <= 6
}

/// The file is one that `midly` writes without fail: it has no more than
/// 65535 tracks, each of its tracks has no more than 2^28 - 1 events, and
/// each event is of one of the seven kinds, which take no more than 11
/// bytes each.
pub open spec fn writable(tracks: Seq<Seq<Seq<int>>>) -> bool {
    &&& tracks.len() <= 0xFFFF
    &&& forall|t: int| 0 <= t < tracks.len() ==> (#[trigger] tracks[t]).len() <= 0x0FFF_FFFF
    &&& forall|t: int, i: int|
        0 <= t < tracks.len() && 0 <= i < tracks[t].len() ==> of_a_kind(#[trigger] tracks[t][i])
}

/// The tracks with one more event at the end of the last one.
pub open spec fn with_event(tracks: Seq<Seq<Seq<int>>>, e: Seq<int>) -> Seq<Seq<Seq<int>>> {
    tracks.update(tracks.len() - 1, tracks.last().push(e))
}

/// `midly::Smf::new` with a header of format 1 (`Format::Parallel`) and
/// metrical timing: a file without tracks. `u15::new` keeps a number up to
/// 32767 as it is.
#[verifier::external_body]
fn smf_new(tpq: u16) -> (smf: midly::Smf<'static>)
    requires
        tpq <= 0x7FFF,
    ensures
        smf_tracks(smf) == Seq::<Seq<Seq<int>>>::empty(),
        smf_tpq(smf) == tpq,
{
    let timing = midly::Timing::Metrical(midly::num::u15::new(tpq));
    midly::Smf::new(midly::Header::new(midly::Format::Parallel, timing))
}

/// A push onto the public field `tracks` of `midly::Smf`: one more track,
/// without events.
#[verifier::external_body]
fn smf_start_track(smf: &mut midly::Smf<'static>)
    ensures
        smf_tpq(*final(smf)) == smf_tpq(*old(smf)),
        smf_tracks(*final(smf)) == smf_tracks(*old(smf)).push(Seq::<Seq<int>>::empty()),
{
    smf.tracks.push(Vec::new());
}

/// One more `midly::TrackEvent` at the end of the last track: the meta
/// event `MetaMessage::Tempo`. `u28::new` and `u24::new` keep numbers within
/// their 28 and 24 bits as they are.
#[verifier::external_body]
fn smf_push_tempo(smf: &mut midly::Smf<'static>, delta: u32, mpq: u32)
    requires
        smf_tracks(*old(smf)).len() > 0,
        delta <= 0x0FFF_FFFF,
        mpq <= 0xFF_FFFF,
    ensures
        smf_tpq(*final(smf)) == smf_tpq(*old(smf)),
        smf_tracks(*final(smf)) == with_event(
            smf_tracks(*old(smf)),
            seq![delta as int, 0, mpq as int],
        ),
{
    let kind = midly::TrackEventKind::Meta(midly::MetaMessage::Tempo(midly::num::u24::new(mpq)));
    let delta = midly::num::u28::new(delta);
    smf.tracks.last_mut().unwrap().push(midly::TrackEvent { delta, kind });
}

/// One more `midly::TrackEvent` at the end of the last track: the meta
/// event `MetaMessage::TimeSignature`, which takes four bytes.
#[verifier::external_body]
fn smf_push_time_signature(smf: &mut midly::Smf<'static>, delta: u32, a: u8, b: u8, c: u8, d: u8)
    requires
        smf_tracks(*old(smf)).len() > 0,
        delta <= 0x0FFF_FFFF,
    ensures
        smf_tpq(*final(smf)) == smf_tpq(*old(smf)),
        smf_tracks(*final(smf)) == with_event(
            smf_tracks(*old(smf)),
            seq![delta as int, 1, a as int, b as int, c as int, d as int],
        ),
{
    let kind = midly::TrackEventKind::Meta(midly::MetaMessage::TimeSignature(a, b, c, d));
    let delta = midly::num::u28::new(delta);
    smf.tracks.last_mut().unwrap().push(midly::TrackEvent { delta, kind });
}

/// One more `midly::TrackEvent` at the end of the last track: the channel
/// message `MidiMessage::Controller`. `u4::new` and `u7::new` keep numbers
/// within their 4 and 7 bits as they are.
#[verifier::external_body]
fn smf_push_controller(smf: &mut midly::Smf<'static>, delta: u32, channel: u8, controller: u8, value: u8)
    requires
        smf_tracks(*old(smf)).len() > 0,
        delta <= 0x0FFF_FFFF,
        channel <= 15,
        controller <= 127,
        value <= 127,
    ensures
        smf_tpq(*final(smf)) == smf_tpq(*old(smf)),
        smf_tracks(*final(smf)) == with_event(
            smf_tracks(*old(smf)),
            seq![delta as int, 2, channel as int, controller as int, value as int],
        ),
{
    let (controller, value) = (midly::num::u7::new(controller), midly::num::u7::new(value));
    let message = midly::MidiMessage::Controller { controller, value };
    let kind = midly::TrackEventKind::Midi { channel: midly::num::u4::new(channel), message };
    let delta = midly::num::u28::new(delta);
    smf.tracks.last_mut().unwrap().push(midly::TrackEvent { delta, kind });
}

/// One more `midly::TrackEvent` at the end of the last track: the channel
/// message `MidiMessage::PitchBend`, with the bend as `midly` holds it,
/// from 0 to 16383. `u14::new` keeps a number within 14 bits as it is.
#[verifier::external_body]
fn smf_push_pitch_bend(smf: &mut midly::Smf<'static>, delta: u32, channel: u8, bend: u16)
    requires
        smf_tracks(*old(smf)).len() > 0,
        delta <= 0x0FFF_FFFF,
        channel <= 15,
        bend <= 0x3FFF,
    ensures
        smf_tpq(*final(smf)) == smf_tpq(*old(smf)),
        smf_tracks(*final(smf)) == with_event(
            smf_tracks(*old(smf)),
            seq![delta as int, 3, channel as int, bend as int],
        ),
{
    let bend = midly::PitchBend(midly::num::u14::new(bend));
    let message = midly::MidiMessage::PitchBend { bend };
    let kind = midly::TrackEventKind::Midi { channel: midly::num::u4::new(channel), message };
    let delta = midly::num::u28::new(delta);
    smf.tracks.last_mut().unwrap().push(midly::TrackEvent { delta, kind });
}

/// One more `midly::TrackEvent` at the end of the last track: the channel
/// message `MidiMessage::NoteOn`.
#[verifier::external_body]
fn smf_push_note_on(smf: &mut midly::Smf<'static>, delta: u32, channel: u8, key: u8, vel: u8)
    requires
        smf_tracks(*old(smf)).len() > 0,
        delta <= 0x0FFF_FFFF,
        channel <= 15,
        key <= 127,
        vel <= 127,
    ensures
        smf_tpq(*final(smf)) == smf_tpq(*old(smf)),
        smf_tracks(*final(smf)) == with_event(
            smf_tracks(*old(smf)),
            seq![delta as int, 4, channel as int, key as int, vel as int],
        ),
{
    let (key, vel) = (midly::num::u7::new(key), midly::num::u7::new(vel));
    let message = midly::MidiMessage::NoteOn { key, vel };
    let kind = midly::TrackEventKind::Midi { channel: midly::num::u4::new(channel), message };
    let delta = midly::num::u28::new(delta);
    smf.tracks.last_mut().unwrap().push(midly::TrackEvent { delta, kind });
}

/// One more `midly::TrackEvent` at the end of the last track: the channel
/// message `MidiMessage::NoteOff`.
#[verifier::external_body]
fn smf_push_note_off(smf: &mut midly::Smf<'static>, delta: u32, channel: u8, key: u8, vel: u8)
    requires
        smf_tracks(*old(smf)).len() > 0,
        delta <= 0x0FFF_FFFF,
        channel <= 15,
        key <= 127,
        vel <= 127,
    ensures
        smf_tpq(*final(smf)) == smf_tpq(*old(smf)),
        smf_tracks(*final(smf)) == with_event(
            smf_tracks(*old(smf)),
            seq![delta as int, 5, channel as int, key as int, vel as int],
        ),
{
    let (key, vel) = (midly::num::u7::new(key), midly::num::u7::new(vel));
    let message = midly::MidiMessage::NoteOff { key, vel };
    let kind = midly::TrackEventKind::Midi { channel: midly::num::u4::new(channel), message };
    let delta = midly::num::u28::new(delta);
    smf.tracks.last_mut().unwrap().push(midly::TrackEvent { delta, kind });
}

/// One more `midly::TrackEvent` at the end of the last track: the meta
/// event `MetaMessage::EndOfTrack`.
#[verifier::external_body]
fn smf_push_end_of_track(smf: &mut midly::Smf<'static>, delta: u32)
    requires
        smf_tracks(*old(smf)).len() > 0,
        delta <= 0x0FFF_FFFF,
    ensures
        smf_tpq(*final(smf)) == smf_tpq(*old(smf)),
        smf_tracks(*final(smf)) == with_event(smf_tracks(*old(smf)), seq![delta as int, 6]),
{
    let kind = midly::TrackEventKind::Meta(midly::MetaMessage::EndOfTrack);
    let delta = midly::num::u28::new(delta);
    smf.tracks.last_mut().unwrap().push(midly::TrackEvent { delta, kind });
}

/// `midly::Smf::write_std` into a vector of bytes. The bytes depend on the
/// header and the tracks alone. `midly` says that its writer fails only
/// where the writer below it fails, which a vector does not, or where there
/// are more than 65535 tracks, an event of 256 MB or more, or a track of
/// 4 GB or more. An event of the seven kinds takes no more than 11 bytes,
/// so that a track of up to 2^28 - 1 of them stays below 4 GB.
#[verifier::external_body]
fn smf_write(smf: &midly::Smf<'static>) -> (r: Result<Vec<u8>, std::io::Error>)
    ensures
        r matches Ok(bytes) ==> bytes@ == smf_bytes(smf_tpq(*smf), smf_tracks(*smf)),
        writable(smf_tracks(*smf)) ==> r is Ok,
{
    let mut buffer = Vec::new();
    match smf.write_std(&mut buffer) {
        Ok(()) => Ok(buffer),
        Err(e) => Err(e),
    }
}

/// A MIDI file can say the event: its delta time fits 28 bits, its channel
/// 4 bits, its bend 14 bits, its tempo 24 bits, and its other numbers 7
/// bits.
pub open spec fn sayable(e: TrackEvent) -> bool {
    e.delta <= 0x0FFF_FFFF && says(e.kind)
}

pub fn can_say(e: &TrackEvent) -> (b: bool)
    ensures
        b == sayable(*e),
{
    e.delta <= 0x0FFF_FFFF && match e.kind {
        MidiEvent::Tempo(mpq) => mpq <= 0xFF_FFFF,
        MidiEvent::TimeSignature(_, _, _, _) => true,
        MidiEvent::Controller { channel, controller, value } => channel <= 15 && controller <= 127
            && value <= 127,
        MidiEvent::PitchBend { channel, bend } => channel <= 15 && bend <= 0x3FFF,
        MidiEvent::NoteOn { channel, key, vel } => channel <= 15 && key <= 127 && vel <= 127,
        MidiEvent::NoteOff { channel, key, vel } => channel <= 15 && key <= 127 && vel <= 127,
        MidiEvent::EndOfTrack => true,
    }
}

/// What the tracks of a list hold.
pub open spec fn track_views(tracks: Seq<Vec<TrackEvent>>) -> Seq<Seq<TrackEvent>> {
    tracks.map_values(|t: Vec<TrackEvent>| t@)
}

/// The tracks as numbers.
pub open spec fn wires(tracks: Seq<Seq<TrackEvent>>) -> Seq<Seq<Seq<int>>> {
    Seq::new(tracks.len(), |t: int| Seq::new(tracks[t].len(), |i: int| wire(tracks[t][i])))
}

/// Every event of the tracks is one that a MIDI file can say.
pub open spec fn all_sayable(tracks: Seq<Seq<TrackEvent>>) -> bool {
    forall|t: int, i: int|
        0 <= t < tracks.len() && 0 <= i < tracks[t].len() ==> sayable(#[trigger] tracks[t][i])
}

/// What the export gives for what the writer of the file gave: the bytes,
/// or that the file could not be written.
pub fn written(result: Result<Vec<u8>, std::io::Error>) -> (r: Result<Vec<u8>, ExportError>)
    ensures
        r == match result {
            Ok(bytes) => Ok::<Vec<u8>, ExportError>(bytes),
            Err(_) => Err(ExportError::WriteFailed),
        },
{
    match result {
        Ok(bytes) => Ok(bytes),
        Err(_) => Err(ExportError::WriteFailed),
    }
}

fn push_event(smf: &mut midly::Smf<'static>, e: &TrackEvent)
    requires
        smf_tracks(*old(smf)).len() > 0,
        sayable(*e),
    ensures
        smf_tpq(*final(smf)) == smf_tpq(*old(smf)),
        smf_tracks(*final(smf)) == with_event(smf_tracks(*old(smf)), wire(*e)),
{
    match e.kind {
        MidiEvent::Tempo(mpq) => smf_push_tempo(smf, e.delta, mpq),
        MidiEvent::TimeSignature(a, b, c, d) => smf_push_time_signature(smf, e.delta, a, b, c, d),
        MidiEvent::Controller { channel, controller, value } => smf_push_controller(
            smf,
            e.delta,
            channel,
            controller,
            value,
        ),
        MidiEvent::PitchBend { channel, bend } => smf_push_pitch_bend(smf, e.delta, channel, bend),
        MidiEvent::NoteOn { channel, key, vel } => smf_push_note_on(smf, e.delta, channel, key, vel),
        MidiEvent::NoteOff { channel, key, vel } => smf_push_note_off(
            smf,
            e.delta,
            channel,
            key,
            vel,
        ),
        MidiEvent::EndOfTrack => smf_push_end_of_track(smf, e.delta),
    }
}

/// The bytes of a MIDI file of format 1 with the tracks `tracks`. An event
/// that a MIDI file cannot say is an error, and so is a failure to write,
/// which there is none for a file of no more than 65535 tracks of no more
/// than 2^28 - 1 events each.
pub fn write_tracks(tpq: u16, tracks: &Vec<Vec<TrackEvent>>) -> (r: Result<Vec<u8>, ExportError>)
    requires
        tpq <= 0x7FFF,
    ensures
        r matches Ok(bytes) ==> all_sayable(track_views(tracks@)) && bytes@ == smf_bytes(
            tpq as int,
            wires(track_views(tracks@)),
        ),
        r == Err::<Vec<u8>, ExportError>(ExportError::EventOutOfRange) <==> !all_sayable(track_views(tracks@)),
        r is Err ==> r == Err::<Vec<u8>, ExportError>(ExportError::EventOutOfRange) || r == Err::<
            Vec<u8>,
            ExportError,
        >(ExportError::WriteFailed),
        all_sayable(track_views(tracks@)) && tracks@.len() <= 0xFFFF && (forall|t: int|
            0 <= t < tracks@.len() ==> (#[trigger] tracks@[t])@.len() <= 0x0FFF_FFFF) ==> r is Ok,
{
    let mut smf = smf_new(tpq);
    let mut t: usize = 0;
    while t < tracks.len()
        invariant
            0 <= t <= tracks@.len(),
            smf_tpq(smf) == tpq,
            smf_tracks(smf).len() == t,
            forall|u: int, i: int|
                0 <= u < t && 0 <= i < tracks@[u]@.len() ==> sayable(#[trigger] tracks@[u]@[i]),
            forall|u: int| 0 <= u < t ==> #[trigger] smf_tracks(smf)[u] == wires(track_views(tracks@))[u],
        decreases tracks@.len() - t,
    {
        let track = &tracks[t];
        let ghost base = smf_tracks(smf);
        smf_start_track(&mut smf);
        let mut i: usize = 0;
        while i < track.len()
            invariant
                0 <= i <= track@.len(),
                t < tracks@.len(),
                *track == tracks@[t as int],
                smf_tpq(smf) == tpq,
                smf_tracks(smf).len() == t + 1,
                base.len() == t,
                forall|u: int| 0 <= u < t ==> #[trigger] smf_tracks(smf)[u] == base[u],
                smf_tracks(smf)[t as int].len() == i,
                forall|j: int| 0 <= j < i ==> sayable(#[trigger] track@[j]),
                forall|j: int|
                    0 <= j < i ==> #[trigger] smf_tracks(smf)[t as int][j] == wire(track@[j]),
            decreases track@.len() - i,
        {
            if !can_say(&track[i]) {
                proof {
                    assert(track_views(tracks@)[t as int][i as int] == track@[i as int]);
                }
                return Err(ExportError::EventOutOfRange);
            }
            push_event(&mut smf, &track[i]);
            i += 1;
        }
        proof {
            assert(smf_tracks(smf)[t as int] =~= wires(track_views(tracks@))[t as int]);
        }
        t += 1;
    }
    proof {
        assert(smf_tracks(smf) =~= wires(track_views(tracks@)));
        if tracks@.len() <= 0xFFFF && (forall|t: int|
            0 <= t < tracks@.len() ==> (#[trigger] tracks@[t])@.len() <= 0x0FFF_FFFF) {
            let held = wires(track_views(tracks@));
            assert forall|t: int| 0 <= t < held.len() implies (#[trigger] held[t]).len()
                <= 0x0FFF_FFFF by {
                assert(track_views(tracks@)[t] == tracks@[t]@);
            }
            assert forall|t: int, i: int|
                0 <= t < held.len() && 0 <= i < held[t].len() implies of_a_kind(
                #[trigger] held[t][i],
            ) by {
                assert(held[t][i] == wire(track_views(tracks@)[t][i]));
            }
            assert(writable(smf_tracks(smf)));
        }
    }
    written(smf_write(&smf))
}

} // verus!
