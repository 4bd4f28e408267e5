//! The events of a track: what happens at which tick, and then how many
//! ticks after the event before.

use super::layout::{group_fits, note_fits, GroupView, NoteGroup, NoteSpec, TrackLayout};
use super::tempo::{
    is_order, order_of, seconds_to_tick, sorted_order, tick_at, MetaPoint, TempoPoint,
};
use vstd::prelude::*;

verus! {

/// What a MIDI event says.
#[derive(Debug, Clone, Copy, PartialEq, Eq, Structural)]
pub enum MidiEvent {
    /// Microseconds per quarter.
    Tempo(u32),
    /// The upper number, the power of two of the lower number, the MIDI
    /// clocks per click and the 32nd notes per quarter.
    TimeSignature(u8, u8, u8, u8),
    Controller { channel: u8, controller: u8, value: u8 },
    PitchBend { channel: u8, bend: u16 },
    NoteOn { channel: u8, key: u8, vel: u8 },
    NoteOff { channel: u8, key: u8, vel: u8 },
    EndOfTrack,
}

/// An event at a tick. Of events at one tick, the one of lower priority
/// comes first.
#[derive(Debug, Clone, Copy, PartialEq, Eq, Structural)]
pub struct AbsEvent {
    pub tick: u64,
    pub priority: u8,
    pub kind: MidiEvent,
}

/// An event with the ticks that pass between the event before and it.
#[derive(Debug, Clone, Copy, PartialEq, Eq, Structural)]
pub struct TrackEvent {
    pub delta: u32,
    pub kind: MidiEvent,
}

/// A MIDI file can say what the event says: its channel fits 4 bits, its
/// bend 14 bits, its tempo 24 bits, and its other numbers 7 bits.
pub open spec fn says(kind: MidiEvent) -> bool {
    match kind {
        MidiEvent::Tempo(mpq) => mpq <= 0xFF_FFFF,
        MidiEvent::TimeSignature(_, _, _, _) => true,
        MidiEvent::Controller { channel, controller, value } => channel <= 15 && controller <= 127
            && value <= 127,
        MidiEvent::PitchBend { channel, bend } => channel <= 15 && bend <= 0x3FFF,
        MidiEvent::NoteOn { channel, key, vel } => channel <= 15 && key <= 127 && vel <= 127,
        MidiEvent::NoteOff { channel, key, vel } => channel <= 15 && key <= 127 && vel <= 127,
        MidiEvent::EndOfTrack => true,
    }
}

/// The keys by which the events of a track are put in order: the tick,
/// then the priority.
pub open spec fn event_keys(events: Seq<AbsEvent>) -> Seq<(i64, i64)> {
    Seq::new(
        events.len(),
        |i: int| ((events[i].tick - 0x8000_0000_0000_0000) as i64, events[i].priority as i64),
    )
}

/// The ticks between two events of a track, as far as a MIDI file can say
/// them.
pub open spec fn delta_of(tick: int, before: int) -> int {
    if tick - before > 0x0FFF_FFFF {
        0x0FFF_FFFF
    } else if tick < before {
        0
    } else {
        tick - before
    }
}

/// What the events `events` make as a track: the events in the order of
/// their ticks, those at one tick in the order of their priorities, and
/// those of one tick and priority in the order they have; each with the
/// ticks since the event before; and the end of the track behind them.
pub open spec fn as_track(events: Seq<AbsEvent>) -> Seq<TrackEvent> {
    let order = order_of(event_keys(events));
    Seq::new(
        events.len() + 1,
        |i: int|
            if i < events.len() {
                TrackEvent {
                    delta: delta_of(
                        events[order[i] as int].tick as int,
                        if i > 0 {
                            events[order[i - 1] as int].tick as int
                        } else {
                            0
                        },
                    ) as u32,
                    kind: events[order[i] as int].kind,
                }
            } else {
                TrackEvent { delta: 0, kind: MidiEvent::EndOfTrack }
            },
    )
}

/// The events as a track.
pub fn to_delta_track(abs_events: Vec<AbsEvent>) -> (out: Vec<TrackEvent>)
    ensures
        out@ == as_track(abs_events@),
        forall|i: int| 0 <= i < out@.len() ==> (#[trigger] out@[i]).delta <= 0x0FFF_FFFF,
        (forall|i: int| 0 <= i < abs_events@.len() ==> says((#[trigger] abs_events@[i]).kind))
            ==> forall|i: int| 0 <= i < out@.len() ==> says((#[trigger] out@[i]).kind),
{
    let mut keys: Vec<(i64, i64)> = Vec::new();
    let mut i: usize = 0;
    while i < abs_events.len()
        invariant
            0 <= i <= abs_events@.len(),
            keys@.len() == i,
            forall|j: int| 0 <= j < i ==> #[trigger] keys@[j] == event_keys(abs_events@)[j],
        decreases abs_events@.len() - i,
    {
        let e = abs_events[i];
        keys.push(((e.tick as i128 - 0x8000_0000_0000_0000) as i64, e.priority as i64));
        i += 1;
    }
    proof {
        assert(keys@ =~= event_keys(abs_events@));
    }
    let order = sorted_order(&keys);
    let mut out: Vec<TrackEvent> = Vec::new();
    let mut cursor: u64 = 0;
    let mut k: usize = 0;
    while k < order.len()
        invariant
            0 <= k <= order@.len(),
            is_order(event_keys(abs_events@), order@),
            order@ == order_of(event_keys(abs_events@)),
            out@.len() == k,
            cursor == if k > 0 {
                abs_events@[order@[k - 1] as int].tick
            } else {
                0
            },
            forall|i: int|
                0 <= i < k ==> (#[trigger] out@[i]).kind == abs_events@[order@[i] as int].kind
                    && out@[i].delta <= 0x0FFF_FFFF && out@[i].delta == delta_of(
                    abs_events@[order@[i] as int].tick as int,
                    if i > 0 {
                        abs_events@[order@[i - 1] as int].tick as int
                    } else {
                        0
                    },
                ),
        decreases order@.len() - k,
    {
        let event = abs_events[order[k]];
        let passed: u64 = if event.tick >= cursor {
            event.tick - cursor
        } else {
            0
        };
        let delta: u32 = if passed > 0x0FFF_FFFF {
            0x0FFF_FFFF
        } else {
            passed as u32
        };
        out.push(TrackEvent { delta, kind: event.kind });
        cursor = event.tick;
        k += 1;
    }
    out.push(TrackEvent { delta: 0, kind: MidiEvent::EndOfTrack });
    proof {
        assert(out@ =~= as_track(abs_events@));
        if forall|i: int| 0 <= i < abs_events@.len() ==> says((#[trigger] abs_events@[i]).kind) {
            assert forall|i: int| 0 <= i < out@.len() implies says((#[trigger] out@[i]).kind) by {
                if i < abs_events@.len() {
                    assert(out@[i].kind == abs_events@[order@[i] as int].kind);
                }
            }
        }
    }
    out
}

/// The power of two that `d` is, for a power of two; for another number,
/// how often it can be halved before it is odd or one.
pub open spec fn power_of(d: int) -> int
    decreases d,
{
    if d > 1 && d % 2 == 0 {
        1 + power_of(d / 2)
    } else {
        0
    }
}

pub fn power_of_two(d: u8) -> (p: u8)
    ensures
        p == power_of(d as int),
        p <= 8,
{
    let mut x = d;
    let mut p: u8 = 0;
    while x > 1 && x % 2 == 0
        invariant
            p + power_of(x as int) == power_of(d as int),
            p <= 8,
            (x as int) * pow2(p as int) <= 255,
        decreases x,
    {
        proof {
            assert(((x / 2) as int) * pow2(p + 1) <= 255) by (nonlinear_arith)
                requires
                    (x as int) * pow2(p as int) <= 255,
                    x % 2 == 0,
                    pow2(p + 1) == 2 * pow2(p as int),
                    x >= 0,
            ;
            if p >= 8 {
                lemma_pow2_8(p as int);
                assert(false) by (nonlinear_arith)
                    requires
                        (x as int) * pow2(p as int) <= 255,
                        pow2(p as int) >= 256,
                        x > 1,
                ;
            }
        }
        x = x / 2;
        p = p + 1;
    }
    p
}

pub open spec fn pow2(k: int) -> int
    decreases k,
{
    if k <= 0 {
        1
    } else {
        2 * pow2(k - 1)
    }
}

proof fn lemma_pow2_8(k: int)
    requires
        k >= 8,
    ensures
        pow2(k) >= 256,
    decreases k,
{
    reveal_with_fuel(pow2, 9);
    if k > 8 {
        lemma_pow2_8(k - 1);
    }
}

/// The events of the first track: the tempo at each tempo point, and each
/// time signature, at the ticks of their times.
pub open spec fn meta_events(points: Seq<TempoPoint>, signatures: Seq<MetaPoint>, tpq: int) -> Seq<
    AbsEvent,
> {
    Seq::new(
        points.len() + signatures.len(),
        |i: int|
            if i < points.len() {
                AbsEvent {
                    tick: tick_at(points, tpq, points[i].nanos as int) as u64,
                    priority: 0,
                    kind: MidiEvent::Tempo(points[i].mpq),
                }
            } else {
                let s = signatures[i - points.len()];
                AbsEvent {
                    tick: tick_at(points, tpq, s.nanos as int) as u64,
                    priority: 1,
                    kind: MidiEvent::TimeSignature(
                        s.numerator,
                        power_of(s.denominator as int) as u8,
                        24,
                        8,
                    ),
                }
            },
    )
}

/// The first track of the file: tempos and time signatures.
pub fn build_meta_track(
    tempo_points: &Vec<TempoPoint>,
    time_signatures: &Vec<MetaPoint>,
    tpq: u16,
) -> (track: Vec<TrackEvent>)
    requires
        forall|i: int| 0 <= i < tempo_points@.len() ==> (#[trigger] tempo_points@[i]).mpq >= 1,
    ensures
        track@ == as_track(meta_events(tempo_points@, time_signatures@, tpq as int)),
        forall|i: int| 0 <= i < track@.len() ==> (#[trigger] track@[i]).delta <= 0x0FFF_FFFF,
        (forall|i: int|
            0 <= i < tempo_points@.len() ==> (#[trigger] tempo_points@[i]).mpq <= 0xFF_FFFF)
            ==> forall|i: int| 0 <= i < track@.len() ==> says((#[trigger] track@[i]).kind),
{
    let mut abs_events: Vec<AbsEvent> = Vec::new();
    let ghost want = meta_events(tempo_points@, time_signatures@, tpq as int);
    let mut i: usize = 0;
    while i < tempo_points.len()
        invariant
            0 <= i <= tempo_points@.len(),
            forall|j: int| 0 <= j < tempo_points@.len() ==> (#[trigger] tempo_points@[j]).mpq >= 1,
            want == meta_events(tempo_points@, time_signatures@, tpq as int),
            abs_events@.len() == i,
            forall|j: int| 0 <= j < i ==> #[trigger] abs_events@[j] == want[j],
        decreases tempo_points@.len() - i,
    {
        let tempo = tempo_points[i];
        let tick = seconds_to_tick(tempo.nanos, tempo_points, tpq);
        abs_events.push(AbsEvent { tick, priority: 0, kind: MidiEvent::Tempo(tempo.mpq) });
        i += 1;
    }
    let mut i: usize = 0;
    while i < time_signatures.len()
        invariant
            0 <= i <= time_signatures@.len(),
            forall|j: int| 0 <= j < tempo_points@.len() ==> (#[trigger] tempo_points@[j]).mpq >= 1,
            want == meta_events(tempo_points@, time_signatures@, tpq as int),
            abs_events@.len() == tempo_points@.len() + i,
            forall|j: int| 0 <= j < abs_events@.len() ==> #[trigger] abs_events@[j] == want[j],
        decreases time_signatures@.len() - i,
    {
        let sig = time_signatures[i];
        let tick = seconds_to_tick(sig.nanos, tempo_points, tpq);
        abs_events.push(
            AbsEvent {
                tick,
                priority: 1,
                kind: MidiEvent::TimeSignature(
                    sig.numerator,
                    power_of_two(sig.denominator),
                    24,
                    8,
                ),
            },
        );
        i += 1;
    }
    proof {
        assert(abs_events@ =~= want);
        if forall|i: int|
            0 <= i < tempo_points@.len() ==> (#[trigger] tempo_points@[i]).mpq <= 0xFF_FFFF {
            assert forall|i: int| 0 <= i < abs_events@.len() implies says(
                (#[trigger] abs_events@[i]).kind,
            ) by {
                assert(abs_events@[i] == want[i]);
            }
        }
    }
    to_delta_track(abs_events)
}

/// The four controller events that set the range of the pitch bend of a
/// channel: the registered parameter 0, its value in semitones, held to
/// 127, and no cents.
pub open spec fn bend_setup(channel: u8, bend_range: u16) -> Seq<AbsEvent> {
    let coarse = if bend_range > 127 {
        127u8
    } else {
        bend_range as u8
    };
    seq![
        AbsEvent {
            tick: 0,
            priority: 0,
            kind: MidiEvent::Controller { channel, controller: 101, value: 0 },
        },
        AbsEvent {
            tick: 0,
            priority: 0,
            kind: MidiEvent::Controller { channel, controller: 100, value: 0 },
        },
        AbsEvent {
            tick: 0,
            priority: 0,
            kind: MidiEvent::Controller { channel, controller: 6, value: coarse },
        },
        AbsEvent {
            tick: 0,
            priority: 0,
            kind: MidiEvent::Controller { channel, controller: 38, value: 0 },
        },
    ]
}

pub fn append_rpn_pitch_bend_setup(abs_events: &mut Vec<AbsEvent>, channel: u8, bend_range: u16)
    ensures
        final(abs_events)@ == old(abs_events)@ + bend_setup(channel, bend_range),
{
    let coarse: u8 = if bend_range > 127 {
        127
    } else {
        bend_range as u8
    };
    abs_events.push(
        AbsEvent {
            tick: 0,
            priority: 0,
            kind: MidiEvent::Controller { channel, controller: 101, value: 0 },
        },
    );
    abs_events.push(
        AbsEvent {
            tick: 0,
            priority: 0,
            kind: MidiEvent::Controller { channel, controller: 100, value: 0 },
        },
    );
    abs_events.push(
        AbsEvent {
            tick: 0,
            priority: 0,
            kind: MidiEvent::Controller { channel, controller: 6, value: coarse },
        },
    );
    abs_events.push(
        AbsEvent {
            tick: 0,
            priority: 0,
            kind: MidiEvent::Controller { channel, controller: 38, value: 0 },
        },
    );
    assert(abs_events@ =~= old(abs_events)@ + bend_setup(channel, bend_range));
}

/// The tick at which a note is switched off: where it ends, and at least
/// one tick after it starts.
pub open spec fn off_tick(start_tick: int, end_tick: int) -> int {
    let least = if start_tick + 1 > u64::MAX {
        u64::MAX as int
    } else {
        start_tick + 1
    };
    if end_tick > least {
        end_tick
    } else {
        least
    }
}

/// The events of a group: its pitch bend, and each of its notes switched
/// on, all three at the tick where the group starts, and each note
/// switched off where it ends.
pub open spec fn group_events(
    g: GroupView,
    channel: u8,
    points: Seq<TempoPoint>,
    tpq: int,
) -> Seq<AbsEvent> {
    let start_tick = tick_at(points, tpq, g.start_nanos as int);
    Seq::new(
        1 + 2 * g.notes.len(),
        |i: int|
            if i == 0 {
                AbsEvent {
                    tick: start_tick as u64,
                    priority: 1,
                    kind: MidiEvent::PitchBend { channel, bend: g.bend14 },
                }
            } else {
                let n = g.notes[(i - 1) / 2];
                if (i - 1) % 2 == 0 {
                    AbsEvent {
                        tick: start_tick as u64,
                        priority: 2,
                        kind: MidiEvent::NoteOn { channel, key: n.midi_key, vel: 100 },
                    }
                } else {
                    AbsEvent {
                        tick: off_tick(start_tick, tick_at(points, tpq, n.end_nanos as int)) as u64,
                        priority: 0,
                        kind: MidiEvent::NoteOff { channel, key: n.midi_key, vel: 0 },
                    }
                }
            },
    )
}

/// The events of the first `k` groups of a track, behind the setup of the
/// pitch bend.
pub open spec fn note_events(
    layout: Seq<GroupView>,
    channel: u8,
    bend_range: u16,
    points: Seq<TempoPoint>,
    tpq: int,
    k: int,
) -> Seq<AbsEvent>
    decreases k,
{
    if k <= 0 {
        bend_setup(channel, bend_range)
    } else {
        note_events(layout, channel, bend_range, points, tpq, k - 1) + group_events(
            layout[k - 1],
            channel,
            points,
            tpq,
        )
    }
}

/// A track of notes: the setup of the pitch bend, and the events of its
/// groups.
pub fn build_note_track(
    layout: &TrackLayout,
    channel: u8,
    bend_range: u16,
    tempo_points: &Vec<TempoPoint>,
    tpq: u16,
) -> (track: Vec<TrackEvent>)
    requires
        forall|i: int| 0 <= i < tempo_points@.len() ==> (#[trigger] tempo_points@[i]).mpq >= 1,
    ensures
        channel <= 15 && (forall|g: int|
            0 <= g < layout@.len() ==> group_fits(#[trigger] layout@[g])) ==> forall|i: int|
            0 <= i < track@.len() ==> says((#[trigger] track@[i]).kind),
        track@ == as_track(
            note_events(
                layout@,
                channel,
                bend_range,
                tempo_points@,
                tpq as int,
                layout.groups@.len() as int,
            ),
        ),
        forall|i: int| 0 <= i < track@.len() ==> (#[trigger] track@[i]).delta <= 0x0FFF_FFFF,
{
    let mut abs_events: Vec<AbsEvent> = Vec::new();
    append_rpn_pitch_bend_setup(&mut abs_events, channel, bend_range);
    proof {
        assert(abs_events@ =~= bend_setup(channel, bend_range));
    }
    let ghost fits = channel <= 15 && (forall|g: int|
        0 <= g < layout@.len() ==> group_fits(#[trigger] layout@[g]));
    let mut k: usize = 0;
    while k < layout.groups.len()
        invariant
            0 <= k <= layout.groups@.len(),
            fits == (channel <= 15 && (forall|g: int|
                0 <= g < layout@.len() ==> group_fits(#[trigger] layout@[g]))),
            fits ==> forall|i: int| 0 <= i < abs_events@.len() ==> says(
                (#[trigger] abs_events@[i]).kind,
            ),
            forall|i: int| 0 <= i < tempo_points@.len() ==> (#[trigger] tempo_points@[i]).mpq >= 1,
            abs_events@ == note_events(
                layout@,
                channel,
                bend_range,
                tempo_points@,
                tpq as int,
                k as int,
            ),
        decreases layout.groups@.len() - k,
    {
        let group = &layout.groups[k];
        let ghost seen = abs_events@;
        let ghost want = group_events(group@, channel, tempo_points@, tpq as int);
        let start_tick = seconds_to_tick(group.start_nanos, tempo_points, tpq);
        abs_events.push(
            AbsEvent {
                tick: start_tick,
                priority: 1,
                kind: MidiEvent::PitchBend { channel, bend: group.bend14 },
            },
        );
        let mut i: usize = 0;
        while i < group.notes.len()
            invariant
                0 <= i <= group.notes@.len(),
                forall|j: int|
                    0 <= j < tempo_points@.len() ==> (#[trigger] tempo_points@[j]).mpq >= 1,
                want == group_events(group@, channel, tempo_points@, tpq as int),
                start_tick == tick_at(tempo_points@, tpq as int, group.start_nanos as int),
                abs_events@.len() == seen.len() + 1 + 2 * i,
                forall|j: int| 0 <= j < seen.len() ==> #[trigger] abs_events@[j] == seen[j],
                forall|j: int|
                    0 <= j < 1 + 2 * i ==> #[trigger] abs_events@[seen.len() + j] == want[j],
            decreases group.notes@.len() - i,
        {
            let note = group.notes[i];
            abs_events.push(
                AbsEvent {
                    tick: start_tick,
                    priority: 2,
                    kind: MidiEvent::NoteOn { channel, key: note.midi_key, vel: 100 },
                },
            );
            let end = seconds_to_tick(note.end_nanos, tempo_points, tpq);
            let least: u64 = if start_tick == 0xFFFF_FFFF_FFFF_FFFF {
                start_tick
            } else {
                start_tick + 1
            };
            let end_tick = if end > least {
                end
            } else {
                least
            };
            abs_events.push(
                AbsEvent {
                    tick: end_tick,
                    priority: 0,
                    kind: MidiEvent::NoteOff { channel, key: note.midi_key, vel: 0 },
                },
            );
            proof {
                let a = 1 + 2 * i as int;
                assert((a - 1) / 2 == i && (a - 1) % 2 == 0);
                assert((a + 1 - 1) / 2 == i && (a + 1 - 1) % 2 == 1);
            }
            i += 1;
        }
        proof {
            assert forall|x: int| seen.len() <= x < abs_events@.len() implies abs_events@[x]
                == want[x - seen.len()] by {
                let j = x - seen.len();
                assert(abs_events@[seen.len() + j] == want[j]);
            }
            assert(abs_events@ =~= seen + want);
            if fits {
                assert(group_fits(layout@[k as int]));
                assert(layout@[k as int] == group@);
                assert forall|x: int| 0 <= x < abs_events@.len() implies says(
                    (#[trigger] abs_events@[x]).kind,
                ) by {
                    if x >= seen.len() {
                        let j = x - seen.len();
                        assert(abs_events@[x] == want[j]);
                        if j > 0 {
                            assert(note_fits(group@.notes[(j - 1) / 2]));
                        }
                    } else {
                        assert(abs_events@[x] == seen[x]);
                    }
                }
            }
        }
        k += 1;
    }
    to_delta_track(abs_events)
}

} // verus!
