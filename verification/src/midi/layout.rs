//! The layout of notes on tracks: notes that start together and lie close
//! in pitch share a pitch bend, and each track sounds one such group at a
//! time.

use super::tempo::{before, is_order, names, order_of, sorted_order};
use super::writer::{
    bend14_to_signed, bend_signed, bend_unsigned, freq_to_key_and_bend, held, round_div, rounded,
    signed_to_bend14, ExportError,
};
use crate::compiler::types::{CompileEvent, EventBody};
use vstd::prelude::*;

verus! {

/// A note as the encoder sees it: when it sounds, its key, and the pitch
/// bend that takes the key to its pitch.
#[derive(Debug, Clone, Copy, PartialEq, Eq, Structural)]
pub struct NoteSpec {
    pub start_nanos: i64,
    pub end_nanos: i64,
    pub midi_key: u8,
    pub bend14: u16,
    /// The distance of the pitch from the key, in millionths of a cent.
    pub bend_cents: i64,
}

/// Notes that start together and share a pitch bend.
#[derive(Debug)]
pub struct NoteGroup {
    pub start_nanos: i64,
    pub end_nanos: i64,
    pub bend14: u16,
    pub bend_cents: i64,
    pub notes: Vec<NoteSpec>,
}

/// The groups of one track, in the order in which they sound.
#[derive(Debug)]
pub struct TrackLayout {
    pub groups: Vec<NoteGroup>,
}

/// What a group holds.
pub struct GroupView {
    pub start_nanos: i64,
    pub end_nanos: i64,
    pub bend14: u16,
    pub bend_cents: i64,
    pub notes: Seq<NoteSpec>,
}

impl View for NoteGroup {
    type V = GroupView;

    open spec fn view(&self) -> GroupView {
        GroupView {
            start_nanos: self.start_nanos,
            end_nanos: self.end_nanos,
            bend14: self.bend14,
            bend_cents: self.bend_cents,
            notes: self.notes@,
        }
    }
}

/// What the groups of a list hold.
pub open spec fn group_views(groups: Seq<NoteGroup>) -> Seq<GroupView> {
    groups.map_values(|g: NoteGroup| g@)
}

impl View for TrackLayout {
    type V = Seq<GroupView>;

    open spec fn view(&self) -> Seq<GroupView> {
        group_views(self.groups@)
    }
}

/// What the tracks of a list hold.
pub open spec fn layout_views(tracks: Seq<TrackLayout>) -> Seq<Seq<GroupView>> {
    tracks.map_values(|t: TrackLayout| t@)
}

/// A MIDI file can say the note: its key fits 7 bits and its pitch bend
/// 14 bits.
pub open spec fn note_fits(n: NoteSpec) -> bool {
    n.midi_key <= 127 && n.bend14 <= 0x3FFF
}

/// A MIDI file can say the group: its pitch bend fits 14 bits, and it can
/// say each of its notes.
pub open spec fn group_fits(g: GroupView) -> bool {
    g.bend14 <= 0x3FFF && forall|i: int| 0 <= i < g.notes.len() ==> note_fits(#[trigger] g.notes[i])
}

/// The items at the places that `order` names, in that order.
pub open spec fn in_order<T>(items: Seq<T>, order: Seq<usize>) -> Seq<T> {
    Seq::new(order.len(), |i: int| items[order[i] as int])
}

/// `a + b` held to 64 bits.
pub open spec fn held_sum(a: int, b: int) -> int {
    held(a + b, i64::MIN as int, i64::MAX as int)
}

/// What keeps a note event from being written, if anything does: a note
/// that is no rest needs a pitch and has to last.
pub open spec fn note_error(e: CompileEvent, pitch: Option<i64>, bend_range: u16) -> Option<
    ExportError,
> {
    match e.body {
        EventBody::Note(n) => if n@.is_rest() {
            None
        } else if pitch is None {
            Some(ExportError::FrequencyNotPositive)
        } else if n.duration_nanos <= 0 {
            Some(ExportError::DurationNotPositive)
        } else if bend_range == 0 {
            Some(ExportError::BendRangeZero)
        } else {
            None
        },
        _ => None,
    }
}

/// The note that the encoder makes of a note event with a pitch.
pub open spec fn spec_of(e: CompileEvent, pitch: i64, bend_range: u16) -> NoteSpec {
    NoteSpec {
        start_nanos: e.start_time.nanos,
        end_nanos: held_sum(e.start_time.nanos as int, e.body->Note_0.duration_nanos as int) as i64,
        midi_key: super::writer::key_of(pitch as int) as u8,
        bend14: super::writer::bend14_of(pitch as int, bend_range as int) as u16,
        bend_cents: held(
            super::writer::bend_cents_of(pitch as int),
            i64::MIN as int,
            i64::MAX as int,
        ) as i64,
    }
}

/// Whether the event at place `i` gives a note to write: it is a note and
/// no rest, and it ends after it starts.
pub open spec fn sounds(e: CompileEvent, pitch: Option<i64>, bend_range: u16) -> bool {
    e.body matches EventBody::Note(n) && !n@.is_rest() && pitch is Some && spec_of(
        e,
        pitch.unwrap(),
        bend_range,
    ).end_nanos > e.start_time.nanos
}

/// The notes to write among the first `k` events, in their order.
pub open spec fn specs_upto(
    events: Seq<CompileEvent>,
    pitches: Seq<Option<i64>>,
    bend_range: u16,
    k: int,
) -> Seq<NoteSpec>
    decreases k,
{
    if k <= 0 {
        Seq::empty()
    } else {
        let rest = specs_upto(events, pitches, bend_range, k - 1);
        if sounds(events[k - 1], pitches[k - 1], bend_range) {
            rest.push(spec_of(events[k - 1], pitches[k - 1].unwrap(), bend_range))
        } else {
            rest
        }
    }
}

/// What is wrong with the first of the first `k` events that cannot be
/// written as a note, if there is one.
pub open spec fn first_note_error(
    events: Seq<CompileEvent>,
    pitches: Seq<Option<i64>>,
    bend_range: u16,
    k: int,
) -> Option<ExportError>
    decreases k,
{
    if k <= 0 {
        None
    } else {
        match first_note_error(events, pitches, bend_range, k - 1) {
            Some(e) => Some(e),
            None => note_error(events[k - 1], pitches[k - 1], bend_range),
        }
    }
}

/// The first error among the first `k` events is the first among more.
pub proof fn lemma_first_note_error_stays(
    events: Seq<CompileEvent>,
    pitches: Seq<Option<i64>>,
    bend_range: u16,
    k: int,
    n: int,
)
    requires
        0 <= k <= n,
        first_note_error(events, pitches, bend_range, k) is Some,
    ensures
        first_note_error(events, pitches, bend_range, n) == first_note_error(
            events,
            pitches,
            bend_range,
            k,
        ),
    decreases n - k,
{
    if k < n {
        lemma_first_note_error_stays(events, pitches, bend_range, k, n - 1);
    }
}

/// The notes to write. `pitches` gives the pitch of each note event, in
/// millionths of a semitone on the MIDI scale, and `None` for a note
/// without a frequency above zero. Rests are left out; every other note
/// needs a pitch and has to last.
pub fn collect_note_specs(
    events: &Vec<CompileEvent>,
    pitches: &Vec<Option<i64>>,
    bend_range: u16,
) -> (r: Result<Vec<NoteSpec>, ExportError>)
    requires
        pitches@.len() == events@.len(),
    ensures
        r is Ok <==> forall|i: int|
            0 <= i < events@.len() ==> note_error(#[trigger] events@[i], pitches@[i], bend_range)
                is None,
        r matches Ok(notes) ==> notes@ == specs_upto(
            events@,
            pitches@,
            bend_range,
            events@.len() as int,
        ) && forall|i: int|
            0 <= i < notes@.len() ==> (#[trigger] notes@[i]).start_nanos < notes@[i].end_nanos
                && note_fits(notes@[i]),
        r matches Err(e) ==> exists|i: int|
            0 <= i < events@.len() && note_error(#[trigger] events@[i], pitches@[i], bend_range)
                == Some(e),
        match r {
            Ok(_) => first_note_error(events@, pitches@, bend_range, events@.len() as int)
                is None,
            Err(e) => first_note_error(events@, pitches@, bend_range, events@.len() as int)
                == Some(e),
        },
{
    let mut notes: Vec<NoteSpec> = Vec::new();
    let mut i: usize = 0;
    while i < events.len()
        invariant
            0 <= i <= events@.len(),
            pitches@.len() == events@.len(),
            first_note_error(events@, pitches@, bend_range, i as int) is None,
            forall|j: int|
                0 <= j < i ==> note_error(#[trigger] events@[j], pitches@[j], bend_range) is None,
            notes@ == specs_upto(events@, pitches@, bend_range, i as int),
            forall|j: int|
                0 <= j < notes@.len() ==> (#[trigger] notes@[j]).start_nanos < notes@[j].end_nanos
                    && note_fits(notes@[j]),
        decreases events@.len() - i,
    {
        let event = &events[i];
        if let EventBody::Note(note) = &event.body {
            if !note.is_rest() {
                let pitch = match pitches[i] {
                    Some(p) => p,
                    None => {
                        proof {
                            lemma_first_note_error_stays(
                                events@,
                                pitches@,
                                bend_range,
                                i + 1,
                                events@.len() as int,
                            );
                        }
                        return Err(ExportError::FrequencyNotPositive);
                    },
                };
                if note.duration_nanos <= 0 {
                    proof {
                            lemma_first_note_error_stays(
                                events@,
                                pitches@,
                                bend_range,
                                i + 1,
                                events@.len() as int,
                            );
                        }
                        return Err(ExportError::DurationNotPositive);
                }
                let (midi_key, bend14, bend_cents) = match freq_to_key_and_bend(pitch, bend_range) {
                    Ok(k) => k,
                    Err(e) => {
                        proof {
                            lemma_first_note_error_stays(
                                events@,
                                pitches@,
                                bend_range,
                                i + 1,
                                events@.len() as int,
                            );
                        }
                        return Err(e);
                    },
                };
                let end = event.start_time.nanos as i128 + note.duration_nanos as i128;
                let end_nanos: i64 = if end > 0x7FFF_FFFF_FFFF_FFFF {
                    0x7FFF_FFFF_FFFF_FFFF
                } else {
                    end as i64
                };
                let spec = NoteSpec {
                    start_nanos: event.start_time.nanos,
                    end_nanos,
                    midi_key,
                    bend14,
                    bend_cents,
                };
                if spec.end_nanos > spec.start_nanos {
                    notes.push(spec);
                }
            }
        }
        i += 1;
    }
    Ok(notes)
}

/// The pitch bend and the distance in cents of a group after the note `n`
/// has joined it as its `count`-th note: the mean of what the group had and
/// what the note has, the group's weighed by the notes it had.
pub open spec fn joined_bend(bend14: u16, bend_cents: i64, n: NoteSpec, count: int) -> (u16, i64) {
    (
        bend_unsigned(
            held(
                rounded(bend_signed(bend14 as int) * (count - 1) + bend_signed(n.bend14 as int), count),
                i32::MIN as int,
                i32::MAX as int,
            ),
        ) as u16,
        held(
            rounded(bend_cents * (count - 1) + n.bend_cents, count),
            i64::MIN as int,
            i64::MAX as int,
        ) as i64,
    )
}

/// A group holds notes, all of which start when it starts and none of
/// which ends after it ends.
pub open spec fn group_ok(g: NoteGroup) -> bool {
    &&& g.notes@.len() >= 1
    &&& g.start_nanos <= g.end_nanos
    &&& forall|i: int|
        0 <= i < g.notes@.len() ==> (#[trigger] g.notes@[i]).start_nanos == g.start_nanos
            && g.notes@[i].end_nanos <= g.end_nanos
}

/// The number of notes in the first `k` groups.
pub open spec fn notes_in(groups: Seq<NoteGroup>, k: int) -> int
    decreases k,
{
    if k <= 0 {
        0
    } else {
        notes_in(groups, k - 1) + groups[k - 1].notes@.len()
    }
}

/// The groups are in the order of their starts.
pub open spec fn by_start(groups: Seq<NoteGroup>) -> bool {
    forall|i: int, j: int|
        0 <= i < j < groups.len() ==> (#[trigger] groups[i]).start_nanos
            <= (#[trigger] groups[j]).start_nanos
}

fn join_group(group: NoteGroup, note: NoteSpec) -> (g: NoteGroup)
    requires
        group_ok(group),
        note.start_nanos == group.start_nanos,
        note.start_nanos <= note.end_nanos,
        group.notes@.len() < 0x7FFF_FFFF,
    ensures
        group_ok(g),
        g.start_nanos == group.start_nanos,
        g.notes@ == group.notes@.push(note),
        g.end_nanos == if note.end_nanos > group.end_nanos {
            note.end_nanos
        } else {
            group.end_nanos
        },
        (g.bend14, g.bend_cents) == joined_bend(
            group.bend14,
            group.bend_cents,
            note,
            group.notes@.len() as int + 1,
        ),
        g.bend14 <= 0x3FFF,
{
    let mut notes = group.notes;
    let ghost before = notes@;
    notes.push(note);
    let n = notes.len() as i128;
    proof {
        assert(-0x8000_0000_0000_0000 * 0x7FFF_FFFF <= group.bend_cents * (n - 1)
            <= 0x8000_0000_0000_0000 * 0x7FFF_FFFF) by (nonlinear_arith)
            requires
                -0x8000_0000_0000_0000 <= group.bend_cents <= 0x8000_0000_0000_0000,
                0 <= n - 1 <= 0x7FFF_FFFF,
        ;
        assert(-8192 * 0x7FFF_FFFF <= bend_signed(group.bend14 as int) * (n - 1) <= 8192
            * 0x7FFF_FFFF) by (nonlinear_arith)
            requires
                -8192 <= bend_signed(group.bend14 as int) <= 8192,
                0 <= n - 1 <= 0x7FFF_FFFF,
        ;
    }
    let cents = round_div(group.bend_cents as i128 * (n - 1) + note.bend_cents as i128, n);
    let bend_cents: i64 = if cents < -0x8000_0000_0000_0000 {
        -0x8000_0000_0000_0000
    } else if cents > 0x7FFF_FFFF_FFFF_FFFF {
        0x7FFF_FFFF_FFFF_FFFF
    } else {
        cents as i64
    };
    let avg = round_div(
        bend14_to_signed(group.bend14) as i128 * (n - 1) + bend14_to_signed(note.bend14) as i128,
        n,
    );
    let avg_signed: i32 = if avg < -0x8000_0000 {
        -0x8000_0000
    } else if avg > 0x7FFF_FFFF {
        0x7FFF_FFFF
    } else {
        avg as i32
    };
    let end_nanos = if note.end_nanos > group.end_nanos {
        note.end_nanos
    } else {
        group.end_nanos
    };
    let g = NoteGroup {
        start_nanos: group.start_nanos,
        end_nanos,
        bend14: signed_to_bend14(avg_signed),
        bend_cents,
        notes,
    };
    proof {
        assert forall|i: int| 0 <= i < g.notes@.len() implies (#[trigger] g.notes@[i]).start_nanos
            == g.start_nanos && g.notes@[i].end_nanos <= g.end_nanos by {
            if i < before.len() {
                assert(g.notes@[i] == before[i]);
            }
        }
    }
    g
}

/// Whether the note `n` may join the group: it starts with the group, its
/// pitch lies within `tolerance` of the group's, and the group holds fewer
/// than 2^31 - 1 notes.
pub open spec fn joins(g: GroupView, n: NoteSpec, tolerance: i64) -> bool {
    g.start_nanos == n.start_nanos && -(tolerance as int) <= g.bend_cents - n.bend_cents
        <= tolerance && g.notes.len() < 0x7FFF_FFFF
}

/// The place of the first group from `from` on that the note may join, or
/// the number of groups if there is none.
pub open spec fn first_joined(groups: Seq<GroupView>, n: NoteSpec, tolerance: i64, from: int) -> int
    decreases groups.len() - from,
{
    if from < 0 || from >= groups.len() {
        groups.len() as int
    } else if joins(groups[from], n, tolerance) {
        from
    } else {
        first_joined(groups, n, tolerance, from + 1)
    }
}

/// No group from `from` up to `at` takes the note, and the group at `at`
/// does, if there is one: `at` is the place of the first that does.
pub proof fn lemma_first_joined(
    groups: Seq<GroupView>,
    n: NoteSpec,
    tolerance: i64,
    from: int,
    at: int,
)
    requires
        0 <= from <= at <= groups.len(),
        forall|j: int| from <= j < at ==> !joins(#[trigger] groups[j], n, tolerance),
        at < groups.len() ==> joins(groups[at], n, tolerance),
    ensures
        first_joined(groups, n, tolerance, from) == at,
    decreases at - from,
{
    if from < at {
        lemma_first_joined(groups, n, tolerance, from + 1, at);
    }
}

/// The group with one more note: it ends with the last of its notes, and
/// its pitch bend is the mean of those of its notes.
pub open spec fn with_note(g: GroupView, n: NoteSpec) -> GroupView {
    let bend = joined_bend(g.bend14, g.bend_cents, n, g.notes.len() as int + 1);
    GroupView {
        start_nanos: g.start_nanos,
        end_nanos: if n.end_nanos > g.end_nanos {
            n.end_nanos
        } else {
            g.end_nanos
        },
        bend14: bend.0,
        bend_cents: bend.1,
        notes: g.notes.push(n),
    }
}

/// The group of one note.
pub open spec fn alone(n: NoteSpec) -> GroupView {
    GroupView {
        start_nanos: n.start_nanos,
        end_nanos: n.end_nanos,
        bend14: n.bend14,
        bend_cents: n.bend_cents,
        notes: seq![n],
    }
}

/// The keys by which notes are taken into groups: the start, then the
/// distance of the pitch from the key.
pub open spec fn gather_keys(notes: Seq<NoteSpec>) -> Seq<(i64, i64)> {
    Seq::new(notes.len(), |i: int| (notes[i].start_nanos, notes[i].bend_cents))
}

/// The groups of the first `k` notes along `order`: each note joins the
/// first group that takes it, or starts a group of its own behind the
/// others.
pub open spec fn gathered(notes: Seq<NoteSpec>, order: Seq<usize>, tolerance: i64, k: int) -> Seq<
    GroupView,
>
    decreases k,
{
    if k <= 0 {
        Seq::empty()
    } else {
        let groups = gathered(notes, order, tolerance, k - 1);
        let n = notes[order[k - 1] as int];
        let at = first_joined(groups, n, tolerance, 0);
        if at < groups.len() {
            groups.update(at, with_note(groups[at], n))
        } else {
            groups.push(alone(n))
        }
    }
}

/// The keys by which groups are put in order: the start, then the number
/// of notes.
pub open spec fn group_keys(groups: Seq<GroupView>) -> Seq<(i64, i64)> {
    Seq::new(
        groups.len(),
        |i: int|
            (
                groups[i].start_nanos,
                if groups[i].notes.len() > i64::MAX {
                    i64::MAX
                } else {
                    groups[i].notes.len() as i64
                },
            ),
    )
}

/// The notes in groups: the notes are taken in the order of their starts,
/// those that start together in the order of their pitch offsets, and the
/// groups come in the order of their starts, those that start together the
/// smaller first.
pub open spec fn same_start_groups(notes: Seq<NoteSpec>, tolerance: i64) -> Seq<GroupView> {
    let groups = gathered(notes, order_of(gather_keys(notes)), tolerance, notes.len() as int);
    in_order(groups, order_of(group_keys(groups)))
}

/// The notes in groups. The notes are taken in the order of their starts,
/// those that start together in the order of their pitch offsets; a note
/// joins the first group that starts with it, lies within the pitch
/// tolerance of it and holds fewer than 2^31 - 1 notes, and starts a group
/// of its own if there is none. The
/// groups come in the order of their starts, those that start together the
/// smaller first.
pub fn build_same_start_groups(notes: Vec<NoteSpec>, pitch_tolerance_microcents: i64) -> (groups:
    Vec<NoteGroup>)
    requires
        forall|i: int|
            0 <= i < notes@.len() ==> (#[trigger] notes@[i]).start_nanos <= notes@[i].end_nanos,
    ensures
        group_views(groups@) == same_start_groups(notes@, pitch_tolerance_microcents),
        (forall|i: int| 0 <= i < notes@.len() ==> note_fits(#[trigger] notes@[i])) ==> forall|
            i: int,
        | 0 <= i < groups@.len() ==> group_fits((#[trigger] groups@[i])@),
        by_start(groups@),
        forall|i: int| 0 <= i < groups@.len() ==> group_ok(#[trigger] groups@[i]),
        notes_in(groups@, groups@.len() as int) == notes@.len(),
{
    let mut keys: Vec<(i64, i64)> = Vec::new();
    let mut i: usize = 0;
    while i < notes.len()
        invariant
            0 <= i <= notes@.len(),
            keys@.len() == i,
            forall|j: int|
                0 <= j < i ==> #[trigger] keys@[j] == (notes@[j].start_nanos, notes@[j].bend_cents),
        decreases notes@.len() - i,
    {
        keys.push((notes[i].start_nanos, notes[i].bend_cents));
        i += 1;
    }
    let order = sorted_order(&keys);
    let mut groups: Vec<NoteGroup> = Vec::new();
    let mut k: usize = 0;
    proof {
        assert(keys@ =~= gather_keys(notes@));
        assert(group_views(groups@) =~= Seq::<GroupView>::empty());
    }
    while k < order.len()
        invariant
            0 <= k <= order@.len(),
            is_order(keys@, order@),
            order@ == order_of(gather_keys(notes@)),
            (forall|i: int| 0 <= i < notes@.len() ==> note_fits(#[trigger] notes@[i]))
                ==> forall|i: int| 0 <= i < groups@.len() ==> group_fits((#[trigger] groups@[i])@),
            group_views(groups@) == gathered(
                notes@,
                order@,
                pitch_tolerance_microcents,
                k as int,
            ),
            keys@.len() == notes@.len(),
            forall|i: int|
                0 <= i < notes@.len() ==> (#[trigger] notes@[i]).start_nanos <= notes@[i].end_nanos,
            forall|i: int| 0 <= i < groups@.len() ==> group_ok(#[trigger] groups@[i]),
            notes_in(groups@, groups@.len() as int) == k,
            groups@.len() <= k,
        decreases order@.len() - k,
    {
        let note = notes[order[k]];
        let mut found: usize = groups.len();
        let mut g: usize = 0;
        while g < groups.len()
            invariant_except_break
                found == groups@.len(),
                forall|j: int|
                    0 <= j < g ==> !joins(
                        #[trigger] group_views(groups@)[j],
                        note,
                        pitch_tolerance_microcents,
                    ),
            invariant
                0 <= g <= groups@.len(),
            ensures
                found <= groups@.len(),
                found < groups@.len() ==> groups@[found as int].notes@.len() < 0x7FFF_FFFF
                    && groups@[found as int].start_nanos == note.start_nanos && joins(
                    group_views(groups@)[found as int],
                    note,
                    pitch_tolerance_microcents,
                ),
                forall|j: int|
                    0 <= j < found ==> !joins(
                        #[trigger] group_views(groups@)[j],
                        note,
                        pitch_tolerance_microcents,
                    ),
            decreases groups@.len() - g,
        {
            let start = groups[g].start_nanos;
            let gap = groups[g].bend_cents as i128 - note.bend_cents as i128;
            if start == note.start_nanos && 0 - pitch_tolerance_microcents as i128 <= gap && gap
                <= pitch_tolerance_microcents as i128 && groups[g].notes.len() < 0x7FFF_FFFF {
                found = g;
                break ;
            }
            g += 1;
        }
        proof {
            lemma_first_joined(
                group_views(groups@),
                note,
                pitch_tolerance_microcents,
                0,
                found as int,
            );
        }
        let ghost seen = groups@;
        if found < groups.len() {
            let mut taken = NoteGroup {
                start_nanos: 0,
                end_nanos: 0,
                bend14: 0,
                bend_cents: 0,
                notes: Vec::new(),
            };
            proof {
                assert(group_ok(groups@[found as int]));
                lemma_notes_in_bound(seen, seen.len() as int, found as int);
            }
            core::mem::swap(&mut groups[found], &mut taken);
            let joined = join_group(taken, note);
            groups.set(found, joined);
            proof {
                assert(group_views(groups@) =~= group_views(seen).update(
                    found as int,
                    with_note(seen[found as int]@, note),
                ));
                if forall|i: int| 0 <= i < notes@.len() ==> note_fits(#[trigger] notes@[i]) {
                    assert(note_fits(notes@[order@[k as int] as int]));
                    assert forall|i: int| 0 <= i < groups@.len() implies group_fits(
                        (#[trigger] groups@[i])@,
                    ) by {
                        if i != found {
                            assert(groups@[i] == seen[i]);
                        } else {
                            assert(group_fits(seen[i]@));
                            assert forall|x: int| 0 <= x < groups@[i]@.notes.len() implies note_fits(
                                #[trigger] groups@[i]@.notes[x],
                            ) by {
                                if x < seen[i]@.notes.len() {
                                    assert(groups@[i]@.notes[x] == seen[i]@.notes[x]);
                                }
                            }
                        }
                    }
                }
                lemma_notes_in_update(seen, groups@, found as int, seen.len() as int);
                assert forall|i: int| 0 <= i < groups@.len() implies group_ok(
                    #[trigger] groups@[i],
                ) by {
                    if i != found {
                        assert(groups@[i] == seen[i]);
                    }
                }
            }
        } else {
            let mut members: Vec<NoteSpec> = Vec::new();
            members.push(note);
            groups.push(
                NoteGroup {
                    start_nanos: note.start_nanos,
                    end_nanos: note.end_nanos,
                    bend14: note.bend14,
                    bend_cents: note.bend_cents,
                    notes: members,
                },
            );
            proof {
                assert(group_views(groups@) =~= group_views(seen).push(alone(note)));
                if forall|i: int| 0 <= i < notes@.len() ==> note_fits(#[trigger] notes@[i]) {
                    assert(note_fits(notes@[order@[k as int] as int]));
                    assert forall|i: int| 0 <= i < groups@.len() implies group_fits(
                        (#[trigger] groups@[i])@,
                    ) by {
                        if i < seen.len() {
                            assert(groups@[i] == seen[i]);
                        }
                    }
                }
                lemma_notes_in_prefix(seen, groups@, seen.len() as int);
                assert forall|i: int| 0 <= i < groups@.len() implies group_ok(
                    #[trigger] groups@[i],
                ) by {
                    if i < seen.len() {
                        assert(groups@[i] == seen[i]);
                    }
                }
            }
        }
        k += 1;
    }
    order_groups(groups)
}

/// Groups that agree on the first `k` places hold as many notes there.
pub proof fn lemma_notes_in_prefix(a: Seq<NoteGroup>, b: Seq<NoteGroup>, k: int)
    requires
        0 <= k <= a.len(),
        k <= b.len(),
        forall|i: int| 0 <= i < k ==> a[i] == b[i],
    ensures
        notes_in(a, k) == notes_in(b, k),
    decreases k,
{
    if k > 0 {
        lemma_notes_in_prefix(a, b, k - 1);
    }
}

/// One more note in the group at place `at` is one more note in all.
pub proof fn lemma_notes_in_update(a: Seq<NoteGroup>, b: Seq<NoteGroup>, at: int, k: int)
    requires
        0 <= at < a.len(),
        a.len() == b.len(),
        0 <= k <= a.len(),
        forall|i: int| 0 <= i < a.len() && i != at ==> a[i] == b[i],
        b[at].notes@.len() == a[at].notes@.len() + 1,
    ensures
        notes_in(b, k) == notes_in(a, k) + if at < k {
            1int
        } else {
            0int
        },
    decreases k,
{
    if k > 0 {
        lemma_notes_in_update(a, b, at, k - 1);
    }
}

/// No group holds more notes than all groups together.
pub proof fn lemma_notes_in_bound(groups: Seq<NoteGroup>, k: int, at: int)
    requires
        0 <= at < k <= groups.len(),
    ensures
        groups[at].notes@.len() <= notes_in(groups, k),
        notes_in(groups, k) >= 0,
    decreases k,
{
    lemma_notes_in_nonneg(groups, k - 1);
    if at < k - 1 {
        lemma_notes_in_bound(groups, k - 1, at);
    }
}

pub proof fn lemma_notes_in_nonneg(groups: Seq<NoteGroup>, k: int)
    ensures
        notes_in(groups, k) >= 0,
    decreases k,
{
    if k > 0 {
        lemma_notes_in_nonneg(groups, k - 1);
    }
}

/// The groups in the order of their starts, those that start together the
/// smaller first.
fn order_groups(groups: Vec<NoteGroup>) -> (ordered: Vec<NoteGroup>)
    requires
        forall|i: int| 0 <= i < groups@.len() ==> group_ok(#[trigger] groups@[i]),
    ensures
        group_views(ordered@) == in_order(
            group_views(groups@),
            order_of(group_keys(group_views(groups@))),
        ),
        (forall|i: int| 0 <= i < groups@.len() ==> group_fits((#[trigger] groups@[i])@))
            ==> forall|i: int| 0 <= i < ordered@.len() ==> group_fits((#[trigger] ordered@[i])@),
        by_start(ordered@),
        forall|i: int| 0 <= i < ordered@.len() ==> group_ok(#[trigger] ordered@[i]),
        notes_in(ordered@, ordered@.len() as int) == notes_in(groups@, groups@.len() as int),
{
    let mut groups = groups;
    let n = groups.len();
    let mut keys: Vec<(i64, i64)> = Vec::new();
    let mut i: usize = 0;
    while i < n
        invariant
            0 <= i <= n,
            n == groups@.len(),
            keys@.len() == i,
            forall|j: int| 0 <= j < i ==> (#[trigger] keys@[j]).0 == groups@[j].start_nanos,
            forall|j: int| 0 <= j < i ==> #[trigger] keys@[j] == group_keys(group_views(groups@))[j],
        decreases n - i,
    {
        let len = groups[i].notes.len() as u64;
        let size: i64 = if len > 0x7FFF_FFFF_FFFF_FFFF {
            0x7FFF_FFFF_FFFF_FFFF
        } else {
            len as i64
        };
        keys.push((groups[i].start_nanos, size));
        i += 1;
    }
    let order = sorted_order(&keys);
    let ghost source = groups@;
    proof {
        assert(keys@ =~= group_keys(group_views(source)));
    }
    let mut ordered: Vec<NoteGroup> = Vec::new();
    let mut k: usize = 0;
    while k < n
        invariant
            0 <= k <= n,
            n == groups@.len(),
            n == source.len(),
            is_order(keys@, order@),
            keys@.len() == n,
            forall|j: int| 0 <= j < n ==> (#[trigger] keys@[j]).0 == source[j].start_nanos,
            forall|j: int| 0 <= j < n ==> group_ok(#[trigger] source[j]),
            ordered@.len() == k,
            forall|j: int| 0 <= j < k ==> #[trigger] ordered@[j] == source[order@[j] as int],
            forall|j: int| k <= j < n ==> groups@[order@[j] as int] == source[#[trigger] order@[j] as int],
        decreases n - k,
    {
        let mut taken = NoteGroup {
            start_nanos: 0,
            end_nanos: 0,
            bend14: 0,
            bend_cents: 0,
            notes: Vec::new(),
        };
        let ghost seen = groups@;
        core::mem::swap(&mut groups[order[k]], &mut taken);
        ordered.push(taken);
        proof {
            assert forall|j: int| k + 1 <= j < n implies groups@[order@[j] as int]
                == source[#[trigger] order@[j] as int] by {
                assert(before(keys@, order@[k as int] as int, order@[j] as int));
                assert(groups@[order@[j] as int] == seen[order@[j] as int]);
            }
        }
        k += 1;
    }
    proof {
        assert forall|i: int, j: int| 0 <= i < j < ordered@.len() implies (
        #[trigger] ordered@[i]).start_nanos <= (#[trigger] ordered@[j]).start_nanos by {
            assert(before(keys@, order@[i] as int, order@[j] as int));
        }
        lemma_reordered_notes(source, ordered@, order@, keys@);
        assert(group_views(ordered@) =~= in_order(group_views(source), order@));
    }
    ordered
}

/// The number of notes in the groups at the first `k` places of `order`.
pub open spec fn notes_along(groups: Seq<NoteGroup>, order: Seq<usize>, k: int) -> int
    decreases k,
{
    if k <= 0 {
        0
    } else {
        notes_along(groups, order, k - 1) + groups[order[k - 1] as int].notes@.len()
    }
}

/// The number of notes in the groups whose index is below `bound` and
/// which stand at the first `k` places of `order`.
pub open spec fn notes_below(groups: Seq<NoteGroup>, order: Seq<usize>, k: int, bound: int) -> int
    decreases k,
{
    if k <= 0 {
        0
    } else {
        notes_below(groups, order, k - 1, bound) + if order[k - 1] < bound {
            groups[order[k - 1] as int].notes@.len() as int
        } else {
            0
        }
    }
}

proof fn lemma_notes_below_step(groups: Seq<NoteGroup>, order: Seq<usize>, k: int, bound: int)
    requires
        0 <= k <= order.len(),
        0 <= bound < groups.len(),
        forall|i: int| 0 <= i < order.len() ==> (#[trigger] order[i]) < groups.len(),
        forall|i: int, j: int| 0 <= i < j < order.len() ==> #[trigger] order[i] != #[trigger] order[j],
    ensures
        notes_below(groups, order, k, bound + 1) == notes_below(groups, order, k, bound) + if exists|
            i: int,
        |
            0 <= i < k && #[trigger] order[i] == bound {
            groups[bound].notes@.len() as int
        } else {
            0
        },
    decreases k,
{
    if k > 0 {
        lemma_notes_below_step(groups, order, k - 1, bound);
        if order[k - 1] == bound {
            if exists|i: int| 0 <= i < k - 1 && #[trigger] order[i] == bound {
                let i = choose|i: int| 0 <= i < k - 1 && #[trigger] order[i] == bound;
                assert(order[i] != order[k - 1]);
            }
        } else {
            if exists|i: int| 0 <= i < k && #[trigger] order[i] == bound {
                let i = choose|i: int| 0 <= i < k && #[trigger] order[i] == bound;
                assert(i < k - 1);
            }
        }
    }
}

proof fn lemma_notes_below_all(groups: Seq<NoteGroup>, order: Seq<usize>, keys: Seq<(i64, i64)>, bound: int)
    requires
        is_order(keys, order),
        keys.len() == groups.len(),
        0 <= bound <= groups.len(),
    ensures
        notes_below(groups, order, order.len() as int, bound) == notes_in(groups, bound),
    decreases bound,
{
    if bound > 0 {
        lemma_notes_below_all(groups, order, keys, bound - 1);
        assert forall|i: int, j: int| 0 <= i < j < order.len() implies #[trigger] order[i]
            != #[trigger] order[j] by {
            assert(before(keys, order[i] as int, order[j] as int));
        }
        lemma_notes_below_step(groups, order, order.len() as int, bound - 1);
        assert(names(order, bound - 1));
    } else {
        lemma_notes_below_zero(groups, order, order.len() as int);
    }
}

proof fn lemma_notes_below_zero(groups: Seq<NoteGroup>, order: Seq<usize>, k: int)
    ensures
        notes_below(groups, order, k, 0) == 0,
    decreases k,
{
    if k > 0 {
        lemma_notes_below_zero(groups, order, k - 1);
    }
}

proof fn lemma_notes_below_full(groups: Seq<NoteGroup>, order: Seq<usize>, k: int)
    requires
        0 <= k <= order.len(),
        forall|i: int| 0 <= i < order.len() ==> (#[trigger] order[i]) < groups.len(),
    ensures
        notes_below(groups, order, k, groups.len() as int) == notes_along(groups, order, k),
    decreases k,
{
    if k > 0 {
        lemma_notes_below_full(groups, order, k - 1);
    }
}

/// Groups put in another order hold as many notes as before.
proof fn lemma_reordered_notes(
    source: Seq<NoteGroup>,
    ordered: Seq<NoteGroup>,
    order: Seq<usize>,
    keys: Seq<(i64, i64)>,
)
    requires
        is_order(keys, order),
        keys.len() == source.len(),
        ordered.len() == source.len(),
        forall|j: int| 0 <= j < ordered.len() ==> #[trigger] ordered[j] == source[order[j] as int],
    ensures
        notes_in(ordered, ordered.len() as int) == notes_in(source, source.len() as int),
{
    lemma_notes_below_all(source, order, keys, source.len() as int);
    lemma_notes_below_full(source, order, order.len() as int);
    lemma_along_is_in(source, ordered, order, ordered.len() as int);
}

proof fn lemma_along_is_in(source: Seq<NoteGroup>, ordered: Seq<NoteGroup>, order: Seq<usize>, k: int)
    requires
        0 <= k <= ordered.len(),
        ordered.len() == order.len(),
        forall|j: int| 0 <= j < ordered.len() ==> #[trigger] ordered[j] == source[order[j] as int],
    ensures
        notes_in(ordered, k) == notes_along(source, order, k),
    decreases k,
{
    if k > 0 {
        lemma_along_is_in(source, ordered, order, k - 1);
    }
}

} // verus!
