//! Tracks: which group of notes sounds on which track, and the events of
//! each track with their ticks.

use super::layout::{
    by_start, group_fits, group_ok, group_views, layout_views, note_fits, GroupView, NoteGroup,
    NoteSpec, TrackLayout,
};
use super::tempo::{
    before, is_order, names, seconds_to_tick, sorted_order, tick_at, MetaPoint, TempoPoint,
};
use vstd::prelude::*;

verus! {

/// The group `out` on a track is the group `given` of the input, cut
/// short by no more than `tolerance`.
pub open spec fn placed(out: NoteGroup, given: NoteGroup, tolerance: i64) -> bool {
    &&& out.start_nanos == given.start_nanos
    &&& out.bend14 == given.bend14
    &&& out.bend_cents == given.bend_cents
    &&& out.notes@.len() == given.notes@.len()
    &&& out.end_nanos <= given.end_nanos
    &&& given.end_nanos - out.end_nanos <= tolerance || out.end_nanos == given.end_nanos
    &&& forall|i: int|
        0 <= i < out.notes@.len() ==> (#[trigger] out.notes@[i]).midi_key == given.notes@[i].midi_key
            && out.notes@[i].start_nanos == given.notes@[i].start_nanos && out.notes@[i].end_nanos
            == if given.notes@[i].end_nanos > out.end_nanos {
            out.end_nanos
        } else {
            given.notes@[i].end_nanos
        }
}

/// One group at a time: each group of a track has ended when the next
/// one starts, and so when any later one starts.
pub open spec fn one_at_a_time(track: TrackLayout) -> bool {
    &&& forall|i: int|
        0 <= i < track.groups@.len() ==> (#[trigger] track.groups@[i]).start_nanos
            <= track.groups@[i].end_nanos
    &&& forall|i: int, j: int|
        0 <= i < j < track.groups@.len() ==> (#[trigger] track.groups@[i]).end_nanos
            <= (#[trigger] track.groups@[j]).start_nanos
}

/// Every group of the tracks is a group of the input.
pub open spec fn all_placed(tracks: Seq<TrackLayout>, given: Seq<NoteGroup>, tolerance: i64) -> bool {
    forall|t: int, x: int|
        0 <= t < tracks.len() && 0 <= x < tracks[t].groups@.len() ==> exists|k: int|
            0 <= k < given.len() && placed(#[trigger] tracks[t].groups@[x], given[k], tolerance)
}

/// The number of groups on the first `k` tracks.
pub open spec fn groups_on(tracks: Seq<TrackLayout>, k: int) -> int
    decreases k,
{
    if k <= 0 {
        0
    } else {
        groups_on(tracks, k - 1) + tracks[k - 1].groups@.len()
    }
}

/// Whether a group that starts at `start` may follow the groups of a
/// track: the last of them has ended by then, or reaches past it by no more
/// than `tolerance`.
pub open spec fn takes(track: Seq<GroupView>, start: i64, tolerance: i64) -> bool {
    track.len() >= 1 && (start >= track.last().end_nanos || track.last().end_nanos - start
        <= tolerance)
}

/// The place of the first track from `from` on that takes a group that
/// starts at `start`, or the number of tracks if there is none.
pub open spec fn first_taking(tracks: Seq<Seq<GroupView>>, start: i64, tolerance: i64, from: int) -> int
    decreases tracks.len() - from,
{
    if from < 0 || from >= tracks.len() {
        tracks.len() as int
    } else if takes(tracks[from], start, tolerance) {
        from
    } else {
        first_taking(tracks, start, tolerance, from + 1)
    }
}

/// No track from `from` up to `at` takes the group, and the track at `at`
/// does, if there is one: `at` is the place of the first that does.
pub proof fn lemma_first_taking(
    tracks: Seq<Seq<GroupView>>,
    start: i64,
    tolerance: i64,
    from: int,
    at: int,
)
    requires
        0 <= from <= at <= tracks.len(),
        forall|j: int| from <= j < at ==> !takes(#[trigger] tracks[j], start, tolerance),
        at < tracks.len() ==> takes(tracks[at], start, tolerance),
    ensures
        first_taking(tracks, start, tolerance, from) == at,
    decreases at - from,
{
    if from < at {
        lemma_first_taking(tracks, start, tolerance, from + 1, at);
    }
}

/// The group and its notes, none of them sounding after `end`.
pub open spec fn cut_short(g: GroupView, end: i64) -> GroupView {
    if g.end_nanos > end {
        GroupView {
            end_nanos: end,
            notes: g.notes.map_values(
                |n: NoteSpec|
                    NoteSpec {
                        end_nanos: if n.end_nanos > end {
                            end
                        } else {
                            n.end_nanos
                        },
                        ..n
                    },
            ),
            ..g
        }
    } else {
        g
    }
}

/// The track with the group `g` behind its groups, the last of which is
/// cut short where `g` starts.
pub open spec fn followed(track: Seq<GroupView>, g: GroupView) -> Seq<GroupView> {
    track.drop_last().push(cut_short(track.last(), g.start_nanos)).push(g)
}

/// The tracks of the first `k` groups: each group goes on the first
/// track that takes it, or on a new track behind the others.
pub open spec fn assigned(groups: Seq<GroupView>, tolerance: i64, k: int) -> Seq<Seq<GroupView>>
    decreases k,
{
    if k <= 0 {
        Seq::empty()
    } else {
        let tracks = assigned(groups, tolerance, k - 1);
        let g = groups[k - 1];
        let at = first_taking(tracks, g.start_nanos, tolerance, 0);
        if at < tracks.len() {
            tracks.update(at, followed(tracks[at], g))
        } else {
            tracks.push(seq![g])
        }
    }
}

/// The notes of a group, none of them sounding after `end`.
fn cut_notes(notes: &Vec<NoteSpec>, end: i64) -> (cut: Vec<NoteSpec>)
    ensures
        cut@.len() == notes@.len(),
        forall|i: int|
            0 <= i < cut@.len() ==> #[trigger] cut@[i] == (NoteSpec {
                end_nanos: if notes@[i].end_nanos > end {
                    end
                } else {
                    notes@[i].end_nanos
                },
                ..notes@[i]
            }),
{
    let mut cut: Vec<NoteSpec> = Vec::new();
    let mut i: usize = 0;
    while i < notes.len()
        invariant
            0 <= i <= notes@.len(),
            cut@.len() == i,
            forall|j: int|
                0 <= j < i ==> #[trigger] cut@[j] == (NoteSpec {
                    end_nanos: if notes@[j].end_nanos > end {
                        end
                    } else {
                        notes@[j].end_nanos
                    },
                    ..notes@[j]
                }),
        decreases notes@.len() - i,
    {
        let n = notes[i];
        cut.push(
            NoteSpec {
                end_nanos: if n.end_nanos > end {
                    end
                } else {
                    n.end_nanos
                },
                ..n
            },
        );
        i += 1;
    }
    cut
}

/// Puts the groups on tracks. Each group goes on the first track whose
/// last group has ended when it starts, or reaches into it by no more than
/// `tolerance_nanos`; such a last group, and each of its notes, is cut short
/// to end where the new group starts. A group that fits no track starts a
/// new one.
pub fn assign_groups_to_tracks(groups: Vec<NoteGroup>, tolerance_nanos: i64) -> (tracks: Vec<
    TrackLayout,
>)
    requires
        by_start(groups@),
        forall|i: int| 0 <= i < groups@.len() ==> group_ok(#[trigger] groups@[i]),
    ensures
        layout_views(tracks@) == assigned(
            group_views(groups@),
            tolerance_nanos,
            groups@.len() as int,
        ),
        (forall|i: int| 0 <= i < groups@.len() ==> group_fits((#[trigger] groups@[i])@))
            ==> forall|t: int, g: int|
            0 <= t < tracks@.len() && 0 <= g < tracks@[t]@.len() ==> group_fits(
                #[trigger] tracks@[t]@[g],
            ),
        forall|t: int| 0 <= t < tracks@.len() ==> one_at_a_time(#[trigger] tracks@[t]),
        forall|t: int| 0 <= t < tracks@.len() ==> (#[trigger] tracks@[t]).groups@.len() >= 1,
        all_placed(tracks@, groups@, tolerance_nanos),
        groups_on(tracks@, tracks@.len() as int) == groups@.len(),
{
    let ghost given = groups@;
    let mut groups = groups;
    let n = groups.len();
    let mut tracks: Vec<TrackLayout> = Vec::new();
    let mut k: usize = 0;
    proof {
        assert(layout_views(tracks@) =~= Seq::<Seq<GroupView>>::empty());
    }
    while k < n
        invariant
            0 <= k <= n,
            n == groups@.len(),
            n == given.len(),
            layout_views(tracks@) == assigned(group_views(given), tolerance_nanos, k as int),
            (forall|i: int| 0 <= i < given.len() ==> group_fits((#[trigger] given[i])@))
                ==> forall|t: int, g: int|
                0 <= t < tracks@.len() && 0 <= g < tracks@[t]@.len() ==> group_fits(
                    #[trigger] tracks@[t]@[g],
                ),
            by_start(given),
            forall|i: int| 0 <= i < given.len() ==> group_ok(#[trigger] given[i]),
            forall|i: int| k <= i < n ==> #[trigger] groups@[i] == given[i],
            forall|t: int| 0 <= t < tracks@.len() ==> one_at_a_time(#[trigger] tracks@[t]),
            forall|t: int| 0 <= t < tracks@.len() ==> (#[trigger] tracks@[t]).groups@.len() >= 1,
            all_placed(tracks@, given, tolerance_nanos),
            groups_on(tracks@, tracks@.len() as int) == k,
            forall|t: int|
                0 <= t < tracks@.len() ==> exists|x: int|
                    0 <= x < k && placed(
                        (#[trigger] tracks@[t]).groups@.last(),
                        given[x],
                        tolerance_nanos,
                    ) && tracks@[t].groups@.last().end_nanos == given[x].end_nanos,
            forall|t: int, x: int|
                0 <= t < tracks@.len() && 0 <= x < tracks@[t].groups@.len() ==> k < n
                    ==> (#[trigger] tracks@[t].groups@[x]).start_nanos <= given[k as int].start_nanos,
        decreases n - k,
    {
        let mut group = NoteGroup {
            start_nanos: 0,
            end_nanos: 0,
            bend14: 0,
            bend_cents: 0,
            notes: Vec::new(),
        };
        let ghost seen_groups = groups@;
        core::mem::swap(&mut groups[k], &mut group);
        proof {
            assert(group == given[k as int]);
            assert(group_ok(given[k as int]));
        }
        let start = group.start_nanos;
        let mut chosen: usize = tracks.len();
        let mut cut = false;
        let mut t: usize = 0;
        while t < tracks.len()
            invariant_except_break
                chosen == tracks@.len(),
                forall|j: int|
                    0 <= j < t ==> !takes(#[trigger] layout_views(tracks@)[j], start, tolerance_nanos),
            invariant
                0 <= t <= tracks@.len(),
                forall|u: int| 0 <= u < tracks@.len() ==> (#[trigger] tracks@[u]).groups@.len() >= 1,
            ensures
                chosen <= tracks@.len(),
                chosen < tracks@.len() ==> {
                    let last = tracks@[chosen as int].groups@.last();
                    if cut {
                        0 < last.end_nanos - start <= tolerance_nanos
                    } else {
                        start >= last.end_nanos
                    }
                },
                chosen < tracks@.len() ==> takes(
                    layout_views(tracks@)[chosen as int],
                    start,
                    tolerance_nanos,
                ),
                forall|j: int|
                    0 <= j < chosen ==> !takes(
                        #[trigger] layout_views(tracks@)[j],
                        start,
                        tolerance_nanos,
                    ),
            decreases tracks@.len() - t,
        {
            proof {
                assert(layout_views(tracks@)[t as int].last() == tracks@[t as int].groups@.last()@);
            }
            let last_index = tracks[t].groups.len() - 1;
            let last_end = tracks[t].groups[last_index].end_nanos;
            if start >= last_end {
                chosen = t;
                cut = false;
                break ;
            }
            let overlap = last_end as i128 - start as i128;
            if overlap > 0 && overlap <= tolerance_nanos as i128 {
                chosen = t;
                cut = true;
                break ;
            }
            t += 1;
        }
        let ghost seen = tracks@;
        proof {
            lemma_first_taking(layout_views(seen), start, tolerance_nanos, 0, chosen as int);
        }
        if chosen < tracks.len() {
            let mut track = TrackLayout { groups: Vec::new() };
            core::mem::swap(&mut tracks[chosen], &mut track);
            let ghost was = track.groups@;
            proof {
                assert(one_at_a_time(seen[chosen as int]));
                assert(track == seen[chosen as int]);
            }
            if cut {
                let last_index = track.groups.len() - 1;
                let mut last = NoteGroup {
                    start_nanos: 0,
                    end_nanos: 0,
                    bend14: 0,
                    bend_cents: 0,
                    notes: Vec::new(),
                };
                core::mem::swap(&mut track.groups[last_index], &mut last);
                let trimmed = NoteGroup {
                    start_nanos: last.start_nanos,
                    end_nanos: start,
                    bend14: last.bend14,
                    bend_cents: last.bend_cents,
                    notes: cut_notes(&last.notes, start),
                };
                proof {
                    let x = choose|x: int|
                        0 <= x < k && placed(seen[chosen as int].groups@.last(), given[x], tolerance_nanos)
                            && seen[chosen as int].groups@.last().end_nanos == given[x].end_nanos;
                    assert(last == was.last());
                    assert(was.last().start_nanos <= given[k as int].start_nanos);
                    assert(placed(trimmed, given[x], tolerance_nanos));
                    assert(trimmed@.notes =~= cut_short(last@, start).notes);
                    assert(trimmed@ == cut_short(was.last()@, start));
                }
                track.groups.set(last_index, trimmed);
            }
            let ghost middle = track.groups@;
            track.groups.push(group);
            proof {
                assert(group_views(middle) =~= group_views(was).drop_last().push(
                    cut_short(was.last()@, start),
                ));
                assert(group_views(track.groups@) =~= followed(group_views(was), group@));
                assert forall|i: int, j: int| 0 <= i < j < track.groups@.len() implies (
                #[trigger] track.groups@[i]).end_nanos <= (#[trigger] track.groups@[j]).start_nanos by {
                    if j < middle.len() {
                        if j < was.len() - 1 {
                            assert(was[i].end_nanos <= was[j].start_nanos);
                        } else {
                            assert(was[i].end_nanos <= was[j].start_nanos);
                            assert(middle[i] == was[i]);
                        }
                    } else {
                        if i < was.len() - 1 {
                            assert(was[i].end_nanos <= was[was.len() - 1].start_nanos);
                            assert(middle[i] == was[i]);
                            assert(was.last().start_nanos <= given[k as int].start_nanos);
                        }
                    }
                }
                assert forall|i: int| 0 <= i < track.groups@.len() implies (
                #[trigger] track.groups@[i]).start_nanos <= track.groups@[i].end_nanos by {
                    if i < was.len() - 1 {
                        assert(middle[i] == was[i]);
                        assert(was[i].start_nanos <= was[i].end_nanos);
                    } else if i == was.len() - 1 {
                        assert(was[i].start_nanos <= was[i].end_nanos);
                        assert(was[i].start_nanos <= given[k as int].start_nanos);
                    }
                }
            }
            let ghost filled = track;
            tracks.set(chosen, track);
            proof {
                assert(group@ == group_views(given)[k as int]);
                assert(layout_views(tracks@) =~= layout_views(seen).update(
                    chosen as int,
                    followed(layout_views(seen)[chosen as int], group@),
                ));
                if forall|i: int| 0 <= i < given.len() ==> group_fits((#[trigger] given[i])@) {
                    assert(group_fits(given[k as int]@));
                    assert forall|t: int, g: int|
                        0 <= t < tracks@.len() && 0 <= g < tracks@[t]@.len() implies group_fits(
                        #[trigger] tracks@[t]@[g],
                    ) by {
                        if t != chosen {
                            assert(tracks@[t] == seen[t]);
                        } else {
                            let was_view = seen[t]@;
                            if g < was_view.len() - 1 {
                                assert(tracks@[t]@[g] == was_view[g]);
                            } else if g == was_view.len() - 1 {
                                assert(group_fits(was_view[g]));
                                assert(tracks@[t]@[g] == cut_short(was_view[g], start));
                                assert forall|x: int|
                                    0 <= x < tracks@[t]@[g].notes.len() implies note_fits(
                                    #[trigger] tracks@[t]@[g].notes[x],
                                ) by {
                                    assert(note_fits(was_view[g].notes[x]));
                                }
                            }
                        }
                    }
                }
                lemma_groups_on_update(seen, tracks@, chosen as int, seen.len() as int);
                assert forall|u: int, x: int|
                    0 <= u < tracks@.len() && 0 <= x < tracks@[u].groups@.len() implies exists|
                    q: int,
                |
                    0 <= q < given.len() && placed(
                        #[trigger] tracks@[u].groups@[x],
                        given[q],
                        tolerance_nanos,
                    ) by {
                    if u != chosen {
                        assert(tracks@[u] == seen[u]);
                        let q = choose|q: int|
                            0 <= q < given.len() && placed(
                                seen[u].groups@[x],
                                given[q],
                                tolerance_nanos,
                            );
                        assert(placed(tracks@[u].groups@[x], given[q], tolerance_nanos));
                    } else if x < was.len() - 1 {
                        assert(filled.groups@[x] == was[x]);
                        let q = choose|q: int|
                            0 <= q < given.len() && placed(
                                seen[u].groups@[x],
                                given[q],
                                tolerance_nanos,
                            );
                        assert(placed(tracks@[u].groups@[x], given[q], tolerance_nanos));
                    } else if x == was.len() - 1 {
                        let q = choose|q: int|
                            0 <= q < k && placed(seen[u].groups@.last(), given[q], tolerance_nanos)
                                && seen[u].groups@.last().end_nanos == given[q].end_nanos;
                        assert(placed(tracks@[u].groups@[x], given[q], tolerance_nanos));
                    } else {
                        assert(placed(tracks@[u].groups@[x], given[k as int], tolerance_nanos));
                    }
                }
                assert forall|u: int| 0 <= u < tracks@.len() implies exists|x: int|
                    0 <= x < k + 1 && placed(
                        (#[trigger] tracks@[u]).groups@.last(),
                        given[x],
                        tolerance_nanos,
                    ) && tracks@[u].groups@.last().end_nanos == given[x].end_nanos by {
                    if u != chosen {
                        assert(tracks@[u] == seen[u]);
                        let x = choose|x: int|
                            0 <= x < k && placed(seen[u].groups@.last(), given[x], tolerance_nanos)
                                && seen[u].groups@.last().end_nanos == given[x].end_nanos;
                        assert(placed(tracks@[u].groups@.last(), given[x], tolerance_nanos));
                    } else {
                        assert(placed(tracks@[u].groups@.last(), given[k as int], tolerance_nanos));
                    }
                }
                assert forall|u: int| 0 <= u < tracks@.len() implies one_at_a_time(
                    #[trigger] tracks@[u],
                ) by {
                    if u != chosen {
                        assert(tracks@[u] == seen[u]);
                    }
                }
            }
        } else {
            let mut first: Vec<NoteGroup> = Vec::new();
            first.push(group);
            tracks.push(TrackLayout { groups: first });
            proof {
                assert(group@ == group_views(given)[k as int]);
                assert(group_views(first@) =~= seq![group@]);
                assert(layout_views(tracks@) =~= layout_views(seen).push(seq![group@]));
                if forall|i: int| 0 <= i < given.len() ==> group_fits((#[trigger] given[i])@) {
                    assert(group_fits(given[k as int]@));
                    assert forall|t: int, g: int|
                        0 <= t < tracks@.len() && 0 <= g < tracks@[t]@.len() implies group_fits(
                        #[trigger] tracks@[t]@[g],
                    ) by {
                        if t < seen.len() {
                            assert(tracks@[t] == seen[t]);
                        }
                    }
                }
                lemma_groups_on_prefix(seen, tracks@, seen.len() as int);
                assert forall|u: int, x: int|
                    0 <= u < tracks@.len() && 0 <= x < tracks@[u].groups@.len() implies exists|
                    q: int,
                |
                    0 <= q < given.len() && placed(
                        #[trigger] tracks@[u].groups@[x],
                        given[q],
                        tolerance_nanos,
                    ) by {
                    if u < seen.len() {
                        assert(tracks@[u] == seen[u]);
                        let q = choose|q: int|
                            0 <= q < given.len() && placed(
                                seen[u].groups@[x],
                                given[q],
                                tolerance_nanos,
                            );
                        assert(placed(tracks@[u].groups@[x], given[q], tolerance_nanos));
                    } else {
                        assert(placed(tracks@[u].groups@[x], given[k as int], tolerance_nanos));
                    }
                }
                assert forall|u: int| 0 <= u < tracks@.len() implies exists|x: int|
                    0 <= x < k + 1 && placed(
                        (#[trigger] tracks@[u]).groups@.last(),
                        given[x],
                        tolerance_nanos,
                    ) && tracks@[u].groups@.last().end_nanos == given[x].end_nanos by {
                    if u < seen.len() {
                        assert(tracks@[u] == seen[u]);
                        let x = choose|x: int|
                            0 <= x < k && placed(seen[u].groups@.last(), given[x], tolerance_nanos)
                                && seen[u].groups@.last().end_nanos == given[x].end_nanos;
                        assert(placed(tracks@[u].groups@.last(), given[x], tolerance_nanos));
                    } else {
                        assert(placed(tracks@[u].groups@.last(), given[k as int], tolerance_nanos));
                    }
                }
                assert forall|u: int| 0 <= u < tracks@.len() implies one_at_a_time(
                    #[trigger] tracks@[u],
                ) by {
                    if u < seen.len() {
                        assert(tracks@[u] == seen[u]);
                    }
                }
            }
        }
        proof {
            if k + 1 < n {
                assert(given[k as int].start_nanos <= given[k + 1].start_nanos);
            }
        }
        k += 1;
    }
    tracks
}

pub proof fn lemma_groups_on_prefix(a: Seq<TrackLayout>, b: Seq<TrackLayout>, k: int)
    requires
        0 <= k <= a.len(),
        k <= b.len(),
        forall|i: int| 0 <= i < k ==> a[i] == b[i],
    ensures
        groups_on(a, k) == groups_on(b, k),
    decreases k,
{
    if k > 0 {
        lemma_groups_on_prefix(a, b, k - 1);
    }
}

pub proof fn lemma_groups_on_update(a: Seq<TrackLayout>, b: Seq<TrackLayout>, at: int, k: int)
    requires
        0 <= at < a.len(),
        a.len() == b.len(),
        0 <= k <= a.len(),
        forall|i: int| 0 <= i < a.len() && i != at ==> a[i] == b[i],
        b[at].groups@.len() == a[at].groups@.len() + 1,
    ensures
        groups_on(b, k) == groups_on(a, k) + if at < k {
            1int
        } else {
            0int
        },
    decreases k,
{
    if k > 0 {
        lemma_groups_on_update(a, b, at, k - 1);
    }
}

/// On a track that sounds one group at a time, a group that comes before
/// another has ended when the other starts: no two groups of a track sound
/// together.
pub proof fn lemma_one_note_per_channel(track: TrackLayout, i: int, j: int)
    requires
        one_at_a_time(track),
        0 <= i < j < track.groups@.len(),
    ensures
        track.groups@[i].end_nanos <= track.groups@[j].start_nanos,
        track.groups@[i].start_nanos <= track.groups@[i].end_nanos,
{
}

} // verus!
