//! The tempo map: which tempo holds from when, and the tick at which each
//! point in time lies.

use super::writer::{
    bpm_beat_to_mpq, lemma_ticks_monotone, mpq_of, seconds_to_ticks_with_mpq, ticks_of,
    ExportError,
};
use crate::compiler::compile::{check_power_of_two, is_power_of_two};
use crate::compiler::time::tempo_positive;
use crate::compiler::types::{CompileEvent, Decimal, EventBody};
use crate::rational::Rational32;
use vstd::prelude::*;

verus! {

/// Index `a` comes before index `b` when the entries are put in order by
/// their keys, entries with the same key in the order they have.
pub open spec fn before(keys: Seq<(i64, i64)>, a: int, b: int) -> bool {
    keys[a].0 < keys[b].0 || (keys[a].0 == keys[b].0 && (keys[a].1 < keys[b].1 || (keys[a].1
        == keys[b].1 && a < b)))
}

/// `order` names every index of `keys` once, in the order of the keys.
pub open spec fn is_order(keys: Seq<(i64, i64)>, order: Seq<usize>) -> bool {
    &&& order.len() == keys.len()
    &&& forall|i: int| 0 <= i < order.len() ==> (#[trigger] order[i]) < keys.len()
    &&& forall|i: int, j: int|
        0 <= i < j < order.len() ==> before(keys, #[trigger] order[i] as int, #[trigger] order[j] as int)
    &&& forall|x: int| 0 <= x < keys.len() ==> #[trigger] names(order, x)
}

/// `order` names the index `x`.
pub open spec fn names(order: Seq<usize>, x: int) -> bool {
    exists|i: int| 0 <= i < order.len() && #[trigger] order[i] == x
}

/// Two orders of the same keys are the same on their first `k` places:
/// there is one order only.
pub proof fn lemma_order_unique(keys: Seq<(i64, i64)>, a: Seq<usize>, b: Seq<usize>, k: int)
    requires
        is_order(keys, a),
        is_order(keys, b),
        0 <= k <= keys.len(),
    ensures
        forall|i: int| 0 <= i < k ==> a[i] == b[i],
    decreases k,
{
    if k > 0 {
        lemma_order_unique(keys, a, b, k - 1);
        let i = k - 1;
        if a[i] != b[i] {
            assert(names(b, a[i] as int));
            let m = choose|m: int| 0 <= m < b.len() && #[trigger] b[m] == a[i] as int;
            if m < i {
                assert(before(keys, a[m] as int, a[i] as int));
            }
            assert(before(keys, b[i] as int, b[m] as int));
            assert(names(a, b[i] as int));
            let w = choose|w: int| 0 <= w < a.len() && #[trigger] a[w] == b[i] as int;
            if w < i {
                assert(before(keys, b[w] as int, b[i] as int));
            }
            assert(before(keys, a[i] as int, a[w] as int));
        }
    }
}

/// The indices of `keys` in the order of the keys: by the first part, then
/// by the second, and entries with the same key in the order they have.
pub open spec fn order_of(keys: Seq<(i64, i64)>) -> Seq<usize> {
    choose|order: Seq<usize>| is_order(keys, order)
}

/// The indices of `keys` in the order of the keys: by the first part, then
/// by the second, and entries with the same key in the order they have.
pub fn sorted_order(keys: &Vec<(i64, i64)>) -> (order: Vec<usize>)
    ensures
        is_order(keys@, order@),
        order@ == order_of(keys@),
{
    let mut order: Vec<usize> = Vec::new();
    let mut k: usize = 0;
    while k < keys.len()
        invariant
            0 <= k <= keys@.len(),
            order@.len() == k,
            forall|i: int| 0 <= i < order@.len() ==> (#[trigger] order@[i]) < k,
            forall|i: int, j: int|
                0 <= i < j < order@.len() ==> before(
                    keys@,
                    #[trigger] order@[i] as int,
                    #[trigger] order@[j] as int,
                ),
            forall|x: int| 0 <= x < k ==> #[trigger] names(order@, x),
        decreases keys@.len() - k,
    {
        let key = keys[k];
        let mut p: usize = order.len();
        while p > 0 && (key.0 < keys[order[p - 1]].0 || (key.0 == keys[order[p - 1]].0 && key.1
            < keys[order[p - 1]].1))
            invariant
                0 <= p <= order@.len(),
                order@.len() == k,
                k < keys@.len(),
                key == keys@[k as int],
                forall|i: int| 0 <= i < order@.len() ==> (#[trigger] order@[i]) < k,
                forall|i: int| p <= i < order@.len() ==> before(keys@, k as int, #[trigger] order@[i] as int),
            decreases p,
        {
            p -= 1;
        }
        let ghost old_order = order@;
        order.insert(p, k);
        proof {
            let new_order = order@;
            assert forall|i: int, j: int| 0 <= i < j < new_order.len() implies before(
                keys@,
                #[trigger] new_order[i] as int,
                #[trigger] new_order[j] as int,
            ) by {
                if j < p {
                    assert(new_order[i] == old_order[i] && new_order[j] == old_order[j]);
                } else if j == p {
                    assert(new_order[i] == old_order[i]);
                    if p > 0 {
                        assert(before(keys@, old_order[i] as int, old_order[p - 1] as int) || i == p
                            - 1);
                    }
                } else if i < p {
                    assert(new_order[i] == old_order[i] && new_order[j] == old_order[j - 1]);
                } else if i == p {
                    assert(new_order[j] == old_order[j - 1]);
                } else {
                    assert(new_order[i] == old_order[i - 1] && new_order[j] == old_order[j - 1]);
                }
            }
            assert forall|x: int| 0 <= x < k + 1 implies #[trigger] names(new_order, x) by {
                if x < k {
                    assert(names(old_order, x));
                    let i = choose|i: int| 0 <= i < old_order.len() && #[trigger] old_order[i] == x;
                    if i < p {
                        assert(new_order[i] == x);
                    } else {
                        assert(new_order[i + 1] == x);
                    }
                } else {
                    assert(new_order[p as int] == x);
                }
            }
            assert forall|i: int| 0 <= i < new_order.len() implies (#[trigger] new_order[i]) < k
                + 1 by {
                if i < p {
                    assert(new_order[i] == old_order[i]);
                } else if i > p {
                    assert(new_order[i] == old_order[i - 1]);
                }
            }
        }
        k += 1;
    }
    proof {
        lemma_order_unique(keys@, order@, order_of(keys@), keys@.len() as int);
        assert(order@ =~= order_of(keys@));
    }
    order
}

/// A tempo from a point in time on.
#[derive(Debug, Clone, Copy)]
pub struct RawTempoPoint {
    pub nanos: i64,
    /// Microseconds per quarter.
    pub mpq: u32,
}

/// A tempo from a point in time on, with the tick at which that point
/// lies.
#[derive(Debug, Clone, Copy)]
pub struct TempoPoint {
    pub nanos: i64,
    pub mpq: u32,
    pub start_tick: u64,
}

/// A time signature from a point in time on.
#[derive(Debug, Clone, Copy)]
pub struct MetaPoint {
    pub nanos: i64,
    pub numerator: u8,
    pub denominator: u8,
}

/// What is wrong with an event that sets the tempo or the time signature,
/// if anything is.
pub open spec fn meta_error(e: CompileEvent) -> Option<ExportError> {
    match e.body {
        EventBody::BeatDurationDef(beat) => if (beat.0 > 0 && beat.1 > 0) || (beat.0 < 0 && beat.1
            < 0) {
            None
        } else {
            Some(ExportError::TempoNotPositive)
        },
        EventBody::BPMDef(bpm) => if bpm.0 > 0 {
            None
        } else {
            Some(ExportError::TempoNotPositive)
        },
        EventBody::TimeSignatureDef(ts) => if ts.0 <= 0 || ts.1 <= 0 {
            Some(ExportError::TimeSignatureNotPositive)
        } else if !is_power_of_two(ts.1 as int) {
            Some(ExportError::TimeSignatureNotPowerOfTwo)
        } else if ts.0 > 255 || ts.1 > 255 {
            Some(ExportError::TimeSignatureOutOfRange)
        } else {
            None
        },
        _ => None,
    }
}

/// The tempo points rise in time, start no later than at zero, and each
/// has a tempo that a MIDI file can say.
pub open spec fn tempo_map(points: Seq<RawTempoPoint>) -> bool {
    &&& points.len() >= 1
    &&& points[0].nanos <= 0
    &&& forall|i: int| 0 <= i < points.len() ==> 1 <= (#[trigger] points[i]).mpq <= 16_777_215
    &&& forall|i: int, j: int|
        0 <= i < j < points.len() ==> (#[trigger] points[i]).nanos < (#[trigger] points[j]).nanos
}

/// The time signatures are in the order of their times, and each is one
/// that a MIDI file can say.
pub open spec fn signatures_ok(points: Seq<MetaPoint>) -> bool {
    &&& forall|i: int|
        0 <= i < points.len() ==> (#[trigger] points[i]).numerator >= 1 && is_power_of_two(
            points[i].denominator as int,
        )
    &&& forall|i: int, j: int|
        0 <= i < j < points.len() ==> (#[trigger] points[i]).nanos <= (#[trigger] points[j]).nanos
}

/// The start times of `events` as keys for putting them in order.
pub fn start_keys(events: &Vec<CompileEvent>) -> (keys: Vec<(i64, i64)>)
    ensures
        keys@.len() == events@.len(),
        forall|i: int|
            0 <= i < keys@.len() ==> #[trigger] keys@[i] == (events@[i].start_time.nanos, 0i64),
{
    let mut keys: Vec<(i64, i64)> = Vec::new();
    let mut i: usize = 0;
    while i < events.len()
        invariant
            0 <= i <= events@.len(),
            keys@.len() == i,
            forall|j: int| 0 <= j < i ==> #[trigger] keys@[j] == (events@[j].start_time.nanos, 0i64),
        decreases events@.len() - i,
    {
        keys.push((events[i].start_time.nanos, 0));
        i += 1;
    }
    keys
}

/// The times of tempo points as keys for putting them in order.
pub open spec fn tempo_keys(raw: Seq<RawTempoPoint>) -> Seq<(i64, i64)> {
    Seq::new(raw.len(), |i: int| (raw[i].nanos, 0i64))
}

/// The first `k` tempo points along `order`, where a point takes the place
/// of the one before it if both lie at the same time.
pub open spec fn settled(raw: Seq<RawTempoPoint>, order: Seq<usize>, k: int) -> Seq<RawTempoPoint>
    decreases k,
{
    if k <= 0 {
        Seq::empty()
    } else {
        let so_far = settled(raw, order, k - 1);
        let point = raw[order[k - 1] as int];
        if so_far.len() > 0 && so_far.last().nanos == point.nanos {
            so_far.drop_last().push(point)
        } else {
            so_far.push(point)
        }
    }
}

/// The tempo points in the order of their times; of several at one time
/// the last one holds.
pub open spec fn tempos_in_order(raw: Seq<RawTempoPoint>) -> Seq<RawTempoPoint> {
    settled(raw, order_of(tempo_keys(raw)), raw.len() as int)
}

/// The tempo points in the order of their times; of several at one time
/// the last one holds.
pub fn order_tempos(raw: &Vec<RawTempoPoint>) -> (points: Vec<RawTempoPoint>)
    requires
        raw@.len() >= 1,
        raw@[0].nanos == 0,
        forall|i: int| 0 <= i < raw@.len() ==> 1 <= (#[trigger] raw@[i]).mpq <= 16_777_215,
    ensures
        points@ == tempos_in_order(raw@),
        tempo_map(points@),
        points@.len() <= raw@.len(),
{
    let mut keys: Vec<(i64, i64)> = Vec::new();
    let mut i: usize = 0;
    while i < raw.len()
        invariant
            0 <= i <= raw@.len(),
            keys@.len() == i,
            forall|j: int| 0 <= j < i ==> #[trigger] keys@[j] == (raw@[j].nanos, 0i64),
        decreases raw@.len() - i,
    {
        keys.push((raw[i].nanos, 0));
        i += 1;
    }
    let order = sorted_order(&keys);
    let mut points: Vec<RawTempoPoint> = Vec::new();
    let mut k: usize = 0;
    proof {
        assert(keys@ =~= tempo_keys(raw@));
        assert(names(order@, 0));
        let at = choose|x: int| 0 <= x < order@.len() && #[trigger] order@[x] == 0;
        if at > 0 {
            assert(before(keys@, order@[0] as int, order@[at] as int));
        }
    }
    while k < order.len()
        invariant
            0 <= k <= order@.len(),
            is_order(keys@, order@),
            keys@.len() == raw@.len(),
            raw@.len() >= 1,
            forall|j: int| 0 <= j < keys@.len() ==> #[trigger] keys@[j] == (raw@[j].nanos, 0i64),
            forall|i: int| 0 <= i < raw@.len() ==> 1 <= (#[trigger] raw@[i]).mpq <= 16_777_215,
            raw@[order@[0] as int].nanos <= 0,
            (k == 0) == (points@.len() == 0),
            points@.len() <= k,
            k > 0 ==> points@[0].nanos == raw@[order@[0] as int].nanos,
            k > 0 ==> points@.last().nanos == raw@[order@[k - 1] as int].nanos,
            points@ == settled(raw@, order@, k as int),
            forall|i: int| 0 <= i < points@.len() ==> 1 <= (#[trigger] points@[i]).mpq <= 16_777_215,
            forall|i: int, j: int|
                0 <= i < j < points@.len() ==> (#[trigger] points@[i]).nanos
                    < (#[trigger] points@[j]).nanos,
        decreases order@.len() - k,
    {
        let point = raw[order[k]];
        proof {
            if k > 0 {
                assert(before(keys@, order@[k - 1] as int, order@[k as int] as int));
            }
        }
        if points.len() > 0 && points[points.len() - 1].nanos == point.nanos {
            let last = points.len() - 1;
            let ghost so_far = points@;
            points.set(last, point);
            assert(points@ =~= so_far.drop_last().push(point));
        } else {
            let ghost seen = points@;
            points.push(point);
            proof {
                assert forall|i: int, j: int| 0 <= i < j < points@.len() implies (
                #[trigger] points@[i]).nanos < (#[trigger] points@[j]).nanos by {
                    if j < seen.len() {
                        assert(seen[i].nanos < seen[j].nanos);
                    } else if i < seen.len() - 1 {
                        assert(seen[i].nanos < seen[seen.len() - 1].nanos);
                    }
                }
            }
        }
        k += 1;
    }
    points
}

/// What a walk through the events of a score has found: the beat and the
/// beats a minute in force, the tempo points and the time signatures so
/// far, and what is wrong with the first event that cannot be written.
pub struct TempoWalk {
    pub beat: Rational32,
    pub bpm: Decimal,
    pub raw: Seq<RawTempoPoint>,
    pub signatures: Seq<MetaPoint>,
    pub error: Option<ExportError>,
}

/// The start times of events as keys for putting them in order.
pub open spec fn time_keys(events: Seq<CompileEvent>) -> Seq<(i64, i64)> {
    Seq::new(events.len(), |i: int| (events[i].start_time.nanos, 0i64))
}

/// The walk through the first `k` events along `order`. It starts with a
/// quarter as the beat and 120 beats a minute, and stops at the first event
/// that cannot be written. An event that sets the beat or the beats a
/// minute gives one more tempo point, a time signature one more
/// signature.
pub open spec fn tempo_walk(events: Seq<CompileEvent>, order: Seq<usize>, k: int) -> TempoWalk
    decreases k,
{
    if k <= 0 {
        TempoWalk {
            beat: Rational32(1, 4),
            bpm: Decimal(120_000_000_000),
            raw: seq![(RawTempoPoint { nanos: 0, mpq: 500_000 })],
            signatures: Seq::empty(),
            error: None,
        }
    } else {
        let w = tempo_walk(events, order, k - 1);
        let e = events[order[k - 1] as int];
        if w.error is Some {
            w
        } else if meta_error(e) is Some {
            TempoWalk { error: meta_error(e), ..w }
        } else {
            match e.body {
                EventBody::BeatDurationDef(beat) => TempoWalk {
                    beat,
                    raw: w.raw.push(
                        RawTempoPoint {
                            nanos: e.start_time.nanos,
                            mpq: mpq_of(w.bpm, beat) as u32,
                        },
                    ),
                    ..w
                },
                EventBody::BPMDef(bpm) => TempoWalk {
                    bpm,
                    raw: w.raw.push(
                        RawTempoPoint {
                            nanos: e.start_time.nanos,
                            mpq: mpq_of(bpm, w.beat) as u32,
                        },
                    ),
                    ..w
                },
                EventBody::TimeSignatureDef(ts) => TempoWalk {
                    signatures: w.signatures.push(
                        MetaPoint {
                            nanos: e.start_time.nanos,
                            numerator: ts.0 as u8,
                            denominator: ts.1 as u8,
                        },
                    ),
                    ..w
                },
                _ => w,
            }
        }
    }
}

/// The walk through all the events of a score, in the order of their
/// times.
pub open spec fn tempo_changes(events: Seq<CompileEvent>) -> TempoWalk {
    tempo_walk(events, order_of(time_keys(events)), events.len() as int)
}

/// A walk that has stopped stays where it is.
pub proof fn lemma_walk_stopped(events: Seq<CompileEvent>, order: Seq<usize>, k: int, n: int)
    requires
        0 <= k <= n,
        tempo_walk(events, order, k).error is Some,
    ensures
        tempo_walk(events, order, n) == tempo_walk(events, order, k),
    decreases n - k,
{
    if k < n {
        lemma_walk_stopped(events, order, k, n - 1);
    }
}

/// The tempo points and the time signatures of a score. The tempo is 120
/// quarters a minute to begin with; every event that sets the beats a
/// minute or the beat gives a tempo point, and of several at one time the
/// last one holds. Every time signature has to have positive parts that fit
/// a byte and a power of two below; the first event in time that is wrong
/// gives the error.
pub fn collect_tempo_and_signature(events: &Vec<CompileEvent>) -> (r: Result<
    (Vec<RawTempoPoint>, Vec<MetaPoint>),
    ExportError,
>)
    ensures
        match r {
            Ok(maps) => tempo_changes(events@).error is None && maps.0@ == tempos_in_order(
                tempo_changes(events@).raw,
            ) && maps.1@ == tempo_changes(events@).signatures,
            Err(e) => tempo_changes(events@).error == Some(e),
        },
        r is Ok <==> forall|i: int| 0 <= i < events@.len() ==> meta_error(#[trigger] events@[i]) is None,
        r matches Err(e) ==> exists|i: int|
            0 <= i < events@.len() && meta_error(#[trigger] events@[i]) == Some(e),
        r matches Ok(maps) ==> tempo_map(maps.0@) && signatures_ok(maps.1@),
{
    let keys = start_keys(events);
    let order = sorted_order(&keys);
    let mut beat_duration = Rational32(1, 4);
    let mut bpm = Decimal(120_000_000_000);
    let mut raw: Vec<RawTempoPoint> = Vec::new();
    raw.push(RawTempoPoint { nanos: 0, mpq: 500_000 });
    let mut time_sigs: Vec<MetaPoint> = Vec::new();
    let mut k: usize = 0;
    proof {
        assert(keys@ =~= time_keys(events@));
    }
    while k < order.len()
        invariant
            0 <= k <= order@.len(),
            is_order(keys@, order@),
            order@ == order_of(time_keys(events@)),
            tempo_walk(events@, order@, k as int) == (TempoWalk {
                beat: beat_duration,
                bpm,
                raw: raw@,
                signatures: time_sigs@,
                error: None,
            }),
            keys@.len() == events@.len(),
            forall|i: int|
                0 <= i < keys@.len() ==> #[trigger] keys@[i] == (events@[i].start_time.nanos, 0i64),
            tempo_positive(beat_duration, bpm),
            signatures_ok(time_sigs@),
            forall|i: int| 0 <= i < k ==> meta_error(events@[#[trigger] order@[i] as int]) is None,
            raw@.len() >= 1,
            raw@[0].nanos == 0,
            forall|i: int| 0 <= i < raw@.len() ==> 1 <= (#[trigger] raw@[i]).mpq <= 16_777_215,
            time_sigs@.len() <= k,
            k > 0 && time_sigs@.len() > 0 ==> time_sigs@.last().nanos <= keys@[order@[k
                - 1] as int].0,
        decreases order@.len() - k,
    {
        let event = &events[order[k]];
        let at = event.start_time.nanos;
        proof {
            if k > 0 {
                assert(before(keys@, order@[k - 1] as int, order@[k as int] as int));
            }
        }
        let mut changed = false;
        match event.body {
            EventBody::BeatDurationDef(dur) => {
                if !((dur.0 > 0 && dur.1 > 0) || (dur.0 < 0 && dur.1 < 0)) {
                    proof {
                        lemma_walk_stopped(events@, order@, k + 1, events@.len() as int);
                    }
                    return Err(ExportError::TempoNotPositive);
                }
                beat_duration = dur;
                changed = true;
            },
            EventBody::BPMDef(next_bpm) => {
                if next_bpm.0 <= 0 {
                    proof {
                        lemma_walk_stopped(events@, order@, k + 1, events@.len() as int);
                    }
                    return Err(ExportError::TempoNotPositive);
                }
                bpm = next_bpm;
                changed = true;
            },
            EventBody::TimeSignatureDef(ts) => {
                if ts.0 <= 0 || ts.1 <= 0 {
                    proof {
                        lemma_walk_stopped(events@, order@, k + 1, events@.len() as int);
                    }
                    return Err(ExportError::TimeSignatureNotPositive);
                }
                if !check_power_of_two(ts.1) {
                    proof {
                        lemma_walk_stopped(events@, order@, k + 1, events@.len() as int);
                    }
                    return Err(ExportError::TimeSignatureNotPowerOfTwo);
                }
                if ts.0 > 255 || ts.1 > 255 {
                    proof {
                        lemma_walk_stopped(events@, order@, k + 1, events@.len() as int);
                    }
                    return Err(ExportError::TimeSignatureOutOfRange);
                }
                let ghost seen = time_sigs@;
                time_sigs.push(
                    MetaPoint { nanos: at, numerator: ts.0 as u8, denominator: ts.1 as u8 },
                );
                proof {
                    assert forall|i: int, j: int| 0 <= i < j < time_sigs@.len() implies (
                    #[trigger] time_sigs@[i]).nanos <= (#[trigger] time_sigs@[j]).nanos by {
                        if j < seen.len() {
                            assert(seen[i].nanos <= seen[j].nanos);
                        } else if seen.len() > 0 {
                            if i < seen.len() - 1 {
                                assert(seen[i].nanos <= seen[seen.len() - 1].nanos);
                            }
                        }
                    }
                }
            },
            _ => {},
        }
        if changed {
            match bpm_beat_to_mpq(bpm, beat_duration) {
                Ok(mpq) => {
                    raw.push(RawTempoPoint { nanos: at, mpq });
                },
                Err(e) => {
                    return Err(e);
                },
            }
        }
        k += 1;
    }
    proof {
        assert forall|i: int| 0 <= i < events@.len() implies meta_error(
            #[trigger] events@[i],
        ) is None by {
            assert(names(order@, i));
            let x = choose|x: int| 0 <= x < order@.len() && #[trigger] order@[x] == i;
        }
    }
    Ok((order_tempos(&raw), time_sigs))
}

/// `a + b`, held to 64 bits.
pub open spec fn capped_sum(a: int, b: int) -> int {
    if a + b > u64::MAX {
        u64::MAX as int
    } else {
        a + b
    }
}

/// The tick at which tempo point `i` lies: the ticks of the stretches
/// before it, each at its own tempo, one after the other.
pub open spec fn start_tick_at(raw: Seq<RawTempoPoint>, tpq: int, i: int) -> int
    decreases i,
{
    if i <= 0 {
        0
    } else {
        capped_sum(
            start_tick_at(raw, tpq, i - 1),
            ticks_of(raw[i].nanos - raw[i - 1].nanos, raw[i - 1].mpq as int, tpq),
        )
    }
}

/// `points` are the tempo points `raw`, each with its tick.
pub open spec fn ticked(points: Seq<TempoPoint>, raw: Seq<RawTempoPoint>, tpq: int) -> bool {
    &&& points.len() == raw.len()
    &&& forall|i: int|
        0 <= i < points.len() ==> (#[trigger] points[i]).nanos == raw[i].nanos && points[i].mpq
            == raw[i].mpq && points[i].start_tick == start_tick_at(raw, tpq, i)
}

/// The tempo points `raw`, each with the tick at which it lies.
pub open spec fn with_ticks(raw: Seq<RawTempoPoint>, tpq: int) -> Seq<TempoPoint> {
    Seq::new(
        raw.len(),
        |i: int|
            TempoPoint {
                nanos: raw[i].nanos,
                mpq: raw[i].mpq,
                start_tick: start_tick_at(raw, tpq, i) as u64,
            },
    )
}

/// The tempo points with the tick at which each lies.
pub fn build_tempo_points(raw_points: &Vec<RawTempoPoint>, tpq: u16) -> (out: Vec<TempoPoint>)
    requires
        forall|i: int| 0 <= i < raw_points@.len() ==> (#[trigger] raw_points@[i]).mpq >= 1,
    ensures
        out@ == with_ticks(raw_points@, tpq as int),
        ticked(out@, raw_points@, tpq as int),
{
    let mut out: Vec<TempoPoint> = Vec::new();
    let mut accum_tick: u64 = 0;
    let mut idx: usize = 0;
    while idx < raw_points.len()
        invariant
            0 <= idx <= raw_points@.len(),
            forall|i: int| 0 <= i < raw_points@.len() ==> (#[trigger] raw_points@[i]).mpq >= 1,
            out@.len() == idx,
            accum_tick == if idx > 0 {
                start_tick_at(raw_points@, tpq as int, idx - 1)
            } else {
                0
            },
            forall|i: int|
                0 <= i < idx ==> (#[trigger] out@[i]).nanos == raw_points@[i].nanos && out@[i].mpq
                    == raw_points@[i].mpq && out@[i].start_tick == start_tick_at(
                    raw_points@,
                    tpq as int,
                    i,
                ),
        decreases raw_points@.len() - idx,
    {
        let point = raw_points[idx];
        if idx > 0 {
            let prev = raw_points[idx - 1];
            let step = stretch_ticks(point.nanos, prev.nanos, prev.mpq, tpq);
            accum_tick = if step > 0xFFFF_FFFF_FFFF_FFFF - accum_tick {
                0xFFFF_FFFF_FFFF_FFFF
            } else {
                accum_tick + step
            };
            assert(accum_tick == start_tick_at(raw_points@, tpq as int, idx as int));
        } else {
            assert(accum_tick == start_tick_at(raw_points@, tpq as int, idx as int));
        }
        out.push(TempoPoint { nanos: point.nanos, mpq: point.mpq, start_tick: accum_tick });
        idx += 1;
    }
    proof {
        assert(out@ =~= with_ticks(raw_points@, tpq as int));
    }
    out
}

/// The ticks from `from` to `to` at a tempo.
pub fn stretch_ticks(to: i64, from: i64, mpq: u32, tpq: u16) -> (t: u64)
    requires
        mpq >= 1,
    ensures
        t == ticks_of(to - from, mpq as int, tpq as int),
{
    let dt = to as i128 - from as i128;
    if dt <= 0 {
        0
    } else if dt <= 0x7FFF_FFFF_FFFF_FFFF {
        seconds_to_ticks_with_mpq(dt as i64, mpq, tpq)
    } else {
        proof {
            assert(0 <= dt * tpq <= 0xFFFF_FFFF_FFFF_FFFF * 0xFFFF) by (nonlinear_arith)
                requires
                    0 < dt <= 0xFFFF_FFFF_FFFF_FFFF,
                    0 <= tpq <= 0xFFFF,
            ;
        }
        let q = super::writer::round_div(dt * tpq as i128, mpq as i128 * 1000);
        if q > 0xFFFF_FFFF_FFFF_FFFF {
            0xFFFF_FFFF_FFFF_FFFF
        } else {
            q as u64
        }
    }
}

/// The tempo point that holds at time `t`, looking from point `i` on: the
/// last one before the first that lies later than `t`.
pub open spec fn holding(points: Seq<TempoPoint>, t: int, i: int, found: int) -> int
    decreases points.len() - i,
{
    if i < 0 || i >= points.len() || points[i].nanos > t {
        found
    } else {
        holding(points, t, i + 1, i)
    }
}

/// The tick at which time `t` lies: the tick of the tempo point that holds
/// at `t`, and the ticks from there to `t` at its tempo. A time before the
/// first point lies at the first point's tick.
pub open spec fn tick_at(points: Seq<TempoPoint>, tpq: int, t: int) -> int {
    if points.len() == 0 {
        0
    } else {
        let base = points[holding(points, t, 0, 0)];
        capped_sum(base.start_tick as int, ticks_of(t - base.nanos, base.mpq as int, tpq))
    }
}

/// The tick at which time `second` lies.
pub fn seconds_to_tick(second: i64, tempo_points: &Vec<TempoPoint>, tpq: u16) -> (tick: u64)
    requires
        forall|i: int| 0 <= i < tempo_points@.len() ==> (#[trigger] tempo_points@[i]).mpq >= 1,
    ensures
        tick == tick_at(tempo_points@, tpq as int, second as int),
{
    if tempo_points.len() == 0 {
        return 0;
    }
    let mut idx: usize = 0;
    let mut i: usize = 0;
    while i < tempo_points.len() && tempo_points[i].nanos <= second
        invariant
            0 <= i <= tempo_points@.len(),
            0 <= idx < tempo_points@.len(),
            holding(tempo_points@, second as int, i as int, idx as int) == holding(
                tempo_points@,
                second as int,
                0,
                0,
            ),
        decreases tempo_points@.len() - i,
    {
        idx = i;
        i += 1;
    }
    let base = tempo_points[idx];
    let step = stretch_ticks(second, base.nanos, base.mpq, tpq);
    if step > 0xFFFF_FFFF_FFFF_FFFF - base.start_tick {
        0xFFFF_FFFF_FFFF_FFFF
    } else {
        base.start_tick + step
    }
}

/// What `holding` finds among points that rise in time: the last point
/// that lies no later than `t`, or the first point if all lie later.
pub proof fn lemma_holding(points: Seq<TempoPoint>, t: int, i: int, found: int)
    requires
        0 <= i <= points.len(),
        0 <= found < points.len(),
        i > 0 ==> found == i - 1 && points[found].nanos <= t,
        i == 0 ==> found == 0,
        forall|a: int, b: int|
            0 <= a < b < points.len() ==> (#[trigger] points[a]).nanos < (#[trigger] points[b]).nanos,
    ensures
        ({
            let h = holding(points, t, i, found);
            &&& 0 <= h < points.len()
            &&& found <= h
            &&& (h > 0 || points[0].nanos <= t) ==> points[h].nanos <= t
            &&& h + 1 < points.len() ==> t < points[h + 1].nanos
        }),
    decreases points.len() - i,
{
    if i < points.len() && points[i].nanos <= t {
        lemma_holding(points, t, i + 1, i);
    } else if i < points.len() {
        if found + 1 < points.len() && found + 1 != i {
            assert(i == 0 && found == 0);
            if 1 < points.len() {
                assert(points[0].nanos < points[1].nanos);
            }
        }
    }
}

/// The tick of a tempo point is where the points before it leave off: the
/// ticks never fall from one point to the next.
pub proof fn lemma_start_ticks_rise(raw: Seq<RawTempoPoint>, tpq: int, i: int, j: int)
    requires
        0 <= i <= j < raw.len(),
        tpq >= 0,
        forall|k: int| 0 <= k < raw.len() ==> (#[trigger] raw[k]).mpq >= 1,
    ensures
        0 <= start_tick_at(raw, tpq, i) <= start_tick_at(raw, tpq, j) <= u64::MAX,
    decreases j,
{
    if j > 0 {
        if i < j {
            lemma_start_ticks_rise(raw, tpq, i, j - 1);
        } else {
            lemma_start_ticks_rise(raw, tpq, i - 1, j - 1);
        }
        assert(ticks_of(raw[j].nanos - raw[j - 1].nanos, raw[j - 1].mpq as int, tpq) >= 0);
    }
}

/// Time never runs backwards in ticks: a later time lies at no earlier
/// tick. Between two tempo points the tick is that of the first point and
/// the ticks of the time since, at the tempo of the first point.
pub proof fn lemma_tick_at_monotone(
    points: Seq<TempoPoint>,
    raw: Seq<RawTempoPoint>,
    tpq: int,
    t1: int,
    t2: int,
)
    requires
        tempo_map(raw),
        ticked(points, raw, tpq),
        tpq >= 0,
        t1 <= t2,
    ensures
        tick_at(points, tpq, t1) <= tick_at(points, tpq, t2),
        ({
            let h = holding(points, t1, 0, 0);
            &&& 0 <= h < points.len()
            &&& tick_at(points, tpq, t1) == capped_sum(
                points[h].start_tick as int,
                ticks_of(t1 - points[h].nanos, points[h].mpq as int, tpq),
            )
            &&& (h > 0 || points[0].nanos <= t1) ==> points[h].nanos <= t1
            &&& h + 1 < points.len() ==> t1 < points[h + 1].nanos
        }),
{
    assert forall|a: int, b: int| 0 <= a < b < points.len() implies (#[trigger] points[a]).nanos
        < (#[trigger] points[b]).nanos by {
        assert(raw[a].nanos < raw[b].nanos);
    }
    lemma_holding(points, t1, 0, 0);
    lemma_holding(points, t2, 0, 0);
    let h1 = holding(points, t1, 0, 0);
    let h2 = holding(points, t2, 0, 0);
    if h1 == h2 {
        lemma_ticks_monotone(t1 - points[h1].nanos, t2 - points[h1].nanos, points[h1].mpq as int, tpq);
    } else {
        // The first time lies before the point that holds at the second.
        assert(h1 < h2) by {
            if h2 < h1 {
                if h2 + 1 < h1 {
                    assert(points[h2 + 1].nanos < points[h1].nanos);
                }
            }
        }
        lemma_start_ticks_rise(raw, tpq, h1 + 1, h2);
        lemma_start_ticks_rise(raw, tpq, h1, h1 + 1);
        lemma_ticks_monotone(
            t1 - points[h1].nanos,
            points[h1 + 1].nanos - points[h1].nanos,
            points[h1].mpq as int,
            tpq,
        );
        lemma_ticks_monotone(0, t2 - points[h2].nanos, points[h2].mpq as int, tpq);
        assert(start_tick_at(raw, tpq, h1 + 1) == capped_sum(
            start_tick_at(raw, tpq, h1),
            ticks_of(raw[h1 + 1].nanos - raw[h1].nanos, raw[h1].mpq as int, tpq),
        ));
    }
}

} // verus!
