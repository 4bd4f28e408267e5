//! The buckets of the sustain fold. A sustain holds on to the notes that
//! end where it starts, within a tolerance; so that it need not look at
//! every note, the notes stand in buckets by the time at which they end,
//! one bucket for each stretch as long as the tolerance, and a sustain
//! looks into the bucket of its start and into the two next to it.

use super::compile::{end_nanos, holds_on, sustain_tolerance, sustained};
use super::types::{copy_chain, event_views, CompileEvent, CompileEventView, EventBody, Note};
use std::collections::HashMap;
use vstd::prelude::*;

verus! {

/// The bucket of a point in time: the number of whole tolerances before
/// it.
pub open spec fn bucket_of(nanos: int) -> int {
    nanos / sustain_tolerance()
}

/// The places that a bucket holds; none where there is no such bucket.
pub open spec fn held_in(buckets: Map<i64, Vec<usize>>, key: i64) -> Seq<usize> {
    if buckets.contains_key(key) {
        buckets[key]@
    } else {
        Seq::empty()
    }
}

/// The list `found` names the place `x`.
pub open spec fn names(found: Seq<usize>, x: int) -> bool {
    exists|c: int| 0 <= c < found.len() && #[trigger] found[c] == x
}

/// The bucket `key` holds the place `x`.
pub open spec fn in_bucket(buckets: Map<i64, Vec<usize>>, key: int, x: int) -> bool {
    i64::MIN <= key <= i64::MAX && buckets.contains_key(key as i64) && exists|i: int|
        0 <= i < buckets[key as i64]@.len() && #[trigger] buckets[key as i64]@[i] == x
}

/// Every place in a bucket is a place among `n` events.
pub open spec fn in_range(buckets: Map<i64, Vec<usize>>, n: int) -> bool {
    forall|key: i64, i: int|
        buckets.contains_key(key) && 0 <= i < buckets[key]@.len() ==> (#[trigger] buckets[key]@[i])
            < n
}

/// Each of the first `upto` events that is a note and no sustain stands in
/// the bucket of its end. A bucket may hold more than that: a note that
/// has grown longer is left in the bucket where it stood.
pub open spec fn bucketed(events: Seq<CompileEventView>, buckets: Map<i64, Vec<usize>>, upto: int) -> bool {
    &&& in_range(buckets, events.len() as int)
    &&& forall|x: int|
        0 <= x < upto && x < events.len() && (#[trigger] events[x]).is_plain_note() ==> in_bucket(
            buckets,
            bucket_of(end_nanos(events[x])),
            x,
        )
}

/// A note that ends within the tolerance of a point in time stands in the
/// bucket of that point or in one of the two next to it.
pub proof fn lemma_near_buckets(end: int, start: int)
    requires
        -sustain_tolerance() < end - start < sustain_tolerance(),
    ensures
        bucket_of(start) - 1 <= bucket_of(end) <= bucket_of(start) + 1,
{
}

/// The bucket of a point in time.
pub fn bucket_key(nanos: i128) -> (key: i64)
    requires
        -0x1_0000_0000_0000_0000 <= nanos <= 0x1_0000_0000_0000_0000,
    ensures
        key == bucket_of(nanos as int),
        -184_467_440_737_096 <= key <= 184_467_440_737_096,
{
    // A multiple of the tolerance that makes the number positive.
    let lifted = nanos + 18_446_744_073_709_600_000;
    (lifted / 100_000 - 184_467_440_737_096) as i64
}

/// Where an event ends, in nanoseconds.
pub fn end_of(event: &CompileEvent) -> (end: i128)
    ensures
        end == end_nanos(event@),
        -0x1_0000_0000_0000_0000 <= end <= 0x1_0000_0000_0000_0000,
{
    match &event.body {
        EventBody::Note(note) => event.start_time.nanos as i128 + note.duration_nanos as i128,
        _ => event.start_time.nanos as i128,
    }
}

/// Whether an event is a note and no sustain.
pub fn is_plain(event: &CompileEvent) -> (b: bool)
    ensures
        b == event@.is_plain_note(),
{
    match &event.body {
        EventBody::Note(note) => !note.is_sustain(),
        _ => false,
    }
}

/// Puts the place `x` into the bucket `key`, behind what the bucket
/// holds.
pub fn put_in_bucket(buckets: &mut HashMap<i64, Vec<usize>>, key: i64, x: usize)
    ensures
        final(buckets)@.contains_key(key),
        final(buckets)@[key]@ == held_in(old(buckets)@, key).push(x),
        forall|other: i64|
            other != key ==> (#[trigger] final(buckets)@.contains_key(other))
                == old(buckets)@.contains_key(other) && (old(buckets)@.contains_key(other)
                ==> final(buckets)@[other] == old(buckets)@[other]),
{
    let mut list = match buckets.remove(&key) {
        Some(list) => list,
        None => Vec::new(),
    };
    list.push(x);
    buckets.insert(key, list);
}

/// A bucket with one more place holds what it held, and the place.
pub proof fn lemma_put_keeps(
    before: Map<i64, Vec<usize>>,
    after: Map<i64, Vec<usize>>,
    key: i64,
    x: usize,
    n: int,
)
    requires
        after.contains_key(key),
        after[key]@ == held_in(before, key).push(x),
        forall|other: i64|
            other != key ==> (#[trigger] after.contains_key(other)) == before.contains_key(other)
                && (before.contains_key(other) ==> after[other] == before[other]),
        in_range(before, n),
        x < n,
    ensures
        in_range(after, n),
        in_bucket(after, key as int, x as int),
        forall|k: int, y: int| in_bucket(before, k, y) ==> in_bucket(after, k, y),
{
    assert(after[key]@[held_in(before, key).len() as int] == x);
    assert forall|k: i64, i: int| after.contains_key(k) && 0 <= i < after[k]@.len() implies (
    #[trigger] after[k]@[i]) < n by {
        if k == key {
            if i < held_in(before, key).len() {
                assert(after[k]@[i] == before[k]@[i]);
            }
        } else {
            assert(after[k] == before[k]);
        }
    }
    assert forall|k: int, y: int| in_bucket(before, k, y) implies in_bucket(after, k, y) by {
        let i = choose|i: int|
            0 <= i < before[k as i64]@.len() && #[trigger] before[k as i64]@[i] == y;
        if k as i64 == key {
            assert(after[key]@[i] == y);
        } else {
            assert(after.contains_key(k as i64));
            assert(after[k as i64] == before[k as i64]);
            assert(after[k as i64]@[i] == y);
        }
    }
}

/// The places in the bucket `b` and in the two next to it.
pub fn candidates(buckets: &HashMap<i64, Vec<usize>>, b: i64, n: usize) -> (found: Vec<usize>)
    requires
        -0x4000_0000_0000_0000 < b < 0x4000_0000_0000_0000,
        in_range(buckets@, n as int),
    ensures
        forall|c: int| 0 <= c < found@.len() ==> (#[trigger] found@[c]) < n,
        forall|key: int, x: int|
            b - 1 <= key <= b + 1 && #[trigger] in_bucket(buckets@, key, x) ==> names(found@, x),
{
    let mut found: Vec<usize> = Vec::new();
    let mut key: i64 = b - 1;
    while key <= b + 1
        invariant
            b - 1 <= key <= b + 2,
            -0x4000_0000_0000_0000 < b < 0x4000_0000_0000_0000,
            in_range(buckets@, n as int),
            forall|c: int| 0 <= c < found@.len() ==> (#[trigger] found@[c]) < n,
            forall|k: int, x: int|
                b - 1 <= k < key && #[trigger] in_bucket(buckets@, k, x) ==> names(found@, x),
        decreases b + 2 - key,
    {
        let ghost seen = found@;
        match buckets.get(&key) {
            Some(list) => {
                let mut i: usize = 0;
                while i < list.len()
                    invariant
                        0 <= i <= list@.len(),
                        buckets@.contains_key(key),
                        buckets@[key] == *list,
                        in_range(buckets@, n as int),
                        forall|c: int| 0 <= c < found@.len() ==> (#[trigger] found@[c]) < n,
                        seen.len() <= found@.len(),
                        forall|c: int| 0 <= c < seen.len() ==> #[trigger] found@[c] == seen[c],
                        forall|j: int| 0 <= j < i ==> names(found@, #[trigger] list@[j] as int),
                    decreases list@.len() - i,
                {
                    let ghost held = found@;
                    proof {
                        assert(buckets@[key]@[i as int] < n);
                    }
                    found.push(list[i]);
                    proof {
                        assert(found@[held.len() as int] == list@[i as int]);
                        assert forall|j: int| 0 <= j < i + 1 implies names(
                            found@,
                            #[trigger] list@[j] as int,
                        ) by {
                            if j < i {
                                assert(names(held, list@[j] as int));
                                let c = choose|c: int|
                                    0 <= c < held.len() && #[trigger] held[c] == list@[j];
                                assert(found@[c] == list@[j]);
                            }
                        }
                    }
                    i += 1;
                }
            },
            None => {},
        }
        proof {
            assert forall|k: int, x: int|
                b - 1 <= k < key + 1 && #[trigger] in_bucket(buckets@, k, x) implies names(
                found@,
                x,
            ) by {
                if k < key {
                    assert(names(seen, x));
                    let c = choose|c: int| 0 <= c < seen.len() && #[trigger] seen[c] == x;
                    assert(found@[c] == x);
                } else {
                    let j = choose|j: int|
                        0 <= j < buckets@[key]@.len() && #[trigger] buckets@[key]@[j] == x;
                    assert(names(found@, buckets@[key]@[j] as int));
                }
            }
        }
        key += 1;
    }
    found
}

/// The note `note` of the event `event`, longer by what the sustain
/// `sustain` lasts; `None` where the numbers do not fit.
fn longer(event: &CompileEvent, sustain: &CompileEvent) -> (made: Option<CompileEvent>)
    requires
        holds_on(sustain@, event@),
        sustain@.is_sustain(),
    ensures
        match made {
            Some(e) => e@ == sustained(event@, sustain@) && e@.is_plain_note(),
            None => sustained(event@, sustain@) == event@,
        },
{
    match (&event.body, &sustain.body) {
        (EventBody::Note(note), EventBody::Note(held)) => {
            let nanos = note.duration_nanos as i128 + held.duration_nanos as i128;
            match note.duration.checked_add(held.duration) {
                Some(duration) => {
                    if -0x8000_0000_0000_0000 <= nanos && nanos <= 0x7FFF_FFFF_FFFF_FFFF {
                        Some(
                            CompileEvent {
                                body: EventBody::Note(
                                    Note {
                                        pitch_chain: copy_chain(&note.pitch_chain),
                                        base: note.base,
                                        duration,
                                        duration_nanos: nanos as i64,
                                    },
                                ),
                                start_time: event.start_time,
                                range: event.range,
                                range_invoked: event.range_invoked,
                            },
                        )
                    } else {
                        None
                    }
                },
                None => None,
            }
        },
        _ => None,
    }
}

/// Makes every note longer that the sustain `sustain` holds on to, and
/// says whether there was one. The notes are looked for in the buckets, and
/// a note that has grown is put into the bucket of its new end. `marks`
/// holds, for each event, the last round in which it was held on to;
/// `round` is the number of this one.
pub fn hold(
    current: &mut Vec<CompileEvent>,
    buckets: &mut HashMap<i64, Vec<usize>>,
    marks: &mut Vec<usize>,
    sustain: &CompileEvent,
    round: usize,
) -> (matched: bool)
    requires
        sustain@.is_sustain(),
        old(marks)@.len() == old(current)@.len(),
        forall|x: int| 0 <= x < old(marks)@.len() ==> (#[trigger] old(marks)@[x]) < round,
        bucketed(event_views(old(current)@), old(buckets)@, old(current)@.len() as int),
    ensures
        final(current)@.len() == old(current)@.len(),
        event_views(final(current)@) == event_views(old(current)@).map_values(
            |e: CompileEventView| sustained(e, sustain@),
        ),
        matched == (exists|x: int|
            0 <= x < old(current)@.len() && holds_on(
                sustain@,
                #[trigger] event_views(old(current)@)[x],
            )),
        final(marks)@.len() == old(marks)@.len(),
        forall|x: int| 0 <= x < final(marks)@.len() ==> (#[trigger] final(marks)@[x]) <= round,
        bucketed(event_views(final(current)@), final(buckets)@, final(current)@.len() as int),
{
    let n = current.len();
    let ghost before = event_views(current@);
    let ghost s = sustain@;
    let start = sustain.start_time.nanos;
    let found = candidates(buckets, bucket_key(start as i128), n);
    proof {
        assert forall|x: int| 0 <= x < n && holds_on(s, #[trigger] before[x]) implies names(
            found@,
            x,
        ) by {
            lemma_near_buckets(end_nanos(before[x]), start as int);
            assert(in_bucket(buckets@, bucket_of(end_nanos(before[x])), x));
        }
    }
    let mut matched = false;
    let mut c: usize = 0;
    while c < found.len()
        invariant
            0 <= c <= found@.len(),
            forall|x: int| 0 <= x < n && holds_on(s, #[trigger] before[x]) ==> names(found@, x),
            n == current@.len(),
            n == marks@.len(),
            n == before.len(),
            s == sustain@,
            s.is_sustain(),
            start == s.start_time.nanos,
            forall|i: int| 0 <= i < found@.len() ==> (#[trigger] found@[i]) < n,
            forall|x: int| 0 <= x < n ==> (#[trigger] marks@[x]) <= round,
            forall|x: int|
                0 <= x < n ==> (#[trigger] current@[x])@ == if marks@[x] == round {
                    sustained(before[x], s)
                } else {
                    before[x]
                },
            forall|x: int| 0 <= x < n && #[trigger] marks@[x] == round ==> holds_on(s, before[x]),
            forall|i: int|
                0 <= i < c && holds_on(s, before[(#[trigger] found@[i]) as int]) ==> marks@[found@[i] as int]
                    == round,
            matched == (exists|x: int| 0 <= x < n && #[trigger] marks@[x] == round),
            bucketed(event_views(current@), buckets@, n as int),
        decreases found@.len() - c,
    {
        let x = found[c];
        if marks[x] != round {
            let event = &current[x];
            proof {
                assert(event@ == before[x as int]);
            }
            let gap = end_of(event) - start as i128;
            if is_plain(event) && -100_000 < gap && gap < 100_000 {
                let grown = longer(event, sustain);
                let ghost marked = marks@;
                marks.set(x, round);
                matched = true;
                proof {
                    assert(marks@[x as int] == round);
                }
                match grown {
                    Some(e) => {
                        let key = bucket_key(end_of(&e));
                        let ghost views = event_views(current@);
                        let ghost held = buckets@;
                        current.set(x, e);
                        put_in_bucket(buckets, key, x);
                        proof {
                            lemma_put_keeps(held, buckets@, key, x, n as int);
                            let now = event_views(current@);
                            assert forall|y: int|
                                0 <= y < n && (#[trigger] now[y]).is_plain_note() implies in_bucket(
                                buckets@,
                                bucket_of(end_nanos(now[y])),
                                y,
                            ) by {
                                if y != x {
                                    assert(now[y] == views[y]);
                                    assert(in_bucket(held, bucket_of(end_nanos(views[y])), y));
                                }
                            }
                        }
                    },
                    None => {},
                }
            }
        }
        c += 1;
    }
    proof {
        assert forall|x: int| 0 <= x < n implies event_views(current@)[x] == sustained(
            before[x],
            s,
        ) by {
            if holds_on(s, before[x]) {
                let i = choose|i: int| 0 <= i < found@.len() && #[trigger] found@[i] == x;
                assert(marks@[found@[i] as int] == round);
            }
            assert(event_views(current@)[x] == current@[x]@);
        }
        assert(event_views(current@) =~= before.map_values(
            |e: CompileEventView| sustained(e, s),
        ));
        if exists|x: int| 0 <= x < n && holds_on(s, #[trigger] before[x]) {
            let x = choose|x: int| 0 <= x < n && holds_on(s, #[trigger] before[x]);
            let i = choose|i: int| 0 <= i < found@.len() && #[trigger] found@[i] == x;
            assert(marks@[found@[i] as int] == round);
            assert(marks@[x] == round);
        }
    }
    matched
}

} // verus!
