//! Markers: the handles with which the grammar opens and closes nodes.

use super::lexer::SyntaxKind;
use super::parser::{abandoned, completed, preceded, Parser};
use super::types::{
    balanced, depth_at, lemma_prefix_counts, lemma_update_counts, rooted, tokens_at, Event,
};
use vstd::prelude::*;

verus! {

/// Makes sure that a marker is completed or abandoned. It is armed when
/// made, and the marker defuses it when it is used up.
#[derive(Debug)]
pub struct DropBomb {
    pub armed: bool,
}

impl DropBomb {
    pub fn new() -> (b: Self)
        ensures
            b.armed,
    {
        DropBomb { armed: true }
    }

    pub fn defuse(&mut self)
        ensures
            !final(self).armed,
    {
        self.armed = false;
    }
}

/// The place of a node that has been started and is not finished yet. The
/// events hold a tombstone there until the marker is completed.
pub struct Marker {
    pos: usize,
    bomb: DropBomb,
}

/// Completing the marker at place 0, the first that a parser gives out,
/// makes the events those of one tree with its root there.
pub proof fn lemma_root_completed(before: Seq<Event>, kind: SyntaxKind)
    requires
        balanced(before),
        before.len() > 0,
        before[0] == Event::Tombstone,
    ensures
        rooted(
            before.update(0, Event::StartNode { kind, forward_parent: None }).push(
                Event::FinishNode,
            ),
        ),
{
    let start = Event::StartNode { kind, forward_parent: None };
    let middle = before.update(0, start);
    let after = middle.push(Event::FinishNode);
    assert forall|k: int| 0 <= k <= after.len() implies #[trigger] depth_at(after, k) >= 0 && (k
        == after.len() ==> depth_at(after, k) == 0) && (1 <= k < after.len() ==> depth_at(
        after,
        k,
    ) >= 1) by {
        if k <= before.len() {
            lemma_prefix_counts(middle, after, k);
            lemma_update_counts(before, 0, start, k);
            assert(depth_at(before, k) >= 0);
        } else {
            lemma_prefix_counts(middle, after, k - 1);
            lemma_update_counts(before, 0, start, k - 1);
        }
    }
    assert forall|i: int| 0 <= i < after.len() implies (#[trigger] after[i] matches Event::StartNode {
        forward_parent: Some(d),
        ..
    } ==> 0 < d && i + d < after.len()) by {
        if 0 < i < before.len() {
            assert(after[i] == before[i]);
        }
    }
}

/// The place of a node that has been completed.
pub struct CompletedMarker {
    pos: usize,
}

impl Marker {
    pub closed spec fn spec_pos(&self) -> int {
        self.pos as int
    }

    /// The marker is one of `parser` and can still be completed: its place
    /// holds a tombstone.
    pub open spec fn pending(&self, parser: &Parser) -> bool {
        0 <= self.spec_pos() < parser.events@.len() && parser.events@[self.spec_pos()]
            == Event::Tombstone
    }

    pub fn new(pos: usize) -> (m: Self)
        ensures
            m.spec_pos() == pos,
    {
        Marker { pos, bomb: DropBomb::new() }
    }

    /// Makes the node: the marker's place becomes the start of a node of
    /// `kind`, which ends after the events recorded so far.
    pub fn complete(self, parser: &mut Parser, kind: SyntaxKind) -> (done: CompletedMarker)
        requires
            old(parser).wf(),
            self.pending(old(parser)),
        ensures
            final(parser).wf(),
            final(parser).tokens == old(parser).tokens,
            final(parser).significant_indices == old(parser).significant_indices,
            final(parser).cursor == old(parser).cursor,
            final(parser).raw_cursor == old(parser).raw_cursor,
            final(parser).errors == old(parser).errors,
            final(parser).events@ == old(parser).events@.update(
                self.spec_pos(),
                Event::StartNode { kind, forward_parent: None },
            ).push(Event::FinishNode),
            final(parser).extends_from(old(parser), self.spec_pos()),
            final(parser)@ == completed(old(parser)@, self.spec_pos(), kind),
            done.spec_pos() == self.spec_pos(),
            done.completed(final(parser)),
    {
        let mut bomb = self.bomb;
        bomb.defuse();
        let ghost before = parser.events@;
        let start = Event::StartNode { kind, forward_parent: None };
        parser.events[self.pos] = start;
        parser.events.push(Event::FinishNode);
        proof {
            let middle = before.update(self.pos as int, start);
            let after = parser.events@;
            assert(after == middle.push(Event::FinishNode));
            assert forall|k: int| 0 <= k <= after.len() implies #[trigger] depth_at(after, k)
                >= 0 && (k == after.len() ==> depth_at(after, k) == 0) by {
                if k <= before.len() {
                    lemma_prefix_counts(middle, after, k);
                    lemma_update_counts(before, self.pos as int, start, k);
                } else {
                    lemma_prefix_counts(middle, after, k - 1);
                    lemma_update_counts(before, self.pos as int, start, k - 1);
                }
            }
            lemma_prefix_counts(middle, after, before.len() as int);
            lemma_update_counts(before, self.pos as int, start, before.len() as int);
        }
        CompletedMarker { pos: self.pos }
    }

    /// Gives the node up: its place is a tombstone again, and nothing else
    /// changes. For a marker that is pending, whose place holds a
    /// tombstone still, the parser is what it was.
    pub fn abandon(self, parser: &mut Parser)
        requires
            old(parser).wf(),
            self.spec_pos() < old(parser).events@.len(),
        ensures
            final(parser)@ == abandoned(old(parser)@, self.spec_pos()),
            final(parser).tokens == old(parser).tokens,
            final(parser).significant_indices == old(parser).significant_indices,
            final(parser).cursor == old(parser).cursor,
            final(parser).raw_cursor == old(parser).raw_cursor,
            final(parser).errors == old(parser).errors,
            self.pending(old(parser)) ==> final(parser).events@ == old(parser).events@
                && final(parser).extends(old(parser)),
    {
        let mut bomb = self.bomb;
        bomb.defuse();
        parser.events[self.pos] = Event::Tombstone;
        proof {
            if self.pending(old(parser)) {
                assert(parser.events@ =~= old(parser).events@);
            }
        }
    }
}

impl CompletedMarker {
    pub closed spec fn spec_pos(&self) -> int {
        self.pos as int
    }

    /// The marker's place holds the start of a node.
    pub open spec fn completed(&self, parser: &Parser) -> bool {
        0 <= self.spec_pos() < parser.events@.len() && parser.events@[self.spec_pos()] is StartNode
    }

    /// Starts a node around the completed one: the new marker's node, once
    /// completed, is opened just before this one.
    pub fn precede(self, parser: &mut Parser) -> (m: Marker)
        requires
            old(parser).wf(),
            self.completed(old(parser)),
            old(parser).events@[self.spec_pos()] matches Event::StartNode {
                forward_parent: None,
                ..
            },
            old(parser).events@.len() - self.spec_pos() <= u32::MAX,
        ensures
            final(parser).wf(),
            final(parser).tokens == old(parser).tokens,
            final(parser).significant_indices == old(parser).significant_indices,
            final(parser).cursor == old(parser).cursor,
            final(parser).raw_cursor == old(parser).raw_cursor,
            final(parser).errors == old(parser).errors,
            final(parser).events@ == old(parser).events@.update(
                self.spec_pos(),
                Event::StartNode {
                    kind: old(parser).events@[self.spec_pos()]->StartNode_kind,
                    forward_parent: Some((old(parser).events@.len() - self.spec_pos()) as u32),
                },
            ).push(Event::Tombstone),
            final(parser)@ == preceded(old(parser)@, self.spec_pos()),
            m.spec_pos() == old(parser).events@.len(),
            m.pending(final(parser)),
    {
        let new_pos = parser.events.len();
        let ghost before = parser.events@;
        let distance = (new_pos - self.pos) as u32;
        let linked = match parser.events[self.pos] {
            Event::StartNode { kind, .. } => Event::StartNode {
                kind,
                forward_parent: Some(distance),
            },
            other => other,
        };
        parser.events[self.pos] = linked;
        parser.events.push(Event::Tombstone);
        proof {
            let middle = before.update(self.pos as int, linked);
            let after = parser.events@;
            assert(after == middle.push(Event::Tombstone));
            assert forall|k: int| 0 <= k <= after.len() implies #[trigger] depth_at(after, k)
                >= 0 && (k == after.len() ==> depth_at(after, k) == 0) by {
                if k <= before.len() {
                    lemma_prefix_counts(middle, after, k);
                    lemma_update_counts(before, self.pos as int, linked, k);
                } else {
                    lemma_prefix_counts(middle, after, k - 1);
                    lemma_update_counts(before, self.pos as int, linked, k - 1);
                }
            }
            lemma_prefix_counts(middle, after, before.len() as int);
            lemma_update_counts(before, self.pos as int, linked, before.len() as int);
        }
        Marker::new(new_pos)
    }
}

} // verus!
