//! The sink: plays recorded events back into a tree.

use super::lexer::SyntaxKind;
use super::tree::{closed_last, leafed, opened, GreenNode, GreenNodeBuilder, TreeView};
use super::types::{
    balanced, delta, depth_at, lemma_update_counts, plain, rooted, tokens_at, Event, Token,
};
use vstd::prelude::*;

verus! {

pub struct Sink {
    pub tokens: Vec<Token>,
    pub events: Vec<Event>,
    pub builder: GreenNodeBuilder,
    pub token_cursor: usize,
}

/// `cur` is what is left of the events `orig` when some starts of nodes
/// have been taken ahead of their place and replaced by tombstones.
pub open spec fn taken_ahead(cur: Seq<Event>, orig: Seq<Event>) -> bool {
    &&& cur.len() == orig.len()
    &&& forall|i: int|
        0 <= i < cur.len() ==> #[trigger] cur[i] == orig[i] || (cur[i] == Event::Tombstone
            && orig[i] is StartNode)
}

/// With `open` nodes open before event `idx`, the events of `cur` from
/// `idx` on never leave fewer nodes open than `orig` does at the same place,
/// and at the end they leave as many.
pub open spec fn keeps_up(cur: Seq<Event>, orig: Seq<Event>, idx: int, open: int) -> bool {
    &&& forall|k: int|
        idx <= k <= cur.len() ==> open + #[trigger] depth_at(cur, k) - depth_at(cur, idx)
            >= depth_at(orig, k)
    &&& open + depth_at(cur, cur.len() as int) - depth_at(cur, idx) == depth_at(
        orig,
        orig.len() as int,
    )
}

/// Taking starts of nodes ahead changes no count of tokens.
pub proof fn lemma_taken_ahead_tokens(cur: Seq<Event>, orig: Seq<Event>, k: int)
    requires
        taken_ahead(cur, orig),
        0 <= k <= cur.len(),
    ensures
        tokens_at(cur, k) == tokens_at(orig, k),
    decreases k,
{
    if k > 0 {
        lemma_taken_ahead_tokens(cur, orig, k - 1);
    }
}

/// A longer prefix holds at least as many tokens.
pub proof fn lemma_tokens_monotone(events: Seq<Event>, k: int, n: int)
    requires
        0 <= k <= n,
    ensures
        tokens_at(events, k) <= tokens_at(events, n),
        0 <= tokens_at(events, k),
    decreases n,
{
    if k < n {
        lemma_tokens_monotone(events, k, n - 1);
    } else if k > 0 {
        lemma_tokens_monotone(events, k - 1, n - 1);
    }
}

/// The events with the starts of the nodes that a chain of forward parents
/// names replaced by tombstones, and the kinds of those nodes behind
/// `kinds`, the nearest first. The chain goes on from event `at`, whose
/// forward parent is `next`.
pub open spec fn ahead(events: Seq<Event>, at: int, next: Option<u32>, kinds: Seq<SyntaxKind>) -> (
    Seq<Event>,
    Seq<SyntaxKind>,
)
    decreases events.len() - at,
{
    match next {
        Some(d) => if d > 0 && 0 <= at && at + d < events.len() {
            match events[at + d] {
                Event::StartNode { kind, forward_parent } => ahead(
                    events.update(at + d, Event::Tombstone),
                    at + d,
                    forward_parent,
                    kinds.push(kind),
                ),
                _ => (events, kinds),
            }
        } else {
            (events, kinds)
        },
        None => (events, kinds),
    }
}

/// The tree with nodes of the last `k` of `kinds` opened, the last of
/// them first.
pub open spec fn opened_from(t: TreeView, kinds: Seq<SyntaxKind>, k: int) -> TreeView
    decreases k,
{
    if k <= 0 {
        t
    } else {
        opened(opened_from(t, kinds, k - 1), kinds[kinds.len() - k])
    }
}

/// Where the playback stands: the events, with the starts that were
/// taken ahead replaced by tombstones, and the tree so far.
pub struct Play {
    pub events: Seq<Event>,
    pub tree: TreeView,
}

/// The playback after the first `k` events. The start of a node opens the
/// nodes that its chain of forward parents names, the last of the chain
/// first, and then the node itself; a token is the next leaf, under the
/// kind that the event gives or under its own; the end of a node closes
/// the node opened last.
pub open spec fn played(events: Seq<Event>, tokens: Seq<Token>, k: int) -> Play
    decreases k,
{
    if k <= 0 {
        Play {
            events,
            tree: TreeView { nodes: Seq::empty(), tokens: Seq::empty(), stack: Seq::empty() },
        }
    } else {
        let p = played(events, tokens, k - 1);
        match p.events[k - 1] {
            Event::StartNode { kind, forward_parent } => {
                let a = ahead(p.events, k - 1, forward_parent, seq![kind]);
                Play { events: a.0, tree: opened_from(p.tree, a.1, a.1.len() as int) }
            },
            Event::FinishNode => Play { tree: closed_last(p.tree), ..p },
            Event::Token { kind } => {
                let token = tokens[p.tree.tokens.len() as int];
                Play {
                    tree: leafed(
                        p.tree,
                        Token {
                            kind: match kind {
                                Some(k) => k,
                                None => token.kind,
                            },
                            range: token.range,
                        },
                    ),
                    ..p
                }
            },
            Event::Tombstone => p,
        }
    }
}

/// The tree that the events describe over the tokens.
pub open spec fn tree_of(events: Seq<Event>, tokens: Seq<Token>) -> TreeView {
    played(events, tokens, events.len() as int).tree
}

impl Sink {
    pub fn new(tokens: Vec<Token>, events: Vec<Event>) -> (s: Self)
        ensures
            s.tokens == tokens,
            s.events == events,
            s.token_cursor == 0,
            s.builder.wf(),
            s.builder.nodes@.len() == 0,
            s.builder.tokens@.len() == 0,
            s.builder.stack@.len() == 0,
    {
        Sink { tokens, events, builder: GreenNodeBuilder::new(), token_cursor: 0 }
    }

    /// The tree that the events describe. Its leaves are the tokens, in
    /// their order and with their ranges; a leaf stands under the kind that
    /// its event gives, or under the token's own.
    pub fn finish(self) -> (tree: GreenNode)
        requires
            rooted(self.events@),
            tokens_at(self.events@, self.events@.len() as int) == self.tokens@.len(),
            self.tokens@.len() < usize::MAX,
            self.token_cursor == 0,
            self.builder.wf(),
            self.builder.nodes@.len() == 0,
            self.builder.tokens@.len() == 0,
            self.builder.stack@.len() == 0,
        ensures
            tree.wf(),
            tree.tokens@.len() == self.tokens@.len(),
            forall|t: int|
                0 <= t < self.tokens@.len() ==> (#[trigger] tree.tokens@[t]).range
                    == self.tokens@[t].range,
            plain(self.events@) ==> tree.tokens@ == self.tokens@,
            tree.nodes@[0].kind == self.events@[0]->StartNode_kind,
            tree@ == tree_of(self.events@, self.tokens@),
    {
        let mut sink = self;
        let ghost orig = sink.events@;
        let n = sink.events.len();
        let mut idx: usize = 0;
        proof {
            assert(keeps_up(orig, orig, 0, 0));
            assert(sink.builder@.nodes =~= Seq::empty());
            assert(sink.builder@.tokens =~= Seq::empty());
            assert(sink.builder@.stack =~= Seq::empty());
        }
        while idx < n
            invariant
                0 <= idx <= n,
                n == orig.len(),
                orig == self.events@,
                rooted(orig),
                sink.tokens == self.tokens,
                sink.tokens@.len() < usize::MAX,
                tokens_at(orig, n as int) == sink.tokens@.len(),
                taken_ahead(sink.events@, orig),
                keeps_up(sink.events@, orig, idx as int, sink.builder.depth()),
                (Play { events: sink.events@, tree: sink.builder@ }) == played(
                    orig,
                    sink.tokens@,
                    idx as int,
                ),
                sink.builder.wf(),
                sink.builder.leaves() == sink.token_cursor,
                sink.token_cursor == tokens_at(orig, idx as int),
                (idx == 0) == (sink.builder.nodes@.len() == 0),
                idx > 0 ==> sink.builder.nodes@[0].kind == orig[0]->StartNode_kind,
                forall|t: int|
                    0 <= t < sink.token_cursor ==> (#[trigger] sink.builder.tokens@[t]).range
                        == sink.tokens@[t].range,
                plain(orig) ==> forall|t: int|
                    0 <= t < sink.token_cursor ==> #[trigger] sink.builder.tokens@[t]
                        == sink.tokens@[t],
            decreases n - idx,
        {
            let event = sink.events[idx];
            let ghost cur = sink.events@;
            let ghost open = sink.builder.depth();
            proof {
                lemma_taken_ahead_tokens(cur, orig, idx as int);
                lemma_taken_ahead_tokens(cur, orig, idx + 1);
                lemma_tokens_monotone(orig, idx + 1, n as int);
                assert(depth_at(cur, idx + 1) == depth_at(cur, idx as int) + delta(cur[idx as int]));
                assert(open + depth_at(cur, idx as int) - depth_at(cur, idx as int) >= depth_at(
                    orig,
                    idx as int,
                ));
                assert(open + depth_at(cur, idx + 1) - depth_at(cur, idx as int) >= depth_at(
                    orig,
                    idx + 1,
                ));
                assert(depth_at(orig, idx + 1) >= 0);
                if idx > 0 {
                    assert(depth_at(orig, idx as int) >= 1);
                }
            }
            match event {
                Event::StartNode { kind, forward_parent } => {
                    sink.start_with_forward_parents(idx, kind, forward_parent, Ghost(orig));
                },
                Event::FinishNode => {
                    sink.builder.finish_node();
                },
                Event::Token { kind } => {
                    let token = sink.tokens[sink.token_cursor];
                    sink.token_cursor += 1;
                    let final_kind = match kind {
                        Some(k) => k,
                        None => token.kind,
                    };
                    sink.builder.token(Token { kind: final_kind, range: token.range });
                },
                Event::Tombstone => {},
            }
            idx += 1;
        }
        proof {
            assert(sink.builder.depth() + depth_at(sink.events@, n as int) - depth_at(
                sink.events@,
                n as int,
            ) == depth_at(orig, n as int));
            if plain(orig) {
                assert(sink.builder.tokens@ =~= sink.tokens@);
            }
        }
        sink.builder.finish()
    }

    /// Opens the node that starts at event `idx`, after the nodes that its
    /// chain of forward parents names: the last of the chain first.
    fn start_with_forward_parents(
        &mut self,
        idx: usize,
        kind: SyntaxKind,
        forward_parent: Option<u32>,
        Ghost(orig): Ghost<Seq<Event>>,
    )
        requires
            balanced(orig),
            taken_ahead(old(self).events@, orig),
            0 <= idx < orig.len(),
            old(self).events@[idx as int] == (Event::StartNode { kind, forward_parent }),
            keeps_up(old(self).events@, orig, idx as int, old(self).builder.depth()),
            old(self).builder.wf(),
            old(self).builder.depth() > 0 || old(self).builder.nodes@.len() == 0,
        ensures
            final(self).tokens == old(self).tokens,
            final(self).token_cursor == old(self).token_cursor,
            taken_ahead(final(self).events@, orig),
            keeps_up(final(self).events@, orig, idx + 1, final(self).builder.depth()),
            final(self).builder.wf(),
            final(self).builder.tokens == old(self).builder.tokens,
            ({
                let a = ahead(old(self).events@, idx as int, forward_parent, seq![kind]);
                final(self).events@ == a.0 && final(self).builder@ == opened_from(
                    old(self).builder@,
                    a.1,
                    a.1.len() as int,
                )
            }),
            final(self).builder.nodes@.len() > old(self).builder.nodes@.len(),
            final(self).builder.depth() > 0,
            forall|i: int|
                0 <= i < old(self).builder.nodes@.len() ==> (
                #[trigger] final(self).builder.nodes@[i]).kind == old(self).builder.nodes@[i].kind,
            old(self).builder.nodes@.len() == 0 && forward_parent is None ==> final(self).builder.nodes@[0].kind == kind,
    {
        let mut kinds: Vec<SyntaxKind> = Vec::new();
        kinds.push(kind);
        let n = self.events.len();
        let ghost open = self.builder.depth();
        let mut at = idx;
        let mut next = forward_parent;
        let ghost total = ahead(self.events@, idx as int, forward_parent, seq![kind]);
        proof {
            assert(kinds@ =~= seq![kind]);
        }
        loop
            invariant
                ahead(self.events@, at as int, next, kinds@) == total,
                balanced(orig),
                n == orig.len(),
                idx <= at < n,
                taken_ahead(self.events@, orig),
                self.events@[idx as int] == (Event::StartNode { kind, forward_parent }),
                next matches Some(d) ==> 0 < d && at + d < n,
                kinds@.len() >= 1,
                kinds@[0] == kind,
                forward_parent is None ==> next is None && kinds@.len() == 1,
                self.tokens == old(self).tokens,
                self.token_cursor == old(self).token_cursor,
                self.builder == old(self).builder,
                keeps_up(self.events@, orig, idx as int, open + kinds@.len() - 1),
            ensures
                next is None,
            decreases n - at,
        {
            let steps = match next {
                Some(steps) => steps,
                None => {
                    break ;
                },
            };
            at = at + steps as usize;
            let event = self.events[at];
            match event {
                Event::StartNode { kind: outer, forward_parent: further } => {
                    let ghost cur = self.events@;
                    self.events[at] = Event::Tombstone;
                    kinds.push(outer);
                    next = further;
                    proof {
                        let after = self.events@;
                        assert(after == cur.update(at as int, Event::Tombstone));
                        assert(cur[at as int] == orig[at as int]);
                        assert forall|k: int| idx <= k <= after.len() implies open + kinds@.len()
                            - 1 + #[trigger] depth_at(after, k) - depth_at(after, idx as int)
                            >= depth_at(orig, k) by {
                            lemma_update_counts(cur, at as int, Event::Tombstone, k);
                            lemma_update_counts(cur, at as int, Event::Tombstone, idx as int);
                            assert(open + kinds@.len() - 2 + depth_at(cur, k) - depth_at(
                                cur,
                                idx as int,
                            ) >= depth_at(orig, k));
                        }
                        lemma_update_counts(cur, at as int, Event::Tombstone, after.len() as int);
                        lemma_update_counts(cur, at as int, Event::Tombstone, idx as int);
                    }
                },
                _ => {
                    next = None;
                    break ;
                },
            }
        }
        let ghost cur = self.events@;
        let count = kinds.len();
        let mut i = count;
        while i > 0
            invariant
                0 <= i <= count,
                self.builder@ == opened_from(old(self).builder@, kinds@, count - i),
                count == kinds@.len(),
                count >= 1,
                kinds@[0] == kind,
                self.events@ == cur,
                self.tokens == old(self).tokens,
                self.token_cursor == old(self).token_cursor,
                self.builder.wf(),
                self.builder.tokens == old(self).builder.tokens,
                self.builder.depth() == open + (count - i),
                self.builder.nodes@.len() == old(self).builder.nodes@.len() + (count - i),
                open >= 0,
                open > 0 || old(self).builder.nodes@.len() == 0,
                forall|j: int|
                    0 <= j < old(self).builder.nodes@.len() ==> (
                    #[trigger] self.builder.nodes@[j]).kind == old(self).builder.nodes@[j].kind,
                old(self).builder.nodes@.len() == 0 && i < count ==> self.builder.nodes@[0].kind
                    == kinds@[count - 1],
            decreases i,
        {
            i -= 1;
            self.builder.start_node(kinds[i]);
        }
        proof {
            assert forall|k: int| idx + 1 <= k <= cur.len() implies self.builder.depth()
                + #[trigger] depth_at(cur, k) - depth_at(cur, idx + 1) >= depth_at(orig, k) by {
                assert(open + count - 1 + depth_at(cur, k) - depth_at(cur, idx as int)
                    >= depth_at(orig, k));
            }
        }
    }
}

} // verus!
