//! Plain data shared by the scanner, the parser and the tree builder.

use super::lexer::SyntaxKind;
use vstd::prelude::*;

verus! {

/// A byte offset into the source.
pub type TextSize = u32;

/// A half-open range of byte offsets.
#[derive(Debug, Clone, Copy, PartialEq, Eq, Structural, Hash)]
pub struct TextRange {
    pub start: u32,
    pub end: u32,
}

impl TextRange {
    /// The range from `start` to `end`.
    pub fn new(start: TextSize, end: TextSize) -> (r: Self)
        requires
            start <= end,
        ensures
            r == (TextRange { start, end }),
    {
        TextRange { start, end }
    }

    /// The empty range at `offset`.
    pub fn empty(offset: TextSize) -> (r: Self)
        ensures
            r == (TextRange { start: offset, end: offset }),
    {
        TextRange { start: offset, end: offset }
    }

    pub fn start(&self) -> (s: TextSize)
        ensures
            s == self.start,
    {
        self.start
    }

    pub fn end(&self) -> (e: TextSize)
        ensures
            e == self.end,
    {
        self.end
    }

    pub fn is_empty(&self) -> (b: bool)
        ensures
            b == (self.start == self.end),
    {
        self.start == self.end
    }
}

impl Default for TextRange {
    fn default() -> (r: Self)
        ensures
            r == (TextRange { start: 0, end: 0 }),
    {
        TextRange { start: 0, end: 0 }
    }
}

/// A token of the source: its kind and the bytes it covers.
#[derive(Debug, Clone, Copy, PartialEq, Eq, Structural)]
pub struct Token {
    pub kind: SyntaxKind,
    pub range: TextRange,
}

/// What the parser records; the tree is built from a sequence of these.
#[derive(Debug, Clone, Copy, PartialEq, Eq, Structural)]
pub enum Event {
    /// Opens a node. `forward_parent` is the distance to a later
    /// `StartNode` that has to be opened before this one.
    StartNode { kind: SyntaxKind, forward_parent: Option<u32> },
    /// Closes the node opened last.
    FinishNode,
    /// Takes the next token into the open node, under `kind` if it is given
    /// and under the token's own kind otherwise.
    Token { kind: Option<SyntaxKind> },
    /// A placeholder that builds nothing.
    Tombstone,
}

/// A syntax error: what went wrong and where.
#[derive(Debug, Clone)]
pub struct ParseError {
    pub message: String,
    pub range: TextRange,
}

impl View for ParseError {
    type V = (Seq<char>, TextRange);

    /// The message as characters, and the range.
    open spec fn view(&self) -> (Seq<char>, TextRange) {
        (self.message@, self.range)
    }
}

impl ParseError {
    pub fn new(message: String, range: TextRange) -> (e: Self)
        ensures
            e.message == message,
            e.range == range,
    {
        ParseError { message, range }
    }
}

/// What an event adds to the number of open nodes.
pub open spec fn delta(e: Event) -> int {
    match e {
        Event::StartNode { .. } => 1,
        Event::FinishNode => -1,
        _ => 0,
    }
}

/// The number of nodes that the first `k` events leave open.
pub open spec fn depth_at(events: Seq<Event>, k: int) -> int
    decreases k,
{
    if k <= 0 {
        0
    } else {
        depth_at(events, k - 1) + delta(events[k - 1])
    }
}

/// The number of `Token` events among the first `k` events.
pub open spec fn tokens_at(events: Seq<Event>, k: int) -> int
    decreases k,
{
    if k <= 0 {
        0
    } else {
        tokens_at(events, k - 1) + if events[k - 1] is Token {
            1int
        } else {
            0int
        }
    }
}

/// No prefix of the events closes more nodes than it opens, the events as
/// a whole close as many as they open, and every forward parent lies within
/// the events.
pub open spec fn balanced(events: Seq<Event>) -> bool {
    &&& depth_at(events, events.len() as int) == 0
    &&& forall|k: int| 0 <= k <= events.len() ==> #[trigger] depth_at(events, k) >= 0
    &&& forall|i: int|
        0 <= i < events.len() ==> (#[trigger] events[i] matches Event::StartNode {
            forward_parent: Some(d),
            ..
        } ==> 0 < d && i + d < events.len())
}

/// The events describe one tree: they are balanced, the first opens the
/// root, and the root is closed by the last.
pub open spec fn rooted(events: Seq<Event>) -> bool {
    &&& balanced(events)
    &&& events.len() >= 2
    &&& events[0] matches Event::StartNode { forward_parent: None, .. }
    &&& forall|k: int| 1 <= k < events.len() ==> #[trigger] depth_at(events, k) >= 1
}

/// Every token event records its token under the token's own kind.
pub open spec fn plain(events: Seq<Event>) -> bool {
    forall|i: int|
        0 <= i < events.len() ==> (#[trigger] events[i] matches Event::Token { kind } ==> kind
            is None)
}

/// Events that agree on the first `k` places agree on what those places
/// count.
pub proof fn lemma_prefix_counts(a: Seq<Event>, b: Seq<Event>, k: int)
    requires
        0 <= k <= a.len(),
        k <= b.len(),
        forall|i: int| 0 <= i < k ==> a[i] == b[i],
    ensures
        depth_at(a, k) == depth_at(b, k),
        tokens_at(a, k) == tokens_at(b, k),
    decreases k,
{
    if k > 0 {
        lemma_prefix_counts(a, b, k - 1);
    }
}

/// What putting `e` at place `pos` does to the counts.
pub proof fn lemma_update_counts(events: Seq<Event>, pos: int, e: Event, k: int)
    requires
        0 <= pos < events.len(),
        0 <= k <= events.len(),
    ensures
        depth_at(events.update(pos, e), k) == depth_at(events, k) + if pos < k {
            delta(e) - delta(events[pos])
        } else {
            0
        },
        (e is Token) == (events[pos] is Token) ==> tokens_at(events.update(pos, e), k)
            == tokens_at(events, k),
    decreases k,
{
    if k > 0 {
        lemma_update_counts(events, pos, e, k - 1);
    }
}

} // verus!
