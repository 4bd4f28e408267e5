//! The parser's state: the tokens, a cursor over the tokens that the
//! grammar reads, and the events recorded so far.
//!
//! The grammar sees the tokens that are not trivia. Whenever it takes one,
//! the trivia before it is recorded first, so that the events name every
//! token once and in source order.

use super::lexer::SyntaxKind;
use super::marker::Marker;
use super::marker::lemma_root_completed;
use super::scan::{error_views, errors_of, tokenize, tokens_from};
use super::tree::SyntaxNode;
use super::sink::{tree_of, Sink};
use super::tree::GreenNode;
use super::types::{
    balanced, depth_at, lemma_prefix_counts, plain, rooted, tokens_at, Event, ParseError,
    TextRange, Token,
};
use std::sync::Arc;
use vstd::string::StringSliceAdditionalSpecFns;
use vstd::prelude::*;
use vstd::string::StringExecFns;

verus! {

pub struct Parser {
    pub tokens: Vec<Token>,
    /// The indices of the tokens that are not trivia, rising.
    pub significant_indices: Vec<usize>,
    /// The next place of `significant_indices` to read.
    pub cursor: usize,
    /// The number of tokens recorded so far.
    pub raw_cursor: usize,
    pub events: Vec<Event>,
    pub errors: Vec<ParseError>,
}

/// What a parser holds.
pub struct ParserView {
    pub tokens: Seq<Token>,
    pub significant: Seq<usize>,
    pub cursor: int,
    pub raw_cursor: int,
    pub events: Seq<Event>,
    pub errors: Seq<(Seq<char>, TextRange)>,
}

impl View for Parser {
    type V = ParserView;

    open spec fn view(&self) -> ParserView {
        ParserView {
            tokens: self.tokens@,
            significant: self.significant_indices@,
            cursor: self.cursor as int,
            raw_cursor: self.raw_cursor as int,
            events: self.events@,
            errors: error_views(self.errors@),
        }
    }
}

/// The kind of the `n`-th token ahead that is not trivia.
pub open spec fn peeked(v: ParserView, n: int) -> Option<SyntaxKind> {
    if 0 <= n && v.cursor + n < v.significant.len() {
        Some(v.tokens[v.significant[v.cursor + n] as int].kind)
    } else {
        None
    }
}

/// The parser with one more event; a token event names the next token.
pub open spec fn recorded(v: ParserView, event: Event) -> ParserView {
    ParserView {
        events: v.events.push(event),
        raw_cursor: v.raw_cursor + if event is Token {
            1int
        } else {
            0int
        },
        ..v
    }
}

/// The parser with the tokens before `target` that are not recorded yet
/// recorded, each under its own kind.
pub open spec fn flushed(v: ParserView, target: int) -> ParserView {
    if v.raw_cursor < target {
        ParserView {
            events: v.events + Seq::new(
                (target - v.raw_cursor) as nat,
                |i: int| Event::Token { kind: None },
            ),
            raw_cursor: target,
            ..v
        }
    } else {
        v
    }
}

/// The parser with the next token that is not trivia taken, behind the
/// trivia before it, and recorded under `remap` if that is a kind. At the
/// end of the tokens nothing changes.
pub open spec fn bumped(v: ParserView, remap: Option<SyntaxKind>) -> ParserView {
    if v.cursor >= v.significant.len() {
        v
    } else {
        let f = flushed(v, v.significant[v.cursor] as int);
        ParserView {
            cursor: v.cursor + 1,
            raw_cursor: f.raw_cursor + 1,
            events: f.events.push(Event::Token { kind: remap }),
            ..f
        }
    }
}

/// The parser with the next token taken if it is of `kind`.
pub open spec fn eaten(v: ParserView, kind: SyntaxKind) -> ParserView {
    if peeked(v, 0) == Some(kind) {
        bumped(v, None)
    } else {
        v
    }
}

/// The range that an error at the cursor speaks of: the next token that is
/// not trivia; where there is none, the next token not recorded yet; where
/// there is none either, the end of the last token.
pub open spec fn here(v: ParserView) -> TextRange {
    if v.cursor < v.significant.len() {
        v.tokens[v.significant[v.cursor] as int].range
    } else if v.raw_cursor < v.tokens.len() {
        v.tokens[v.raw_cursor].range
    } else if v.tokens.len() > 0 {
        TextRange { start: v.tokens.last().range.end, end: v.tokens.last().range.end }
    } else {
        TextRange { start: 0, end: 0 }
    }
}

/// The parser with an error with `message` at the cursor.
pub open spec fn erred(v: ParserView, message: Seq<char>) -> ParserView {
    ParserView { errors: v.errors.push((message, here(v))), ..v }
}

/// The parser with the next token taken if it is of `kind`, and with an
/// error that names the kind if it is not.
pub open spec fn expected(v: ParserView, kind: SyntaxKind) -> ParserView {
    if peeked(v, 0) == Some(kind) {
        bumped(v, None)
    } else {
        erred(v, "expected "@ + kind.spec_name())
    }
}

/// The parser with a node started at the place of the next event.
pub open spec fn started(v: ParserView) -> ParserView {
    recorded(v, Event::Tombstone)
}

/// The parser with the node that was started at `pos` made: a node of
/// `kind` that ends behind the events recorded so far.
pub open spec fn completed(v: ParserView, pos: int, kind: SyntaxKind) -> ParserView {
    ParserView {
        events: v.events.update(pos, Event::StartNode { kind, forward_parent: None }).push(
            Event::FinishNode,
        ),
        ..v
    }
}

/// The parser with the node that was started at `pos` given up: the place
/// is a tombstone again.
pub open spec fn abandoned(v: ParserView, pos: int) -> ParserView {
    ParserView { events: v.events.update(pos, Event::Tombstone), ..v }
}

/// The parser with a node started around the node made at `pos`.
pub open spec fn preceded(v: ParserView, pos: int) -> ParserView {
    ParserView {
        events: v.events.update(
            pos,
            Event::StartNode {
                kind: v.events[pos]->StartNode_kind,
                forward_parent: Some((v.events.len() - pos) as u32),
            },
        ).push(Event::Tombstone),
        ..v
    }
}

/// Where the search for a token of kind `look_for` or `before` ends when
/// it starts `n` tokens ahead: at the first such token, or behind the last
/// token.
pub open spec fn search_end(v: ParserView, look_for: SyntaxKind, before: SyntaxKind, n: int) -> int
    decreases v.significant.len() - v.cursor - n,
{
    if n < 0 || v.cursor + n >= v.significant.len() {
        n
    } else if peeked(v, n) == Some(before) || peeked(v, n) == Some(look_for) {
        n
    } else {
        search_end(v, look_for, before, n + 1)
    }
}

/// Whether a token of kind `look_for` comes before the next token of kind
/// `before`, among the tokens ahead that are not trivia.
pub open spec fn comes_before(v: ParserView, look_for: SyntaxKind, before: SyntaxKind) -> bool {
    peeked(v, search_end(v, look_for, before, 0)) == Some(look_for) && look_for != before
}

/// The indices of those of the first `k` tokens that are not trivia,
/// rising.
pub open spec fn significant(tokens: Seq<Token>, k: int) -> Seq<usize>
    decreases k,
{
    if k <= 0 {
        Seq::empty()
    } else if tokens[k - 1].kind.spec_is_trivia() {
        significant(tokens, k - 1)
    } else {
        significant(tokens, k - 1).push((k - 1) as usize)
    }
}

/// A parser over `tokens` with nothing read and nothing recorded.
pub open spec fn fresh(tokens: Seq<Token>) -> ParserView {
    ParserView {
        tokens,
        significant: significant(tokens, tokens.len() as int),
        cursor: 0,
        raw_cursor: 0,
        events: Seq::empty(),
        errors: Seq::empty(),
    }
}

/// The parser at the end of the parse: the tokens that are not recorded
/// yet are recorded, and the node that was started first is the root, of
/// kind `root_kind`.
pub open spec fn finished(v: ParserView, root_kind: SyntaxKind) -> ParserView {
    completed(
        ParserView { cursor: v.significant.len() as int, ..flushed(v, v.tokens.len() as int) },
        0,
        root_kind,
    )
}

/// `indices` names the tokens of `tokens` that are not trivia, each once
/// and in rising order.
pub open spec fn names_significant(tokens: Seq<Token>, indices: Seq<usize>) -> bool {
    &&& forall|i: int|
        0 <= i < indices.len() ==> (#[trigger] indices[i]) < tokens.len()
            && !tokens[indices[i] as int].kind.spec_is_trivia()
    &&& forall|i: int, j: int|
        0 <= i < j < indices.len() ==> (#[trigger] indices[i]) < (#[trigger] indices[j])
    &&& forall|t: int|
        0 <= t < tokens.len() && !(#[trigger] tokens[t]).kind.spec_is_trivia() ==> exists|i: int|
            0 <= i < indices.len() && #[trigger] indices[i] == t
}

impl Parser {
    /// The state is sound: the cursors are in step, and the events name
    /// the tokens before `raw_cursor` and open and close nodes in pairs.
    pub open spec fn wf(&self) -> bool {
        &&& self.tokens@.len() < u32::MAX
        &&& names_significant(self.tokens@, self.significant_indices@)
        &&& self.cursor <= self.significant_indices@.len()
        &&& self.raw_cursor <= self.tokens@.len()
        &&& self.cursor < self.significant_indices@.len() ==> self.raw_cursor
            <= self.significant_indices@[self.cursor as int]
        &&& tokens_at(self.events@, self.events@.len() as int) == self.raw_cursor
        &&& balanced(self.events@)
    }

    /// The kind of the `n`-th token ahead that is not trivia.
    pub open spec fn ahead(&self, n: int) -> Option<SyntaxKind> {
        peeked(self@, n)
    }

    /// No token that is not trivia is left.
    pub open spec fn at_end(&self) -> bool {
        self.cursor >= self.significant_indices@.len()
    }

    /// `self` is `before` after some parsing: the same tokens, the cursor
    /// not behind, the errors of `before` with more at the end, and the
    /// events of `before` with more at the end. The events before place
    /// `keep` are untouched; from there on a tombstone may have become the
    /// start of a node. The new events record tokens under their own kinds.
    pub open spec fn extends_from(&self, before: &Parser, keep: int) -> bool {
        &&& self.wf()
        &&& self.tokens == before.tokens
        &&& self.significant_indices == before.significant_indices
        &&& before.cursor <= self.cursor
        &&& before.events@.len() <= self.events@.len()
        &&& forall|i: int|
            0 <= i < before.events@.len() ==> #[trigger] self.events@[i] == before.events@[i] || (
            keep <= i && before.events@[i] == Event::Tombstone && self.events@[i] is StartNode)
        &&& forall|i: int|
            before.events@.len() <= i < self.events@.len() ==> (
            #[trigger] self.events@[i] matches Event::Token { kind } ==> kind is None)
        &&& before.errors@.len() <= self.errors@.len()
        &&& forall|i: int|
            0 <= i < before.errors@.len() ==> #[trigger] self.errors@[i] == before.errors@[i]
    }

    /// `self` is `before` after some parsing that left the events of
    /// `before` untouched.
    pub open spec fn extends(&self, before: &Parser) -> bool {
        self.extends_from(before, before.events@.len() as int)
    }

    /// Parsing on from a state that extends another extends that one too.
    pub proof fn lemma_extends_chain(&self, middle: &Parser, before: &Parser, k1: int, k2: int)
        requires
            self.extends_from(middle, k1),
            middle.extends_from(before, k2),
        ensures
            self.extends_from(before, if k1 < k2 {
                k1
            } else {
                k2
            }),
    {
        let keep = if k1 < k2 {
            k1
        } else {
            k2
        };
        assert forall|i: int| 0 <= i < before.events@.len() implies #[trigger] self.events@[i]
            == before.events@[i] || (keep <= i && before.events@[i] == Event::Tombstone
            && self.events@[i] is StartNode) by {
            assert(middle.events@[i] == before.events@[i] || (k2 <= i && before.events@[i]
                == Event::Tombstone && middle.events@[i] is StartNode));
            assert(self.events@[i] == middle.events@[i] || (k1 <= i && middle.events@[i]
                == Event::Tombstone && self.events@[i] is StartNode));
        }
        assert forall|i: int| before.events@.len() <= i < self.events@.len() implies (
        #[trigger] self.events@[i] matches Event::Token { kind } ==> kind is None) by {
            if i < middle.events@.len() {
                assert(self.events@[i] == middle.events@[i] || (k1 <= i && middle.events@[i]
                    == Event::Tombstone && self.events@[i] is StartNode));
            }
        }
        assert forall|i: int| 0 <= i < before.errors@.len() implies #[trigger] self.errors@[i]
            == before.errors@[i] by {
            assert(middle.errors@[i] == before.errors@[i]);
        }
    }

    /// A parser over `tokens` with nothing read and nothing recorded.
    pub fn new(tokens: Vec<Token>) -> (p: Self)
        requires
            tokens@.len() < u32::MAX,
        ensures
            p.wf(),
            p.tokens == tokens,
            p.cursor == 0,
            p.raw_cursor == 0,
            p.events@.len() == 0,
            p.errors@.len() == 0,
            p@ == fresh(tokens@),
    {
        let mut significant_indices: Vec<usize> = Vec::new();
        let mut i: usize = 0;
        while i < tokens.len()
            invariant
                0 <= i <= tokens@.len(),
                significant_indices@ == significant(tokens@, i as int),
                forall|k: int|
                    0 <= k < significant_indices@.len() ==> (#[trigger] significant_indices@[k])
                        < i && !tokens@[significant_indices@[k] as int].kind.spec_is_trivia(),
                forall|k: int, l: int|
                    0 <= k < l < significant_indices@.len() ==> (
                    #[trigger] significant_indices@[k]) < (#[trigger] significant_indices@[l]),
                forall|t: int|
                    0 <= t < i && !(#[trigger] tokens@[t]).kind.spec_is_trivia() ==> exists|
                        k: int,
                    |
                        0 <= k < significant_indices@.len() && #[trigger] significant_indices@[k]
                            == t,
            decreases tokens@.len() - i,
        {
            if !tokens[i].kind.is_trivia() {
                let ghost before = significant_indices@;
                significant_indices.push(i);
                assert forall|t: int|
                    0 <= t < i + 1 && !(#[trigger] tokens@[t]).kind.spec_is_trivia() implies exists|
                    k: int,
                |
                    0 <= k < significant_indices@.len() && #[trigger] significant_indices@[k]
                        == t by {
                    if t < i {
                        let k = choose|k: int|
                            0 <= k < before.len() && #[trigger] before[k] == t;
                        assert(significant_indices@[k] == t);
                    } else {
                        assert(significant_indices@[before.len() as int] == t);
                    }
                }
            }
            i += 1;
        }
        let p = Parser {
            tokens,
            significant_indices,
            cursor: 0,
            raw_cursor: 0,
            events: Vec::new(),
            errors: Vec::new(),
        };
        proof {
            assert(p@.events =~= Seq::<Event>::empty());
            assert(p@.errors =~= Seq::<(Seq<char>, TextRange)>::empty());
        }
        p
    }

    /// Starts a node at the place of the next event. The node exists once
    /// the marker is completed.
    pub fn start_node(&mut self) -> (m: Marker)
        requires
            old(self).wf(),
        ensures
            final(self).extends(old(self)),
            final(self).events@ == old(self).events@.push(Event::Tombstone),
            final(self).cursor == old(self).cursor,
            final(self).raw_cursor == old(self).raw_cursor,
            final(self).errors == old(self).errors,
            final(self)@ == started(old(self)@),
            m.spec_pos() == old(self).events@.len(),
            m.pending(final(self)),
    {
        let pos = self.events.len();
        self.record(Event::Tombstone);
        Marker::new(pos)
    }

    /// Records an event that opens and closes nothing.
    pub fn record(&mut self, event: Event)
        requires
            old(self).wf(),
            event is Tombstone || (event == (Event::Token { kind: None }) && old(self).raw_cursor
                < old(self).tokens@.len()
                && (old(self).cursor < old(self).significant_indices@.len() ==> old(self).raw_cursor
                < old(self).significant_indices@[old(self).cursor as int])),
        ensures
            final(self).extends(old(self)),
            final(self)@ == recorded(old(self)@, event),
            final(self).events@ == old(self).events@.push(event),
            final(self).cursor == old(self).cursor,
            final(self).raw_cursor == old(self).raw_cursor + if event is Token {
                1int
            } else {
                0int
            },
            final(self).errors == old(self).errors,
    {
        let ghost before = self.events@;
        self.events.push(event);
        if let Event::Token { .. } = event {
            self.raw_cursor += 1;
        }
        proof {
            let after = self.events@;
            assert forall|k: int| 0 <= k <= after.len() implies #[trigger] depth_at(after, k)
                >= 0 by {
                if k <= before.len() {
                    lemma_prefix_counts(before, after, k);
                } else {
                    lemma_prefix_counts(before, after, k - 1);
                }
            }
            lemma_prefix_counts(before, after, before.len() as int);
        }
    }

    /// Whether no token that is not trivia is left.
    pub fn is_eof(&self) -> (b: bool)
        ensures
            b == self.at_end(),
    {
        self.cursor >= self.significant_indices.len()
    }

    /// The kind of the `n`-th token ahead that is not trivia; `nth(0)` is
    /// the next one.
    pub fn nth(&self, n: usize) -> (k: Option<SyntaxKind>)
        requires
            self.wf(),
        ensures
            k == self.ahead(n as int),
    {
        let len = self.significant_indices.len();
        if n < len - self.cursor {
            Some(self.tokens[self.significant_indices[self.cursor + n]].kind)
        } else {
            None
        }
    }

    /// The kind of the next token that is not trivia.
    pub fn peek(&self) -> (k: Option<SyntaxKind>)
        requires
            self.wf(),
        ensures
            k == self.ahead(0),
    {
        self.nth(0)
    }

    /// Whether the next token that is not trivia is of `kind`.
    pub fn at(&self, kind: SyntaxKind) -> (b: bool)
        requires
            self.wf(),
        ensures
            b == (self.ahead(0) == Some(kind)),
    {
        match self.nth(0) {
            Some(k) => k == kind,
            None => false,
        }
    }

    /// Whether the next token that is not trivia is of one of `kinds`.
    pub fn at_any(&self, kinds: &[SyntaxKind]) -> (b: bool)
        requires
            self.wf(),
        ensures
            b == exists|i: int| 0 <= i < kinds@.len() && self.ahead(0) == Some(#[trigger] kinds@[i]),
    {
        let mut i: usize = 0;
        while i < kinds.len()
            invariant
                self.wf(),
                0 <= i <= kinds@.len(),
                forall|j: int| 0 <= j < i ==> self.ahead(0) != Some(#[trigger] kinds@[j]),
            decreases kinds@.len() - i,
        {
            if self.at(kinds[i]) {
                return true;
            }
            i += 1;
        }
        false
    }

    /// Whether a token of kind `look_for` comes before the next token of
    /// kind `before`, among the tokens ahead that are not trivia.
    pub fn look_for_before(&self, look_for: SyntaxKind, before: SyntaxKind) -> (b: bool)
        requires
            self.wf(),
        ensures
            b == comes_before(self@, look_for, before),
    {
        let mut offset: usize = 0;
        loop
            invariant
                self.wf(),
                self.cursor + offset <= self.significant_indices@.len(),
                search_end(self@, look_for, before, offset as int) == search_end(
                    self@,
                    look_for,
                    before,
                    0,
                ),
            decreases self.significant_indices@.len() - self.cursor - offset,
        {
            match self.nth(offset) {
                None => {
                    return false;
                },
                Some(kind) => {
                    if kind == before {
                        return false;
                    }
                    if kind == look_for {
                        return true;
                    }
                },
            }
            let len = self.significant_indices.len();
            assert(self.cursor + offset < len);
            offset += 1;
        }
    }

    /// Records the tokens before `target_raw_index` that are not recorded
    /// yet, each under its own kind.
    pub fn flush_trivia_until(&mut self, target_raw_index: usize)
        requires
            old(self).wf(),
            target_raw_index <= old(self).tokens@.len(),
            old(self).cursor < old(self).significant_indices@.len() ==> target_raw_index
                <= old(self).significant_indices@[old(self).cursor as int],
        ensures
            final(self).extends(old(self)),
            final(self).cursor == old(self).cursor,
            final(self).raw_cursor == if old(self).raw_cursor < target_raw_index {
                target_raw_index
            } else {
                old(self).raw_cursor
            },
            final(self)@ == flushed(old(self)@, target_raw_index as int),
            final(self).errors == old(self).errors,
            final(self).events@.len() == old(self).events@.len() + final(self).raw_cursor - old(self).raw_cursor,
            forall|i: int|
                old(self).events@.len() <= i < final(self).events@.len()
                    ==> #[trigger] final(self).events@[i] == (Event::Token { kind: None }),
    {
        while self.raw_cursor < target_raw_index
            invariant
                self.extends(old(self)),
                target_raw_index <= self.tokens@.len(),
                self.cursor < self.significant_indices@.len() ==> target_raw_index
                    <= self.significant_indices@[self.cursor as int],
                self.cursor == old(self).cursor,
                self.errors == old(self).errors,
                old(self).raw_cursor <= self.raw_cursor,
                old(self).raw_cursor < target_raw_index ==> self.raw_cursor <= target_raw_index,
                old(self).raw_cursor >= target_raw_index ==> self.raw_cursor == old(self).raw_cursor,
                self.events@.len() == old(self).events@.len() + self.raw_cursor - old(self).raw_cursor,
                forall|i: int|
                    old(self).events@.len() <= i < self.events@.len() ==> #[trigger] self.events@[i]
                        == (Event::Token { kind: None }),
            decreases target_raw_index - self.raw_cursor,
        {
            self.record(Event::Token { kind: None });
        }
        proof {
            assert(self.events@ =~= flushed(old(self)@, target_raw_index as int).events);
        }
    }

    /// Records every token that is not recorded yet.
    pub fn flush_remaining_tokens(&mut self)
        requires
            old(self).wf(),
        ensures
            final(self).extends(old(self)),
            final(self).at_end(),
            final(self).raw_cursor == final(self).tokens@.len(),
            final(self)@ == (ParserView {
                cursor: old(self).significant_indices@.len() as int,
                ..flushed(old(self)@, old(self).tokens@.len() as int)
            }),
            final(self).errors == old(self).errors,
    {
        self.cursor = self.significant_indices.len();
        self.flush_trivia_until(self.tokens.len());
    }

    /// Takes the next token that is not trivia, after the trivia before it;
    /// it is recorded under `remap` if that is given. Returns whether there
    /// was such a token.
    pub fn bump_internal(&mut self, remap: Option<SyntaxKind>) -> (taken: bool)
        requires
            old(self).wf(),
        ensures
            final(self).wf(),
            remap is None ==> final(self).extends(old(self)),
            final(self).tokens == old(self).tokens,
            final(self).significant_indices == old(self).significant_indices,
            forall|i: int|
                0 <= i < old(self).events@.len() ==> #[trigger] final(self).events@[i] == old(self).events@[i],
            final(self)@ == bumped(old(self)@, remap),
            taken == !old(self).at_end(),
            final(self).errors == old(self).errors,
            !taken ==> final(self).events == old(self).events && final(self).cursor == old(self).cursor && final(self).raw_cursor == old(self).raw_cursor,
            taken ==> {
                &&& final(self).cursor == old(self).cursor + 1
                &&& final(self).raw_cursor == old(self).significant_indices@[old(self).cursor as int] + 1
                &&& final(self).events@.len() == old(self).events@.len() + final(self).raw_cursor
                    - old(self).raw_cursor
                &&& final(self).events@.last() == (Event::Token { kind: remap })
                &&& forall|i: int|
                    old(self).events@.len() <= i < final(self).events@.len() - 1
                        ==> #[trigger] final(self).events@[i] == (Event::Token { kind: None })
            },
    {
        if self.is_eof() {
            return false;
        }
        let raw_index = self.significant_indices[self.cursor];
        self.flush_trivia_until(raw_index);
        let len = self.significant_indices.len();
        proof {
            assert(self.cursor < len);
            if self.cursor + 1 < self.significant_indices@.len() {
                assert(self.significant_indices@[self.cursor as int]
                    < self.significant_indices@[self.cursor + 1]);
            }
        }
        self.cursor += 1;
        self.record_taken(remap);
        true
    }

    /// Records the token at `raw_cursor`, which the cursor has just passed.
    fn record_taken(&mut self, remap: Option<SyntaxKind>)
        requires
            old(self).cursor > 0,
            old(self).cursor <= old(self).significant_indices@.len(),
            old(self).raw_cursor == old(self).significant_indices@[old(self).cursor - 1],
            ({
                let before = Parser { cursor: (old(self).cursor - 1) as usize, ..*old(self) };
                before.wf()
            }),
        ensures
            final(self).wf(),
            final(self).tokens == old(self).tokens,
            final(self).significant_indices == old(self).significant_indices,
            final(self).cursor == old(self).cursor,
            final(self).errors == old(self).errors,
            final(self).raw_cursor == old(self).raw_cursor + 1,
            final(self).errors == old(self).errors,
            final(self).events@ == old(self).events@.push(Event::Token { kind: remap }),
    {
        let ghost before = self.events@;
        proof {
            if self.cursor < self.significant_indices@.len() {
                assert(self.significant_indices@[self.cursor - 1]
                    < self.significant_indices@[self.cursor as int]);
            }
        }
        self.events.push(Event::Token { kind: remap });
        self.raw_cursor += 1;
        proof {
            let after = self.events@;
            assert forall|k: int| 0 <= k <= after.len() implies #[trigger] depth_at(after, k)
                >= 0 by {
                if k <= before.len() {
                    lemma_prefix_counts(before, after, k);
                } else {
                    lemma_prefix_counts(before, after, k - 1);
                }
            }
            lemma_prefix_counts(before, after, before.len() as int);
        }
    }

    /// Takes the next token that is not trivia under its own kind.
    pub fn bump(&mut self) -> (taken: bool)
        requires
            old(self).wf(),
        ensures
            final(self).extends(old(self)),
            final(self)@ == bumped(old(self)@, None),
            taken == !old(self).at_end(),
            final(self).errors == old(self).errors,
            final(self).cursor == old(self).cursor + if taken {
                1int
            } else {
                0int
            },
    {
        self.bump_internal(None)
    }

    /// Takes the next token that is not trivia and records it as a token of
    /// `new_kind`.
    pub fn bump_as(&mut self, new_kind: SyntaxKind) -> (taken: bool)
        requires
            old(self).wf(),
        ensures
            final(self).wf(),
            final(self).tokens == old(self).tokens,
            final(self).significant_indices == old(self).significant_indices,
            forall|i: int|
                0 <= i < old(self).events@.len() ==> #[trigger] final(self).events@[i] == old(self).events@[i],
            final(self).events@.len() > old(self).events@.len() || !taken,
            final(self)@ == bumped(old(self)@, Some(new_kind)),
            taken == !old(self).at_end(),
            final(self).errors == old(self).errors,
            final(self).cursor == old(self).cursor + if taken {
                1int
            } else {
                0int
            },
            taken ==> final(self).events@.last() == (Event::Token { kind: Some(new_kind) }),
    {
        self.bump_internal(Some(new_kind))
    }

    /// Takes the next token if it is of `kind`, and says whether it did.
    pub fn eat(&mut self, kind: SyntaxKind) -> (eaten: bool)
        requires
            old(self).wf(),
        ensures
            final(self).extends(old(self)),
            final(self)@ == self::eaten(old(self)@, kind),
            eaten == (old(self).ahead(0) == Some(kind)),
            final(self).errors == old(self).errors,
            final(self).cursor == old(self).cursor + if eaten {
                1int
            } else {
                0int
            },
            !eaten ==> final(self).events == old(self).events,
    {
        if self.at(kind) {
            self.bump();
            true
        } else {
            false
        }
    }

    /// The range that an error at the cursor speaks of: the next token that
    /// is not trivia; where there is none, the next token not recorded yet;
    /// where there is none either, the end of the last token.
    pub open spec fn error_range(&self) -> TextRange {
        here(self@)
    }

    pub fn current_range(&self) -> (r: TextRange)
        requires
            self.wf(),
        ensures
            r == self.error_range(),
    {
        if self.cursor < self.significant_indices.len() {
            self.tokens[self.significant_indices[self.cursor]].range
        } else if self.raw_cursor < self.tokens.len() {
            self.tokens[self.raw_cursor].range
        } else if self.tokens.len() > 0 {
            let end = self.tokens[self.tokens.len() - 1].range.end;
            TextRange::empty(end)
        } else {
            TextRange::empty(0)
        }
    }

    /// Records an error with `message` at the cursor.
    pub fn error(&mut self, message: &str)
        requires
            old(self).wf(),
        ensures
            final(self).extends(old(self)),
            final(self)@ == erred(old(self)@, message@),
            final(self).events == old(self).events,
            final(self).cursor == old(self).cursor,
            final(self).raw_cursor == old(self).raw_cursor,
            final(self).errors@.len() == old(self).errors@.len() + 1,
            final(self).errors@.last()@ == (message@, old(self).error_range()),
    {
        let range = self.current_range();
        self.errors.push(ParseError::new(String::from_str(message), range));
        proof {
            assert(error_views(self.errors@) =~= error_views(old(self).errors@).push(
                (message@, range),
            ));
        }
    }

    /// Takes the next token if it is of `kind`; records an error that names
    /// the kind if it is not.
    pub fn expect(&mut self, kind: SyntaxKind)
        requires
            old(self).wf(),
        ensures
            final(self).extends(old(self)),
            final(self)@ == expected(old(self)@, kind),
            old(self).ahead(0) == Some(kind) ==> final(self).cursor == old(self).cursor + 1
                && final(self).errors == old(self).errors,
            old(self).ahead(0) != Some(kind) ==> {
                &&& final(self).cursor == old(self).cursor
                &&& final(self).events == old(self).events
                &&& final(self).errors@.len() == old(self).errors@.len() + 1
                &&& final(self).errors@.last()@ == ("expected "@ + kind.spec_name(), old(self).error_range())
            },
    {
        if !self.eat(kind) {
            let mut message = String::from_str("expected ");
            message.append(kind.name());
            self.error(message.as_str());
        }
    }
}

/// What `parse_with_options` is asked for: the kind of the root.
#[derive(Debug, Clone, Copy, PartialEq, Eq, Structural)]
pub struct ParseOptions {
    pub root_kind: SyntaxKind,
}

impl Default for ParseOptions {
    fn default() -> (o: Self)
        ensures
            o.root_kind == SyntaxKind::NODE_ROOT,
    {
        ParseOptions { root_kind: SyntaxKind::NODE_ROOT }
    }
}

/// The language of the score notation, as a tag for its trees.
#[derive(Debug, Clone, Copy, PartialEq, Eq, Structural, PartialOrd, Ord, Hash, Default)]
pub struct SymiLanguage;

/// A grammar, or a part of one, as `parse` takes it: it reads tokens from
/// the parser and records events.
pub trait ParseEntry {
    /// What the grammar makes of a parser. A grammar that records anything
    /// says here what; one that says nothing is taken to record nothing.
    open spec fn made(&self, v: ParserView) -> ParserView {
        v
    }

    fn run(&self, parser: &mut Parser)
        requires
            old(parser).wf(),
        ensures
            final(parser).extends(old(parser)),
            final(parser)@ == self.made(old(parser)@),
    ;
}

/// The grammar that reads nothing.
pub struct EmptyEntry;

impl ParseEntry for EmptyEntry {
    open spec fn made(&self, v: ParserView) -> ParserView {
        v
    }

    fn run(&self, parser: &mut Parser) {
    }
}

/// What parsing gives: the tree, the errors of scanner and parser, and the
/// tokens.
#[derive(Debug)]
pub struct Parse {
    pub green_node: GreenNode,
    pub errors: Vec<ParseError>,
    pub tokens: Vec<Token>,
    pub source: Arc<str>,
}

impl Parse {
    /// The result is that of a source with these bytes: the tokens are the
    /// source's, the leaves of the tree are the tokens, and the errors start
    /// with those of the scanner.
    pub open spec fn of(&self, bytes: Seq<u8>) -> bool {
        &&& self.source.spec_bytes() == bytes
        &&& self.tokens@ == tokens_from(bytes, 0)
        &&& self.green_node.over(bytes)
        &&& self.green_node.wf()
        &&& self.green_node.tokens@ == self.tokens@
        &&& errors_of(bytes, self.tokens@).len() <= self.errors@.len()
        &&& error_views(self.errors@).subrange(0, errors_of(bytes, self.tokens@).len() as int)
            == errors_of(bytes, self.tokens@)
    }

    /// The result is what the parser `v` has made at the end of the parse:
    /// the tree is that of its events, and its errors stand behind those of
    /// the scanner.
    pub open spec fn made_by(&self, v: ParserView) -> bool {
        &&& self.green_node@ == tree_of(v.events, self.tokens@)
        &&& error_views(self.errors@) == errors_of(self.source.spec_bytes(), self.tokens@)
            + v.errors
    }

    /// The root of the tree.
    pub fn syntax_node(&self) -> (root: SyntaxNode<'_>)
        requires
            self.of(self.source.spec_bytes()),
        ensures
            root.wf(),
            *root.tree == self.green_node,
            root.source.spec_bytes() == self.source.spec_bytes(),
            root.index == 0,
    {
        let source: &str = &self.source;
        SyntaxNode { tree: &self.green_node, source, index: 0 }
    }

    pub fn green_node(&self) -> (g: &GreenNode)
        ensures
            *g == self.green_node,
    {
        &self.green_node
    }

    pub fn into_green(self) -> (g: GreenNode)
        ensures
            g == self.green_node,
    {
        self.green_node
    }

    pub fn errors(&self) -> (e: &[ParseError])
        ensures
            e@ == self.errors@,
    {
        self.errors.as_slice()
    }
}

fn copy_tokens(tokens: &Vec<Token>) -> (copy: Vec<Token>)
    ensures
        copy@ == tokens@,
{
    let mut copy: Vec<Token> = Vec::new();
    let mut i: usize = 0;
    while i < tokens.len()
        invariant
            0 <= i <= tokens@.len(),
            copy@ == tokens@.subrange(0, i as int),
        decreases tokens@.len() - i,
    {
        copy.push(tokens[i]);
        assert(copy@ =~= tokens@.subrange(0, i + 1));
        i += 1;
    }
    assert(copy@ =~= tokens@);
    copy
}

impl Parser {
    /// Builds the tree from the events and puts the parser's errors behind
    /// `external_errors`.
    pub fn finish(self, external_errors: Vec<ParseError>, source: Arc<str>) -> (parse: Parse)
        requires
            self.wf(),
            rooted(self.events@),
            self.raw_cursor == self.tokens@.len(),
        ensures
            parse.green_node.wf(),
            parse.tokens == self.tokens,
            parse.green_node.tokens@.len() == self.tokens@.len(),
            plain(self.events@) ==> parse.green_node.tokens@ == self.tokens@,
            parse.green_node.nodes@[0].kind == self.events@[0]->StartNode_kind,
            parse.errors@ == external_errors@ + self.errors@,
            parse.source == source,
            parse.green_node@ == tree_of(self.events@, self.tokens@),
    {
        let mut errors = external_errors;
        let mut own = self.errors;
        errors.append(&mut own);
        let sink = Sink::new(copy_tokens(&self.tokens), self.events);
        let green = sink.finish();
        Parse { tokens: self.tokens, green_node: green, errors, source }
    }
}

/// Parses `source` with `entry` as the grammar, under a root of kind
/// `NODE_ROOT`.
pub fn parse<E: ParseEntry>(source: Arc<str>, entry: E) -> (parse: Parse)
    requires
        source.spec_bytes().len() < u32::MAX,
    ensures
        parse.of(source.spec_bytes()),
        parse.green_node.nodes@[0].kind == SyntaxKind::NODE_ROOT,
        parse.made_by(
            finished(
                entry.made(started(fresh(tokens_from(source.spec_bytes(), 0)))),
                SyntaxKind::NODE_ROOT,
            ),
        ),
{
    parse_with_options(source, ParseOptions::default(), entry)
}

/// Parses `source` with `entry` as the grammar. The tree has a root of the
/// kind that `options` names; the tokens that `entry` leaves unread become
/// its last children.
pub fn parse_with_options<E: ParseEntry>(source: Arc<str>, options: ParseOptions, entry: E) -> (parse:
    Parse)
    requires
        source.spec_bytes().len() < u32::MAX,
    ensures
        parse.of(source.spec_bytes()),
        parse.green_node.nodes@[0].kind == options.root_kind,
        parse.made_by(
            finished(
                entry.made(started(fresh(tokens_from(source.spec_bytes(), 0)))),
                options.root_kind,
            ),
        ),
{
    let text: &str = &source;
    let (tokens, lex_errors) = tokenize(text);
    let ghost lexed = lex_errors@;
    let mut parser = Parser::new(tokens);
    let root_marker = parser.start_node();
    let ghost started = parser;
    entry.run(&mut parser);
    let ghost ran = parser;
    parser.flush_remaining_tokens();
    proof {
        parser.lemma_extends_chain(&ran, &started, ran.events@.len() as int, 1);
        lemma_root_completed(parser.events@, options.root_kind);
    }
    root_marker.complete(&mut parser, options.root_kind);
    let ghost own = parser.errors@;
    let parse = parser.finish(lex_errors, source);
    proof {
        assert(error_views(parse.errors@).subrange(0, lexed.len() as int) =~= error_views(lexed));
        assert(error_views(parse.errors@) =~= error_views(lexed) + error_views(own));
    }
    parse
}

} // verus!
