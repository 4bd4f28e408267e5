//! The concrete syntax tree.
//!
//! The tree keeps every token of the source as a leaf, in source order, and
//! its nodes in the order in which they were opened. A node covers a run of
//! consecutive leaves, and its children split that run among them from left
//! to right. Nodes and leaves are named by their index.

use super::lexer::SyntaxKind;
use super::scan::{on_boundaries, slice_text, tiles};
use vstd::string::StringSliceAdditionalSpecFns;
use super::types::{TextRange, Token};
use vstd::prelude::*;

verus! {

/// A child of a node: another node or a leaf, by index.
#[derive(Debug, Clone, Copy, PartialEq, Eq, Structural)]
pub enum Element {
    Node(usize),
    Token(usize),
}

/// A node: its kind, its parent, the leaves it covers (`first_token` up to,
/// not including, `end_token`) and its children from left to right. In a
/// tree under construction a node that is still open has `usize::MAX` for
/// its `end_token`.
#[derive(Debug)]
pub struct NodeData {
    pub kind: SyntaxKind,
    pub parent: Option<usize>,
    pub first_token: usize,
    pub end_token: usize,
    pub children: Vec<Element>,
}

/// What a node holds.
pub struct NodeView {
    pub kind: SyntaxKind,
    pub parent: Option<usize>,
    pub first_token: usize,
    pub end_token: usize,
    pub children: Seq<Element>,
}

impl View for NodeData {
    type V = NodeView;

    open spec fn view(&self) -> NodeView {
        NodeView {
            kind: self.kind,
            parent: self.parent,
            first_token: self.first_token,
            end_token: self.end_token,
            children: self.children@,
        }
    }
}

/// What the nodes of a list hold.
pub open spec fn node_views(nodes: Seq<NodeData>) -> Seq<NodeView> {
    nodes.map_values(|n: NodeData| n@)
}

/// A tree, finished or under construction: its nodes with the root first,
/// its leaves, and the nodes that are open, the outermost first.
pub struct TreeView {
    pub nodes: Seq<NodeView>,
    pub tokens: Seq<Token>,
    pub stack: Seq<usize>,
}

/// The tree with the child `e` behind the children of the node opened
/// last, if a node is open.
pub open spec fn with_child(t: TreeView, e: Element) -> Seq<NodeView> {
    if t.stack.len() > 0 {
        let top = t.stack.last() as int;
        t.nodes.update(top, NodeView { children: t.nodes[top].children.push(e), ..t.nodes[top] })
    } else {
        t.nodes
    }
}

/// The tree with a node of `kind` opened as the next child of the node
/// opened last, or as the root.
pub open spec fn opened(t: TreeView, kind: SyntaxKind) -> TreeView {
    TreeView {
        nodes: with_child(t, Element::Node(t.nodes.len() as usize)).push(
            NodeView {
                kind,
                parent: if t.stack.len() > 0 {
                    Some(t.stack.last())
                } else {
                    None
                },
                first_token: t.tokens.len() as usize,
                end_token: usize::MAX,
                children: Seq::empty(),
            },
        ),
        tokens: t.tokens,
        stack: t.stack.push(t.nodes.len() as usize),
    }
}

/// The tree with `token` as the next leaf and the next child of the node
/// opened last.
pub open spec fn leafed(t: TreeView, token: Token) -> TreeView {
    TreeView {
        nodes: with_child(t, Element::Token(t.tokens.len() as usize)),
        tokens: t.tokens.push(token),
        stack: t.stack,
    }
}

/// The tree with the node opened last closed behind the last leaf.
pub open spec fn closed_last(t: TreeView) -> TreeView {
    let top = t.stack.last() as int;
    TreeView {
        nodes: t.nodes.update(
            top,
            NodeView { end_token: t.tokens.len() as usize, ..t.nodes[top] },
        ),
        tokens: t.tokens,
        stack: t.stack.drop_last(),
    }
}

/// The first leaf of a child.
pub open spec fn lo(nodes: Seq<NodeData>, e: Element) -> int {
    match e {
        Element::Token(t) => t as int,
        Element::Node(j) => nodes[j as int].first_token as int,
    }
}

/// One past the last leaf of a child.
pub open spec fn hi(nodes: Seq<NodeData>, e: Element) -> int {
    match e {
        Element::Token(t) => t + 1,
        Element::Node(j) => nodes[j as int].end_token as int,
    }
}

/// `e` is a finished child of node `i`: a leaf that exists, or a closed node
/// that was opened after `i` and names `i` as its parent.
pub open spec fn child_ok(nodes: Seq<NodeData>, leaves: int, i: int, e: Element) -> bool {
    match e {
        Element::Token(t) => t < leaves,
        Element::Node(j) => {
            &&& i < j < nodes.len()
            &&& nodes[j as int].parent == Some(i as usize)
            &&& nodes[j as int].first_token <= nodes[j as int].end_token <= leaves
        },
    }
}

/// The children `c` of node `i` split the leaves from `from` to `to` among
/// them, from left to right and end to end.
pub open spec fn chain(
    nodes: Seq<NodeData>,
    leaves: int,
    i: int,
    c: Seq<Element>,
    from: int,
    to: int,
) -> bool {
    &&& from <= to <= leaves
    &&& forall|k: int| 0 <= k < c.len() ==> child_ok(nodes, leaves, i, #[trigger] c[k])
    &&& c.len() == 0 ==> from == to
    &&& c.len() > 0 ==> lo(nodes, c[0]) == from && hi(nodes, c.last()) == to
    &&& forall|k: int, l: int|
        0 <= k && l == k + 1 && l < c.len() ==> hi(nodes, #[trigger] c[k]) == lo(
            nodes,
            #[trigger] c[l],
        )
}

/// A chain stays one when a child that starts where it ends is added.
pub proof fn lemma_chain_push(
    nodes: Seq<NodeData>,
    leaves: int,
    i: int,
    c: Seq<Element>,
    from: int,
    to: int,
    e: Element,
)
    requires
        chain(nodes, leaves, i, c, from, to),
        child_ok(nodes, leaves, i, e),
        lo(nodes, e) == to,
        hi(nodes, e) <= leaves,
    ensures
        chain(nodes, leaves, i, c.push(e), from, hi(nodes, e)),
{
    let c2 = c.push(e);
    assert forall|k: int| 0 <= k < c2.len() implies child_ok(nodes, leaves, i, #[trigger] c2[k]) by {
        if k < c.len() {
            assert(c2[k] == c[k]);
        }
    }
    assert forall|k: int, l: int| 0 <= k && l == k + 1 && l < c2.len() implies hi(
        nodes,
        #[trigger] c2[k],
    ) == lo(nodes, #[trigger] c2[l]) by {
        if l < c.len() {
            assert(c2[k] == c[k] && c2[l] == c[l]);
        } else {
            assert(c2[k] == c.last());
        }
    }
}

/// A chain stays one when leaves and nodes are added and the nodes that it
/// names keep their parent and their leaves.
pub proof fn lemma_chain_frame(
    nodes: Seq<NodeData>,
    leaves: int,
    after: Seq<NodeData>,
    more: int,
    i: int,
    c: Seq<Element>,
    from: int,
    to: int,
)
    requires
        chain(nodes, leaves, i, c, from, to),
        leaves <= more,
        nodes.len() <= after.len(),
        forall|k: int|
            0 <= k < c.len() ==> (#[trigger] c[k] matches Element::Node(j) ==> {
                &&& after[j as int].parent == nodes[j as int].parent
                &&& after[j as int].first_token == nodes[j as int].first_token
                &&& after[j as int].end_token == nodes[j as int].end_token
            }),
    ensures
        chain(after, more, i, c, from, to),
{
    assert forall|k: int| 0 <= k < c.len() implies child_ok(after, more, i, #[trigger] c[k])
        && lo(after, c[k]) == lo(nodes, c[k]) && hi(after, c[k]) == hi(nodes, c[k]) by {
        assert(child_ok(nodes, leaves, i, c[k]));
    }
    assert forall|k: int, l: int| 0 <= k && l == k + 1 && l < c.len() implies hi(
        after,
        #[trigger] c[k],
    ) == lo(after, #[trigger] c[l]) by {
        assert(hi(nodes, c[k]) == lo(nodes, c[l]));
    }
}

/// The parent of every node but the first was opened before it; the first
/// node has none.
pub open spec fn parents_ok(nodes: Seq<NodeData>) -> bool {
    forall|i: int|
        0 <= i < nodes.len() ==> match (#[trigger] nodes[i]).parent {
            None => i == 0,
            Some(p) => p < i,
        }
}

/// Node `i` is closed and its children split its leaves among them.
pub open spec fn closed(nodes: Seq<NodeData>, leaves: int, i: int) -> bool {
    &&& nodes[i].end_token != usize::MAX
    &&& chain(
        nodes,
        leaves,
        i,
        nodes[i].children@,
        nodes[i].first_token as int,
        nodes[i].end_token as int,
    )
}

/// A finished tree: the leaves, and the nodes with the root first.
#[derive(Debug)]
pub struct GreenNode {
    pub nodes: Vec<NodeData>,
    pub tokens: Vec<Token>,
}

impl GreenNode {
    /// The tree is whole: there is a root that covers every leaf, and the
    /// children of each node split its leaves among them.
    pub open spec fn wf(&self) -> bool {
        let nodes = self.nodes@;
        let leaves = self.tokens@.len() as int;
        &&& nodes.len() >= 1
        &&& nodes[0].first_token == 0
        &&& nodes[0].end_token == leaves
        &&& parents_ok(nodes)
        &&& forall|i: int| 0 <= i < nodes.len() ==> #[trigger] closed(nodes, leaves, i)
    }
}

/// Builds a tree from the calls that open a node, add a leaf and close the
/// node opened last.
pub struct GreenNodeBuilder {
    pub nodes: Vec<NodeData>,
    pub tokens: Vec<Token>,
    pub stack: Vec<usize>,
}

/// What holds of the open node at level `l` of the stack: the innermost
/// open node has only finished children, which split the leaves from its
/// first to the last so far; every other open node has the next open node
/// as its last child, and its children before that one split the leaves up
/// to where that one starts.
pub open spec fn open_level(
    nodes: Seq<NodeData>,
    stack: Seq<usize>,
    leaves: int,
    l: int,
) -> bool {
    let i = stack[l] as int;
    let c = nodes[i].children@;
    &&& 0 <= i < nodes.len()
    &&& nodes[i].end_token == usize::MAX
    &&& if l == stack.len() - 1 {
        chain(nodes, leaves, i, c, nodes[i].first_token as int, leaves)
    } else {
        let next = stack[l + 1] as int;
        &&& i < next < nodes.len()
        &&& nodes[next].parent == Some(i as usize)
        &&& c.len() > 0
        &&& c.last() == Element::Node(next as usize)
        &&& chain(
            nodes,
            leaves,
            i,
            c.drop_last(),
            nodes[i].first_token as int,
            nodes[next].first_token as int,
        )
    }
}

impl View for GreenNodeBuilder {
    type V = TreeView;

    open spec fn view(&self) -> TreeView {
        TreeView { nodes: node_views(self.nodes@), tokens: self.tokens@, stack: self.stack@ }
    }
}

impl View for GreenNode {
    type V = TreeView;

    open spec fn view(&self) -> TreeView {
        TreeView { nodes: node_views(self.nodes@), tokens: self.tokens@, stack: Seq::empty() }
    }
}

impl GreenNodeBuilder {
    pub open spec fn leaves(&self) -> int {
        self.tokens@.len() as int
    }

    /// The number of open nodes.
    pub open spec fn depth(&self) -> int {
        self.stack@.len() as int
    }

    /// The tree so far is sound.
    pub open spec fn wf(&self) -> bool {
        let nodes = self.nodes@;
        let stack = self.stack@;
        let leaves = self.leaves();
        &&& leaves < usize::MAX
        &&& parents_ok(nodes)
        &&& nodes.len() == 0 ==> leaves == 0 && stack.len() == 0
        &&& nodes.len() > 0 ==> nodes[0].first_token == 0
        &&& stack.len() > 0 ==> stack[0] == 0
        &&& (stack.len() == 0 && nodes.len() > 0) ==> nodes[0].end_token == leaves
        &&& forall|l: int| 0 <= l < stack.len() ==> #[trigger] open_level(nodes, stack, leaves, l)
        &&& forall|i: int|
            0 <= i < nodes.len() && (#[trigger] nodes[i]).end_token != usize::MAX ==> closed(
                nodes,
                leaves,
                i,
            )
        &&& forall|i: int|
            0 <= i < nodes.len() && (#[trigger] nodes[i]).end_token == usize::MAX ==> exists|
                l: int,
            |
                0 <= l < stack.len() && #[trigger] stack[l] == i
    }

    pub fn new() -> (b: Self)
        ensures
            b.wf(),
            b.nodes@.len() == 0,
            b.tokens@.len() == 0,
            b.stack@.len() == 0,
            b@ == (TreeView { nodes: Seq::empty(), tokens: Seq::empty(), stack: Seq::empty() }),
    {
        let b = GreenNodeBuilder { nodes: Vec::new(), tokens: Vec::new(), stack: Vec::new() };
        proof {
            assert(node_views(b.nodes@) =~= Seq::<NodeView>::empty());
            assert(b.tokens@ =~= Seq::<Token>::empty());
            assert(b.stack@ =~= Seq::<usize>::empty());
        }
        b
    }

    /// Opens a node of `kind` as the next child of the node opened last, or
    /// as the root if there is no node yet.
    pub fn start_node(&mut self, kind: SyntaxKind)
        requires
            old(self).wf(),
            old(self).depth() > 0 || old(self).nodes@.len() == 0,
        ensures
            final(self).wf(),
            final(self).depth() == old(self).depth() + 1,
            final(self).tokens == old(self).tokens,
            final(self).nodes@.len() == old(self).nodes@.len() + 1,
            final(self).nodes@.last().kind == kind,
            forall|i: int|
                0 <= i < old(self).nodes@.len() ==> (#[trigger] final(self).nodes@[i]).kind
                    == old(self).nodes@[i].kind,
            final(self)@ == opened(old(self)@, kind),
    {
        let j = self.nodes.len();
        let n = self.tokens.len();
        let ghost before = self.nodes@;
        let ghost stack_before = self.stack@;
        let parent = if self.stack.len() > 0 {
            let p = self.stack[self.stack.len() - 1];
            proof {
                assert(open_level(before, stack_before, n as int, stack_before.len() - 1));
            }
            self.nodes[p].children.push(Element::Node(j));
            Some(p)
        } else {
            None
        };
        self.nodes.push(
            NodeData { kind, parent, first_token: n, end_token: usize::MAX, children: Vec::new() },
        );
        self.stack.push(j);
        proof {
            let nodes = self.nodes@;
            let stack = self.stack@;
            let leaves = n as int;
            assert forall|i: int| 0 <= i < before.len() implies {
                &&& (#[trigger] nodes[i]).kind == before[i].kind
                &&& nodes[i].parent == before[i].parent
                &&& nodes[i].first_token == before[i].first_token
                &&& nodes[i].end_token == before[i].end_token
                &&& (parent != Some(i as usize) ==> nodes[i].children@ == before[i].children@)
                &&& (parent == Some(i as usize) ==> nodes[i].children@ == before[i].children@.push(
                    Element::Node(j),
                ))
            } by {}
            assert forall|l: int| 0 <= l < stack.len() implies #[trigger] open_level(
                nodes,
                stack,
                leaves,
                l,
            ) by {
                if l < stack_before.len() {
                    assert(open_level(before, stack_before, leaves, l));
                    let i = stack[l] as int;
                    if l == stack_before.len() - 1 {
                        assert(nodes[i].children@.drop_last() =~= before[i].children@);
                        lemma_chain_frame(
                            before,
                            leaves,
                            nodes,
                            leaves,
                            i,
                            before[i].children@,
                            before[i].first_token as int,
                            leaves,
                        );
                    } else {
                        assert(open_level(before, stack_before, leaves, l + 1));
                        lemma_chain_frame(
                            before,
                            leaves,
                            nodes,
                            leaves,
                            i,
                            before[i].children@.drop_last(),
                            before[i].first_token as int,
                            before[stack[l + 1] as int].first_token as int,
                        );
                    }
                }
            }
            assert forall|i: int|
                0 <= i < nodes.len() && (#[trigger] nodes[i]).end_token
                    != usize::MAX implies closed(nodes, leaves, i) by {
                assert(closed(before, leaves, i));
                if parent == Some(i as usize) {
                    assert(open_level(before, stack_before, leaves, stack_before.len() - 1));
                }
                lemma_chain_frame(
                    before,
                    leaves,
                    nodes,
                    leaves,
                    i,
                    before[i].children@,
                    before[i].first_token as int,
                    before[i].end_token as int,
                );
            }
            assert forall|i: int|
                0 <= i < nodes.len() && (#[trigger] nodes[i]).end_token
                    == usize::MAX implies exists|l: int|
                0 <= l < stack.len() && #[trigger] stack[l] == i by {
                if i < before.len() {
                    assert(before[i].end_token == usize::MAX);
                    let l = choose|l: int|
                        0 <= l < stack_before.len() && #[trigger] stack_before[l] == i;
                    assert(stack[l] == i);
                } else {
                    assert(stack[stack.len() - 1] == i);
                }
            }
            if stack_before.len() > 0 {
                assert(open_level(before, stack_before, leaves, 0));
                assert(stack[0] == stack_before[0]);
            }
        }
        proof {
            let want = opened(old(self)@, kind);
            assert(self.stack@ =~= want.stack);
            assert forall|i: int| 0 <= i < self.nodes@.len() implies node_views(self.nodes@)[i]
                == want.nodes[i] by {
                if i < before.len() {
                    assert(node_views(before)[i] == before[i]@);
                    if stack_before.len() > 0 && i == stack_before.last() {
                        assert(self.nodes@[i].children@ =~= before[i].children@.push(
                            Element::Node(j),
                        ));
                    } else {
                        assert(self.nodes@[i].children@ == before[i].children@);
                    }
                }
            }
            assert(node_views(self.nodes@) =~= want.nodes);
        }
    }

    /// Takes `token` as the next leaf and the next child of the node opened
    /// last.
    pub fn token(&mut self, token: Token)
        requires
            old(self).wf(),
            old(self).depth() > 0,
            old(self).tokens@.len() + 1 < usize::MAX,
        ensures
            final(self).wf(),
            final(self).stack == old(self).stack,
            final(self).tokens@ == old(self).tokens@.push(token),
            final(self).nodes@.len() == old(self).nodes@.len(),
            forall|i: int|
                0 <= i < old(self).nodes@.len() ==> (#[trigger] final(self).nodes@[i]).kind
                    == old(self).nodes@[i].kind,
            final(self)@ == leafed(old(self)@, token),
    {
        let n = self.tokens.len();
        let top = self.stack[self.stack.len() - 1];
        let ghost before = self.nodes@;
        proof {
            assert(open_level(before, self.stack@, n as int, self.stack@.len() - 1));
        }
        self.nodes[top].children.push(Element::Token(n));
        self.tokens.push(token);
        proof {
            let nodes = self.nodes@;
            let stack = self.stack@;
            let leaves = n + 1;
            assert forall|i: int| 0 <= i < before.len() implies {
                &&& (#[trigger] nodes[i]).kind == before[i].kind
                &&& nodes[i].parent == before[i].parent
                &&& nodes[i].first_token == before[i].first_token
                &&& nodes[i].end_token == before[i].end_token
                &&& (i != top ==> nodes[i].children@ == before[i].children@)
                &&& (i == top ==> nodes[i].children@ == before[i].children@.push(
                    Element::Token(n),
                ))
            } by {}
            assert forall|l: int| 0 <= l < stack.len() implies #[trigger] open_level(
                nodes,
                stack,
                leaves,
                l,
            ) by {
                assert(open_level(before, stack, n as int, l));
                let i = stack[l] as int;
                if l == stack.len() - 1 {
                    lemma_chain_frame(
                        before,
                        n as int,
                        nodes,
                        leaves,
                        i,
                        before[i].children@,
                        before[i].first_token as int,
                        n as int,
                    );
                    lemma_chain_push(
                        nodes,
                        leaves,
                        i,
                        before[i].children@,
                        before[i].first_token as int,
                        n as int,
                        Element::Token(n),
                    );
                } else {
                    assert(open_level(before, stack, n as int, l + 1));
                    lemma_chain_frame(
                        before,
                        n as int,
                        nodes,
                        leaves,
                        i,
                        before[i].children@.drop_last(),
                        before[i].first_token as int,
                        before[stack[l + 1] as int].first_token as int,
                    );
                }
            }
            assert forall|i: int|
                0 <= i < nodes.len() && (#[trigger] nodes[i]).end_token
                    != usize::MAX implies closed(nodes, leaves, i) by {
                assert(closed(before, n as int, i));
                lemma_chain_frame(
                    before,
                    n as int,
                    nodes,
                    leaves,
                    i,
                    before[i].children@,
                    before[i].first_token as int,
                    before[i].end_token as int,
                );
            }
            assert forall|i: int|
                0 <= i < nodes.len() && (#[trigger] nodes[i]).end_token
                    == usize::MAX implies exists|l: int|
                0 <= l < stack.len() && #[trigger] stack[l] == i by {
                assert(before[i].end_token == usize::MAX);
            }
        }
        proof {
            let want = leafed(old(self)@, token);
            assert forall|i: int| 0 <= i < self.nodes@.len() implies node_views(self.nodes@)[i]
                == want.nodes[i] by {
                assert(node_views(before)[i] == before[i]@);
                if i == top {
                    assert(self.nodes@[i].children@ =~= before[i].children@.push(
                        Element::Token(n),
                    ));
                } else {
                    assert(self.nodes@[i].children@ == before[i].children@);
                }
            }
            assert(node_views(self.nodes@) =~= want.nodes);
        }
    }

    /// Closes the node opened last.
    pub fn finish_node(&mut self)
        requires
            old(self).wf(),
            old(self).depth() > 0,
        ensures
            final(self).wf(),
            final(self).depth() == old(self).depth() - 1,
            final(self).tokens == old(self).tokens,
            final(self).nodes@.len() == old(self).nodes@.len(),
            forall|i: int|
                0 <= i < old(self).nodes@.len() ==> (#[trigger] final(self).nodes@[i]).kind
                    == old(self).nodes@[i].kind,
            final(self)@ == closed_last(old(self)@),
    {
        let n = self.tokens.len();
        let ghost before = self.nodes@;
        let ghost stack_before = self.stack@;
        let top = self.stack[self.stack.len() - 1];
        proof {
            assert(open_level(before, stack_before, n as int, stack_before.len() - 1));
        }
        self.stack.pop();
        self.nodes[top].end_token = n;
        proof {
            let nodes = self.nodes@;
            let stack = self.stack@;
            let leaves = n as int;
            assert forall|i: int| 0 <= i < before.len() implies {
                &&& (#[trigger] nodes[i]).kind == before[i].kind
                &&& nodes[i].parent == before[i].parent
                &&& nodes[i].first_token == before[i].first_token
                &&& nodes[i].children@ == before[i].children@
                &&& (i != top ==> nodes[i].end_token == before[i].end_token)
            } by {}
            assert forall|l: int| 0 <= l < stack.len() implies #[trigger] open_level(
                nodes,
                stack,
                leaves,
                l,
            ) by {
                assert(open_level(before, stack_before, leaves, l));
                assert(open_level(before, stack_before, leaves, l + 1));
                let i = stack[l] as int;
                let c = before[i].children@;
                lemma_chain_frame(
                    before,
                    leaves,
                    nodes,
                    leaves,
                    i,
                    c.drop_last(),
                    before[i].first_token as int,
                    before[stack_before[l + 1] as int].first_token as int,
                );
                if l == stack.len() - 1 {
                    lemma_chain_push(
                        nodes,
                        leaves,
                        i,
                        c.drop_last(),
                        before[i].first_token as int,
                        before[top as int].first_token as int,
                        Element::Node(top),
                    );
                    assert(c.drop_last().push(Element::Node(top)) =~= c);
                }
            }
            assert forall|i: int|
                0 <= i < nodes.len() && (#[trigger] nodes[i]).end_token
                    != usize::MAX implies closed(nodes, leaves, i) by {
                if i == top {
                    lemma_chain_frame(
                        before,
                        leaves,
                        nodes,
                        leaves,
                        i,
                        before[i].children@,
                        before[i].first_token as int,
                        leaves,
                    );
                } else {
                    assert(closed(before, leaves, i));
                    lemma_chain_frame(
                        before,
                        leaves,
                        nodes,
                        leaves,
                        i,
                        before[i].children@,
                        before[i].first_token as int,
                        before[i].end_token as int,
                    );
                }
            }
            assert forall|i: int|
                0 <= i < nodes.len() && (#[trigger] nodes[i]).end_token
                    == usize::MAX implies exists|l: int|
                0 <= l < stack.len() && #[trigger] stack[l] == i by {
                assert(before[i].end_token == usize::MAX);
                let l = choose|l: int|
                    0 <= l < stack_before.len() && #[trigger] stack_before[l] == i;
                assert(stack[l] == i);
            }
            if stack.len() > 0 {
                assert(stack[0] == stack_before[0]);
            } else {
                assert(stack_before[0] == top);
            }
        }
        proof {
            let want = closed_last(old(self)@);
            assert(self.stack@ =~= want.stack);
            assert forall|i: int| 0 <= i < self.nodes@.len() implies node_views(self.nodes@)[i]
                == want.nodes[i] by {
                assert(node_views(before)[i] == before[i]@);
            }
            assert(node_views(self.nodes@) =~= want.nodes);
        }
    }

    /// The finished tree.
    pub fn finish(self) -> (tree: GreenNode)
        requires
            self.wf(),
            self.depth() == 0,
            self.nodes@.len() > 0,
        ensures
            tree.wf(),
            tree.nodes == self.nodes,
            tree.tokens == self.tokens,
            tree@ == self@,
    {
        proof {
            assert(self.stack@ =~= Seq::<usize>::empty());
        }
        GreenNode { nodes: self.nodes, tokens: self.tokens }
    }
}

impl GreenNode {
    /// The leaves are tokens of a text with these bytes: they cover it end
    /// to end, each between two scalar values.
    pub open spec fn over(&self, bytes: Seq<u8>) -> bool {
        &&& bytes.len() < u32::MAX
        &&& tiles(self.tokens@, 0, bytes.len() as int)
        &&& on_boundaries(bytes, self.tokens@)
    }

    /// The byte offset at which leaf `t` starts; for the number of leaves,
    /// the offset at which the last leaf ends.
    pub open spec fn offset(&self, t: int) -> int {
        if 0 <= t < self.tokens@.len() {
            self.tokens@[t].range.start as int
        } else if self.tokens@.len() > 0 {
            self.tokens@.last().range.end as int
        } else {
            0
        }
    }

    /// The bytes that node `i` covers: from the start of its first leaf to
    /// the end of its last. A node without leaves covers nothing, at the
    /// offset where the next leaf starts.
    pub open spec fn node_range(&self, i: int) -> (int, int) {
        (self.offset(self.nodes@[i].first_token as int), self.offset(self.nodes@[i].end_token as int))
    }

    /// The bytes that a child covers.
    pub open spec fn element_range(&self, e: Element) -> (int, int) {
        (self.offset(lo(self.nodes@, e)), self.offset(hi(self.nodes@, e)))
    }

    /// The leaves below the first `k` children of node `i`, from left to
    /// right.
    pub open spec fn leaves_upto(&self, i: int, k: int) -> Seq<int>
        decreases self.nodes@.len() - i, k,
    {
        if k <= 0 || i < 0 || i >= self.nodes@.len() {
            Seq::empty()
        } else {
            self.leaves_upto(i, k - 1) + match self.nodes@[i].children@[k - 1] {
                Element::Token(t) => seq![t as int],
                Element::Node(j) => if i < j < self.nodes@.len() {
                    self.leaves_upto(j as int, self.nodes@[j as int].children@.len() as int)
                } else {
                    Seq::empty()
                },
            }
        }
    }

    /// The leaves of the tree, from left to right.
    pub open spec fn leaves(&self) -> Seq<int> {
        self.leaves_upto(0, self.nodes@[0].children@.len() as int)
    }

    /// The bytes of `bytes` that the leaves `leaves` cover, one leaf after
    /// the other.
    pub open spec fn text_of(&self, bytes: Seq<u8>, leaves: Seq<int>) -> Seq<u8>
        decreases leaves.len(),
    {
        if leaves.len() == 0 {
            Seq::empty()
        } else {
            self.text_of(bytes, leaves.drop_last()) + bytes.subrange(
                self.tokens@[leaves.last()].range.start as int,
                self.tokens@[leaves.last()].range.end as int,
            )
        }
    }

    /// The leaves below the first `k` children of a node are the leaves
    /// from the node's first to the end of its `k`-th child, each once and
    /// in order.
    pub proof fn lemma_leaves_upto(&self, i: int, k: int)
        requires
            self.wf(),
            0 <= i < self.nodes@.len(),
            0 <= k <= self.nodes@[i].children@.len(),
        ensures
            self.leaves_upto(i, k) == Seq::new(
                (self.span_end(i, k) - self.nodes@[i].first_token) as nat,
                |x: int| self.nodes@[i].first_token + x,
            ),
            self.nodes@[i].first_token <= self.span_end(i, k) <= self.tokens@.len(),
        decreases self.nodes@.len() - i, k,
    {
        let nodes = self.nodes@;
        let leaves = self.tokens@.len() as int;
        let c = nodes[i].children@;
        assert(closed(nodes, leaves, i));
        if k > 0 {
            self.lemma_leaves_upto(i, k - 1);
            let e = c[k - 1];
            assert(child_ok(nodes, leaves, i, e));
            if k > 1 {
                assert(hi(nodes, c[k - 2]) == lo(nodes, c[k - 1]));
                assert(child_ok(nodes, leaves, i, c[k - 2]));
            }
            match e {
                Element::Token(t) => {},
                Element::Node(j) => {
                    let cj = nodes[j as int].children@;
                    assert(closed(nodes, leaves, j as int));
                    self.lemma_leaves_upto(j as int, cj.len() as int);
                },
            }
            assert(self.leaves_upto(i, k) =~= Seq::new(
                (self.span_end(i, k) - nodes[i].first_token) as nat,
                |x: int| nodes[i].first_token + x,
            ));
        } else {
            assert(self.leaves_upto(i, k) =~= Seq::new(
                (self.span_end(i, k) - nodes[i].first_token) as nat,
                |x: int| nodes[i].first_token + x,
            ));
        }
    }

    /// One past the last leaf below the first `k` children of node `i`.
    pub open spec fn span_end(&self, i: int, k: int) -> int {
        if k <= 0 {
            self.nodes@[i].first_token as int
        } else {
            hi(self.nodes@, self.nodes@[i].children@[k - 1])
        }
    }

    /// The text of the leaves from `a` up to `b` is the source between
    /// their offsets.
    pub proof fn lemma_text_of_run(&self, bytes: Seq<u8>, a: int, b: int)
        requires
            tiles(self.tokens@, 0, bytes.len() as int),
            0 <= a <= b <= self.tokens@.len(),
        ensures
            self.text_of(bytes, Seq::new((b - a) as nat, |x: int| a + x)) == bytes.subrange(
                self.offset(a),
                self.offset(b),
            ),
            0 <= self.offset(a) <= self.offset(b) <= bytes.len(),
        decreases b - a,
    {
        let run = Seq::new((b - a) as nat, |x: int| a + x);
        self.lemma_offsets(bytes, a);
        self.lemma_offsets(bytes, b);
        if a < b {
            self.lemma_text_of_run(bytes, a, b - 1);
            self.lemma_offsets(bytes, b - 1);
            assert(run.drop_last() =~= Seq::new((b - 1 - a) as nat, |x: int| a + x));
            assert(run.last() == b - 1);
            assert(self.tokens@[b - 1].range.end == self.offset(b)) by {
                if b < self.tokens@.len() {
                    assert(self.tokens@[b - 1].range.end == self.tokens@[b].range.start);
                }
            }
            assert(bytes.subrange(self.offset(a), self.offset(b - 1)) + bytes.subrange(
                self.offset(b - 1),
                self.offset(b),
            ) =~= bytes.subrange(self.offset(a), self.offset(b)));
        } else {
            assert(self.text_of(bytes, run) =~= bytes.subrange(self.offset(a), self.offset(b)));
        }
    }

    /// Offsets rise with the leaves, from 0 to the length of the source.
    pub proof fn lemma_offsets(&self, bytes: Seq<u8>, t: int)
        requires
            tiles(self.tokens@, 0, bytes.len() as int),
            0 <= t <= self.tokens@.len(),
        ensures
            0 <= self.offset(t) <= bytes.len(),
            t < self.tokens@.len() ==> self.offset(t) < self.offset(t + 1),
            t == 0 ==> self.offset(t) == 0,
            t == self.tokens@.len() ==> self.offset(t) == bytes.len(),
        decreases self.tokens@.len() - t,
    {
        let tokens = self.tokens@;
        if t < tokens.len() {
            self.lemma_offsets(bytes, t + 1);
            assert(tokens[t].range.start < tokens[t].range.end);
            if t + 1 < tokens.len() {
                assert(tokens[t].range.end == tokens[t + 1].range.start);
            }
        }
    }

    /// Offsets do not fall from one leaf to a later one.
    pub proof fn lemma_offsets_ordered(&self, bytes: Seq<u8>, s: int, t: int)
        requires
            tiles(self.tokens@, 0, bytes.len() as int),
            0 <= s <= t <= self.tokens@.len(),
        ensures
            self.offset(s) <= self.offset(t),
        decreases t - s,
    {
        if s < t {
            self.lemma_offsets(bytes, s);
            self.lemma_offsets_ordered(bytes, s + 1, t);
        }
    }

    /// The tree loses nothing: its leaves are the tokens, each once and in
    /// source order, and their texts put one after the other are the
    /// source.
    pub proof fn lemma_lossless(&self, bytes: Seq<u8>)
        requires
            self.wf(),
            tiles(self.tokens@, 0, bytes.len() as int),
        ensures
            self.leaves() == Seq::new(self.tokens@.len(), |t: int| t),
            self.text_of(bytes, self.leaves()) == bytes,
    {
        let c = self.nodes@[0].children@;
        assert(closed(self.nodes@, self.tokens@.len() as int, 0));
        self.lemma_leaves_upto(0, c.len() as int);
        assert(self.leaves() =~= Seq::new(self.tokens@.len(), |t: int| t));
        self.lemma_text_of_run(bytes, 0, self.tokens@.len() as int);
        self.lemma_offsets(bytes, 0);
        self.lemma_offsets(bytes, self.tokens@.len() as int);
        assert(Seq::new(self.tokens@.len(), |t: int| t) =~= Seq::new(
            (self.tokens@.len() - 0) as nat,
            |x: int| 0 + x,
        ));
        assert(bytes.subrange(0, bytes.len() as int) =~= bytes);
    }

    /// A node covers what its children cover: it starts where the first
    /// child starts and ends where the last child ends, and each child ends
    /// where the next one starts, so that no two of them overlap.
    pub proof fn lemma_range_containment(&self, bytes: Seq<u8>, i: int)
        requires
            self.wf(),
            tiles(self.tokens@, 0, bytes.len() as int),
            0 <= i < self.nodes@.len(),
        ensures
            ({
                let c = self.nodes@[i].children@;
                &&& c.len() > 0 ==> self.node_range(i).0 == self.element_range(c[0]).0
                    && self.node_range(i).1 == self.element_range(c.last()).1
                &&& forall|k: int|
                    0 <= k < c.len() ==> self.element_range(#[trigger] c[k]).0
                        <= self.element_range(c[k]).1
                &&& forall|k: int, l: int|
                    0 <= k && l == k + 1 && l < c.len() ==> self.element_range(#[trigger] c[k]).1
                        == self.element_range(#[trigger] c[l]).0
                &&& forall|k: int, l: int|
                    0 <= k < l < c.len() ==> self.element_range(#[trigger] c[k]).1
                        <= self.element_range(#[trigger] c[l]).0
            }),
    {
        let nodes = self.nodes@;
        let leaves = self.tokens@.len() as int;
        let c = nodes[i].children@;
        assert(closed(nodes, leaves, i));
        assert forall|k: int| 0 <= k < c.len() implies 0 <= lo(nodes, #[trigger] c[k]) <= hi(
            nodes,
            c[k],
        ) <= leaves by {
            assert(child_ok(nodes, leaves, i, c[k]));
        }
        assert forall|k: int| 0 <= k < c.len() implies self.element_range(#[trigger] c[k]).0
            <= self.element_range(c[k]).1 by {
            self.lemma_offsets_ordered(bytes, lo(nodes, c[k]), hi(nodes, c[k]));
        }
        assert forall|k: int, l: int| 0 <= k < l < c.len() implies self.element_range(
            #[trigger] c[k],
        ).1 <= self.element_range(#[trigger] c[l]).0 by {
            self.lemma_children_ordered(i, k, l);
            self.lemma_offsets_ordered(bytes, hi(nodes, c[k]), lo(nodes, c[l]));
        }
    }

    /// A child ends no later than a later child starts.
    pub proof fn lemma_children_ordered(&self, i: int, k: int, l: int)
        requires
            self.wf(),
            0 <= i < self.nodes@.len(),
            0 <= k < l < self.nodes@[i].children@.len(),
        ensures
            0 <= hi(self.nodes@, self.nodes@[i].children@[k]) <= lo(
                self.nodes@,
                self.nodes@[i].children@[l],
            ) <= self.tokens@.len(),
        decreases l - k,
    {
        let nodes = self.nodes@;
        let leaves = self.tokens@.len() as int;
        let c = nodes[i].children@;
        assert(closed(nodes, leaves, i));
        assert(child_ok(nodes, leaves, i, c[k]));
        assert(child_ok(nodes, leaves, i, c[l]));
        assert(child_ok(nodes, leaves, i, c[l - 1]));
        assert(hi(nodes, c[l - 1]) == lo(nodes, c[l]));
        if k < l - 1 {
            self.lemma_children_ordered(i, k, l - 1);
        }
    }
}

/// A node of a tree.
#[derive(Debug, Clone, Copy)]
pub struct SyntaxNode<'a> {
    pub tree: &'a GreenNode,
    pub source: &'a str,
    pub index: usize,
}

/// A leaf of a tree.
#[derive(Debug, Clone, Copy)]
pub struct SyntaxToken<'a> {
    pub tree: &'a GreenNode,
    pub source: &'a str,
    pub index: usize,
}

/// A node or a leaf of a tree.
#[derive(Debug, Clone, Copy)]
pub enum SyntaxElementRef<'a> {
    Node(SyntaxNode<'a>),
    Token(SyntaxToken<'a>),
}

impl<'a> SyntaxToken<'a> {
    /// The leaf is one of a whole tree over the source.
    pub open spec fn wf(&self) -> bool {
        self.tree.wf() && self.tree.over(self.source.spec_bytes()) && self.index
            < self.tree.tokens@.len()
    }

    /// The bytes of the leaf.
    pub open spec fn bytes(&self) -> Seq<u8> {
        self.source.spec_bytes().subrange(
            self.tree.tokens@[self.index as int].range.start as int,
            self.tree.tokens@[self.index as int].range.end as int,
        )
    }

    /// The characters of the leaf.
    pub open spec fn text_view(&self) -> Seq<char> {
        vstd::utf8::decode_utf8(self.bytes())
    }

    /// The text of the leaf.
    pub fn text(&self) -> (t: &'a str)
        requires
            self.wf(),
        ensures
            t.spec_bytes() == self.bytes(),
            t@ == self.text_view(),
    {
        proof {
            vstd::utf8::encode_utf8_decode_utf8(self.source@);
        }
        let t = self.text_inner();
        proof {
            vstd::utf8::encode_utf8_decode_utf8(t@);
        }
        t
    }

    fn text_inner(&self) -> (t: &'a str)
        requires
            self.wf(),
        ensures
            t.spec_bytes() == self.bytes(),
    {
        let range = self.tree.tokens[self.index].range;
        proof {
            let tokens = self.tree.tokens@;
            let i = self.index as int;
            assert(tokens[i].range.start < tokens[i].range.end);
            self.tree.lemma_offsets(self.source.spec_bytes(), i);
            self.tree.lemma_offsets(self.source.spec_bytes(), i + 1);
            if i + 1 < tokens.len() {
                assert(tokens[i].range.end == tokens[i + 1].range.start);
            }
        }
        slice_text(self.source, range.start as usize, range.end as usize)
    }

    pub fn kind(&self) -> (k: SyntaxKind)
        requires
            self.wf(),
        ensures
            k == self.tree.tokens@[self.index as int].kind,
    {
        self.tree.tokens[self.index].kind
    }

    pub fn text_range(&self) -> (r: TextRange)
        requires
            self.wf(),
        ensures
            r == self.tree.tokens@[self.index as int].range,
    {
        self.tree.tokens[self.index].range
    }
}

impl<'a> SyntaxElementRef<'a> {
    pub open spec fn wf(&self) -> bool {
        match self {
            SyntaxElementRef::Node(n) => n.wf(),
            SyntaxElementRef::Token(t) => t.wf(),
        }
    }

    /// The child that this is, as the tree names it.
    pub open spec fn element(&self) -> Element {
        match self {
            SyntaxElementRef::Node(n) => Element::Node(n.index),
            SyntaxElementRef::Token(t) => Element::Token(t.index),
        }
    }

    pub open spec fn tree(&self) -> &'a GreenNode {
        match self {
            SyntaxElementRef::Node(n) => n.tree,
            SyntaxElementRef::Token(t) => t.tree,
        }
    }

    pub open spec fn source(&self) -> &'a str {
        match self {
            SyntaxElementRef::Node(n) => n.source,
            SyntaxElementRef::Token(t) => t.source,
        }
    }

    pub fn into_token(self) -> (t: Option<SyntaxToken<'a>>)
        ensures
            t == match self {
                SyntaxElementRef::Token(t) => Some(t),
                SyntaxElementRef::Node(_) => None::<SyntaxToken<'a>>,
            },
    {
        match self {
            SyntaxElementRef::Token(t) => Some(t),
            SyntaxElementRef::Node(_) => None,
        }
    }

    pub fn into_node(self) -> (n: Option<SyntaxNode<'a>>)
        ensures
            n == match self {
                SyntaxElementRef::Node(n) => Some(n),
                SyntaxElementRef::Token(_) => None::<SyntaxNode<'a>>,
            },
    {
        match self {
            SyntaxElementRef::Node(n) => Some(n),
            SyntaxElementRef::Token(_) => None,
        }
    }
}

impl<'a> SyntaxNode<'a> {
    /// The node is one of a whole tree over the source.
    pub open spec fn wf(&self) -> bool {
        self.tree.wf() && self.tree.over(self.source.spec_bytes()) && self.index
            < self.tree.nodes@.len()
    }

    /// The children of the node as the tree names them.
    pub open spec fn child_elements(&self) -> Seq<Element> {
        self.tree.nodes@[self.index as int].children@
    }

    pub fn kind(&self) -> (k: SyntaxKind)
        requires
            self.wf(),
        ensures
            k == self.tree.nodes@[self.index as int].kind,
    {
        self.tree.nodes[self.index].kind
    }

    /// The bytes that the node covers.
    pub fn text_range(&self) -> (r: TextRange)
        requires
            self.wf(),
        ensures
            r.start == self.tree.node_range(self.index as int).0,
            r.end == self.tree.node_range(self.index as int).1,
    {
        let node = &self.tree.nodes[self.index];
        proof {
            assert(closed(self.tree.nodes@, self.tree.tokens@.len() as int, self.index as int));
        }
        TextRange { start: self.offset_of(node.first_token), end: self.offset_of(node.end_token) }
    }

    fn offset_of(&self, t: usize) -> (o: u32)
        requires
            self.tree.wf(),
            t <= self.tree.tokens@.len(),
        ensures
            o == self.tree.offset(t as int),
    {
        let tokens = &self.tree.tokens;
        if t < tokens.len() {
            tokens[t].range.start
        } else if tokens.len() > 0 {
            tokens[tokens.len() - 1].range.end
        } else {
            0
        }
    }

    /// The children of the node, nodes and leaves, from left to right.
    pub fn children_with_tokens(&self) -> (r: Vec<SyntaxElementRef<'a>>)
        requires
            self.wf(),
        ensures
            r@.len() == self.child_elements().len(),
            forall|k: int|
                0 <= k < r@.len() ==> (#[trigger] r@[k]).element() == self.child_elements()[k]
                    && r@[k].tree() == self.tree && r@[k].source() == self.source && r@[k].wf(),
    {
        let node = &self.tree.nodes[self.index];
        let mut r: Vec<SyntaxElementRef<'a>> = Vec::new();
        let mut k: usize = 0;
        proof {
            assert(closed(self.tree.nodes@, self.tree.tokens@.len() as int, self.index as int));
        }
        while k < node.children.len()
            invariant
                self.wf(),
                *node == self.tree.nodes@[self.index as int],
                0 <= k <= node.children@.len(),
                r@.len() == k,
                forall|x: int|
                    0 <= x < k ==> (#[trigger] r@[x]).element() == node.children@[x] && r@[x].tree()
                        == self.tree && r@[x].source() == self.source && r@[x].wf(),
            decreases node.children@.len() - k,
        {
            let e = node.children[k];
            proof {
                assert(closed(self.tree.nodes@, self.tree.tokens@.len() as int, self.index as int));
                assert(child_ok(
                    self.tree.nodes@,
                    self.tree.tokens@.len() as int,
                    self.index as int,
                    node.children@[k as int],
                ));
            }
            match e {
                Element::Node(j) => {
                    r.push(SyntaxElementRef::Node(SyntaxNode { tree: self.tree, source: self.source, index: j }));
                },
                Element::Token(t) => {
                    r.push(SyntaxElementRef::Token(SyntaxToken { tree: self.tree, source: self.source, index: t }));
                },
            }
            k += 1;
        }
        r
    }

    /// The nodes among the children, from left to right.
    pub fn children(&self) -> (r: Vec<SyntaxNode<'a>>)
        requires
            self.wf(),
        ensures
            forall|x: int| 0 <= x < r@.len() ==> (#[trigger] r@[x]).wf() && r@[x].tree == self.tree && r@[x].source == self.source,
            r@.map_values(|n: SyntaxNode<'a>| Element::Node(n.index)) == self.child_elements().filter(
                |e: Element| e is Node,
            ),
    {
        let node = &self.tree.nodes[self.index];
        let mut r: Vec<SyntaxNode<'a>> = Vec::new();
        let mut k: usize = 0;
        let ghost is_node = |e: Element| e is Node;
        let ghost name = |n: SyntaxNode<'a>| Element::Node(n.index);
        proof {
            assert(node.children@.subrange(0, 0) =~= Seq::<Element>::empty());
            assert(r@.map_values(name) =~= Seq::<Element>::empty().filter(is_node));
        }
        while k < node.children.len()
            invariant
                self.wf(),
                *node == self.tree.nodes@[self.index as int],
                0 <= k <= node.children@.len(),
                forall|x: int|
                    0 <= x < r@.len() ==> (#[trigger] r@[x]).wf() && r@[x].tree == self.tree && r@[x].source == self.source,
                is_node == |e: Element| e is Node,
                name == |n: SyntaxNode<'a>| Element::Node(n.index),
                r@.map_values(name) == node.children@.subrange(0, k as int).filter(is_node),
            decreases node.children@.len() - k,
        {
            let e = node.children[k];
            proof {
                assert(closed(self.tree.nodes@, self.tree.tokens@.len() as int, self.index as int));
                assert(child_ok(
                    self.tree.nodes@,
                    self.tree.tokens@.len() as int,
                    self.index as int,
                    node.children@[k as int],
                ));
                let before = node.children@.subrange(0, k as int);
                let after = node.children@.subrange(0, k + 1);
                assert(after.drop_last() =~= before);
                assert(after.last() == e);
                reveal(Seq::filter);
            }
            let ghost old_r = r@;
            if let Element::Node(j) = e {
                r.push(SyntaxNode { tree: self.tree, source: self.source, index: j });
                proof {
                    assert(r@.map_values(name) =~= old_r.map_values(name).push(e));
                }
            }
            k += 1;
        }
        proof {
            assert(node.children@.subrange(0, k as int) =~= node.children@);
        }
        r
    }

    /// The leaves below the node, from left to right.
    pub fn tokens(&self) -> (r: Vec<SyntaxToken<'a>>)
        requires
            self.wf(),
        ensures
            r@.len() == self.tree.nodes@[self.index as int].end_token
                - self.tree.nodes@[self.index as int].first_token,
            forall|x: int|
                0 <= x < r@.len() ==> (#[trigger] r@[x]).wf() && r@[x].tree == self.tree && r@[x].source == self.source
                    && r@[x].index == self.tree.nodes@[self.index as int].first_token + x,
    {
        let node = &self.tree.nodes[self.index];
        proof {
            assert(closed(self.tree.nodes@, self.tree.tokens@.len() as int, self.index as int));
        }
        let mut r: Vec<SyntaxToken<'a>> = Vec::new();
        let mut t = node.first_token;
        while t < node.end_token
            invariant
                self.wf(),
                *node == self.tree.nodes@[self.index as int],
                node.first_token <= t <= node.end_token <= self.tree.tokens@.len(),
                r@.len() == t - node.first_token,
                forall|x: int|
                    0 <= x < r@.len() ==> (#[trigger] r@[x]).wf() && r@[x].tree == self.tree && r@[x].source == self.source
                        && r@[x].index == node.first_token + x,
            decreases node.end_token - t,
        {
            r.push(SyntaxToken { tree: self.tree, source: self.source, index: t });
            t += 1;
        }
        r
    }
}

impl GreenNode {
    /// Node `j` is node `i` or lies below it.
    pub open spec fn in_subtree(&self, i: int, j: int) -> bool
        decreases j,
    {
        j == i || (i < j < self.nodes@.len() && match self.nodes@[j].parent {
            Some(p) => p < j && self.in_subtree(i, p as int),
            None => false,
        })
    }
}

impl<'a> SyntaxNode<'a> {
    /// Whether node `j` is this node or lies below it.
    pub fn contains(&self, j: usize) -> (b: bool)
        requires
            self.wf(),
            j < self.tree.nodes@.len(),
        ensures
            b == self.tree.in_subtree(self.index as int, j as int),
    {
        let mut cur = j;
        while cur > self.index
            invariant
                self.wf(),
                cur < self.tree.nodes@.len(),
                self.tree.in_subtree(self.index as int, cur as int) == self.tree.in_subtree(
                    self.index as int,
                    j as int,
                ),
            decreases cur,
        {
            match self.tree.nodes[cur].parent {
                Some(p) => {
                    cur = p;
                },
                None => {
                    return false;
                },
            }
        }
        cur == self.index
    }

    /// The node and every node below it, in the order in which they
    /// start.
    pub fn descendants(&self) -> (r: Vec<SyntaxNode<'a>>)
        requires
            self.wf(),
        ensures
            forall|x: int|
                0 <= x < r@.len() ==> (#[trigger] r@[x]).wf() && r@[x].tree == self.tree && r@[x].source == self.source
                    && self.tree.in_subtree(self.index as int, r@[x].index as int),
            forall|x: int, y: int|
                0 <= x < y < r@.len() ==> (#[trigger] r@[x]).index < (#[trigger] r@[y]).index,
            forall|j: int|
                0 <= j < self.tree.nodes@.len() && self.tree.in_subtree(self.index as int, j)
                    ==> exists|x: int| 0 <= x < r@.len() && (#[trigger] r@[x]).index == j,
            r@.len() > 0 && r@[0].index == self.index,
    {
        let n = self.tree.nodes.len();
        let mut r: Vec<SyntaxNode<'a>> = Vec::new();
        let mut j = self.index;
        while j < n
            invariant
                self.wf(),
                n == self.tree.nodes@.len(),
                self.index <= j <= n,
                forall|x: int|
                    0 <= x < r@.len() ==> (#[trigger] r@[x]).wf() && r@[x].tree == self.tree && r@[x].source == self.source
                        && self.tree.in_subtree(self.index as int, r@[x].index as int)
                        && r@[x].index < j,
                forall|x: int, y: int|
                    0 <= x < y < r@.len() ==> (#[trigger] r@[x]).index < (#[trigger] r@[y]).index,
                forall|k: int|
                    self.index <= k < j && self.tree.in_subtree(self.index as int, k)
                        ==> exists|x: int| 0 <= x < r@.len() && (#[trigger] r@[x]).index == k,
                j > self.index ==> r@.len() > 0 && r@[0].index == self.index,
            decreases n - j,
        {
            if self.contains(j) {
                let ghost before = r@;
                r.push(SyntaxNode { tree: self.tree, source: self.source, index: j });
                assert forall|k: int|
                    self.index <= k < j + 1 && self.tree.in_subtree(
                        self.index as int,
                        k,
                    ) implies exists|x: int| 0 <= x < r@.len() && (#[trigger] r@[x]).index == k by {
                    if k < j {
                        let x = choose|x: int| 0 <= x < before.len() && (#[trigger] before[x]).index == k;
                        assert(r@[x].index == k);
                    } else {
                        assert(r@[before.len() as int].index == k);
                    }
                }
            }
            j += 1;
        }
        r
    }
}

} // verus!
