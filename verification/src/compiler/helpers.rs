//! Searching the children of a node.

use crate::syntax::lexer::SyntaxKind;
use crate::syntax::tree::{Element, SyntaxElementRef, SyntaxNode, SyntaxToken};
use vstd::prelude::*;

verus! {

/// The kind of a node or of a leaf.
pub trait NodeOrTokenAsKind {
    spec fn in_tree(&self) -> bool;

    spec fn spec_kind(&self) -> SyntaxKind;

    fn kind(&self) -> (k: SyntaxKind)
        requires
            self.in_tree(),
        ensures
            k == self.spec_kind(),
    ;
}

impl<'a> NodeOrTokenAsKind for SyntaxElementRef<'a> {
    open spec fn in_tree(&self) -> bool {
        self.wf()
    }

    open spec fn spec_kind(&self) -> SyntaxKind {
        match self {
            SyntaxElementRef::Node(n) => n.tree.nodes@[n.index as int].kind,
            SyntaxElementRef::Token(t) => t.tree.tokens@[t.index as int].kind,
        }
    }

    fn kind(&self) -> (k: SyntaxKind) {
        match self {
            SyntaxElementRef::Node(n) => n.kind(),
            SyntaxElementRef::Token(t) => t.kind(),
        }
    }
}

/// Searches among the children of a node.
pub trait SyntaxNodeEx<'a> {
    spec fn in_tree(&self) -> bool;

    /// The children, nodes and leaves, from left to right.
    spec fn elements(&self) -> Seq<SyntaxElementRef<'a>>;

    /// The first leaf among the children that `predicate` accepts.
    fn find_child_token_by_fn<P: Fn(&SyntaxToken<'a>) -> bool>(&self, predicate: P) -> (r: Option<
        SyntaxToken<'a>,
    >)
        requires
            self.in_tree(),
            forall|t: SyntaxToken<'a>| t.wf() ==> call_requires(predicate, (&t,)),
        ensures
            r matches Some(t) ==> t.wf(),
            match r {
                Some(t) => exists|k: int|
                    0 <= k < self.elements().len() && #[trigger] self.elements()[k]
                        == SyntaxElementRef::Token(t) && call_ensures(predicate, (&t,), true)
                        && forall|j: int|
                        0 <= j < k ==> (#[trigger] self.elements()[j] matches SyntaxElementRef::Token(
                            u,
                        ) ==> call_ensures(predicate, (&u,), false)),
                None => forall|j: int|
                    0 <= j < self.elements().len() ==> (
                    #[trigger] self.elements()[j] matches SyntaxElementRef::Token(u)
                        ==> call_ensures(predicate, (&u,), false)),
            },
    ;

    /// The first node among the children that `predicate` accepts.
    fn find_child_node_by_fn<P: Fn(&SyntaxNode<'a>) -> bool>(&self, predicate: P) -> (r: Option<
        SyntaxNode<'a>,
    >)
        requires
            self.in_tree(),
            forall|n: SyntaxNode<'a>| n.wf() ==> call_requires(predicate, (&n,)),
        ensures
            r matches Some(n) ==> n.wf(),
            match r {
                Some(n) => exists|k: int|
                    0 <= k < self.elements().len() && #[trigger] self.elements()[k]
                        == SyntaxElementRef::Node(n) && call_ensures(predicate, (&n,), true)
                        && forall|j: int|
                        0 <= j < k ==> (#[trigger] self.elements()[j] matches SyntaxElementRef::Node(
                            u,
                        ) ==> call_ensures(predicate, (&u,), false)),
                None => forall|j: int|
                    0 <= j < self.elements().len() ==> (
                    #[trigger] self.elements()[j] matches SyntaxElementRef::Node(u)
                        ==> call_ensures(predicate, (&u,), false)),
            },
    ;

    /// The leaves among the children that `predicate` accepts, from left
    /// to right.
    fn find_child_tokens_by_fn<P: Fn(&SyntaxToken<'a>) -> bool>(&self, predicate: P) -> (r: Vec<
        SyntaxToken<'a>,
    >)
        requires
            self.in_tree(),
            forall|t: SyntaxToken<'a>| t.wf() ==> call_requires(predicate, (&t,)),
        ensures
            forall|x: int|
                0 <= x < r@.len() ==> call_ensures(predicate, (&#[trigger] r@[x],), true) && exists|
                    k: int,
                |
                    0 <= k < self.elements().len() && #[trigger] self.elements()[k]
                        == SyntaxElementRef::Token(r@[x]),
            forall|j: int|
                0 <= j < self.elements().len() ==> (
                #[trigger] self.elements()[j] matches SyntaxElementRef::Token(u) ==> call_ensures(
                    predicate,
                    (&u,),
                    false,
                ) || exists|x: int| 0 <= x < r@.len() && #[trigger] r@[x] == u),
    ;

    /// The nodes among the children that `predicate` accepts, from left to
    /// right.
    fn find_child_nodes_by_fn<P: Fn(&SyntaxNode<'a>) -> bool>(&self, predicate: P) -> (r: Vec<
        SyntaxNode<'a>,
    >)
        requires
            self.in_tree(),
            forall|n: SyntaxNode<'a>| n.wf() ==> call_requires(predicate, (&n,)),
        ensures
            forall|x: int|
                0 <= x < r@.len() ==> call_ensures(predicate, (&#[trigger] r@[x],), true) && exists|
                    k: int,
                |
                    0 <= k < self.elements().len() && #[trigger] self.elements()[k]
                        == SyntaxElementRef::Node(r@[x]),
            forall|j: int|
                0 <= j < self.elements().len() ==> (
                #[trigger] self.elements()[j] matches SyntaxElementRef::Node(u) ==> call_ensures(
                    predicate,
                    (&u,),
                    false,
                ) || exists|x: int| 0 <= x < r@.len() && #[trigger] r@[x] == u),
    ;
}

impl<'a> SyntaxNodeEx<'a> for SyntaxNode<'a> {
    open spec fn in_tree(&self) -> bool {
        self.wf()
    }

    open spec fn elements(&self) -> Seq<SyntaxElementRef<'a>> {
        Seq::new(
            self.child_elements().len(),
            |k: int|
                match self.child_elements()[k] {
                    Element::Node(j) => SyntaxElementRef::Node(
                        SyntaxNode { tree: self.tree, source: self.source, index: j },
                    ),
                    Element::Token(t) => SyntaxElementRef::Token(
                        SyntaxToken { tree: self.tree, source: self.source, index: t },
                    ),
                },
        )
    }

    fn find_child_token_by_fn<P: Fn(&SyntaxToken<'a>) -> bool>(&self, predicate: P) -> (r: Option<
        SyntaxToken<'a>,
    >) {
        let children = self.children_with_tokens();
        let mut k: usize = 0;
        while k < children.len()
            invariant
                self.wf(),
                0 <= k <= children@.len(),
                children@.len() == self.elements().len(),
                forall|t: SyntaxToken<'a>| t.wf() ==> call_requires(predicate, (&t,)),
                forall|x: int|
                    0 <= x < children@.len() ==> (#[trigger] children@[x]).wf() && children@[x]
                        == self.elements()[x],
                forall|j: int|
                    0 <= j < k ==> (#[trigger] self.elements()[j] matches SyntaxElementRef::Token(u)
                        ==> call_ensures(predicate, (&u,), false)),
            decreases children@.len() - k,
        {
            if let SyntaxElementRef::Token(t) = children[k] {
                if predicate(&t) {
                    assert(self.elements()[k as int] == SyntaxElementRef::Token(t));
                    return Some(t);
                }
            }
            k += 1;
        }
        None
    }
    fn find_child_node_by_fn<P: Fn(&SyntaxNode<'a>) -> bool>(&self, predicate: P) -> (r: Option<
        SyntaxNode<'a>,
    >) {
        let children = self.children_with_tokens();
        let mut k: usize = 0;
        while k < children.len()
            invariant
                self.wf(),
                0 <= k <= children@.len(),
                children@.len() == self.elements().len(),
                forall|n: SyntaxNode<'a>| n.wf() ==> call_requires(predicate, (&n,)),
                forall|x: int|
                    0 <= x < children@.len() ==> (#[trigger] children@[x]).wf() && children@[x]
                        == self.elements()[x],
                forall|j: int|
                    0 <= j < k ==> (#[trigger] self.elements()[j] matches SyntaxElementRef::Node(u)
                        ==> call_ensures(predicate, (&u,), false)),
            decreases children@.len() - k,
        {
            if let SyntaxElementRef::Node(n) = children[k] {
                if predicate(&n) {
                    assert(self.elements()[k as int] == SyntaxElementRef::Node(n));
                    return Some(n);
                }
            }
            k += 1;
        }
        None
    }

    fn find_child_tokens_by_fn<P: Fn(&SyntaxToken<'a>) -> bool>(&self, predicate: P) -> (r: Vec<
        SyntaxToken<'a>,
    >) {
        let children = self.children_with_tokens();
        let mut r: Vec<SyntaxToken<'a>> = Vec::new();
        let mut k: usize = 0;
        while k < children.len()
            invariant
                self.wf(),
                0 <= k <= children@.len(),
                children@.len() == self.elements().len(),
                forall|t: SyntaxToken<'a>| t.wf() ==> call_requires(predicate, (&t,)),
                forall|x: int|
                    0 <= x < children@.len() ==> (#[trigger] children@[x]).wf() && children@[x]
                        == self.elements()[x],
                forall|x: int|
                    0 <= x < r@.len() ==> call_ensures(predicate, (&#[trigger] r@[x],), true)
                        && exists|j: int|
                        0 <= j < k && #[trigger] self.elements()[j] == SyntaxElementRef::Token(
                            r@[x],
                        ),
                forall|j: int|
                    0 <= j < k ==> (#[trigger] self.elements()[j] matches SyntaxElementRef::Token(u)
                        ==> call_ensures(predicate, (&u,), false) || exists|x: int|
                        0 <= x < r@.len() && #[trigger] r@[x] == u),
            decreases children@.len() - k,
        {
            if let SyntaxElementRef::Token(t) = children[k] {
                if predicate(&t) {
                    let ghost before = r@;
                    r.push(t);
                    proof {
                        assert(self.elements()[k as int] == SyntaxElementRef::Token(t));
                        assert forall|j: int| 0 <= j < k + 1 implies (
                        #[trigger] self.elements()[j] matches SyntaxElementRef::Token(u)
                            ==> call_ensures(predicate, (&u,), false) || exists|x: int|
                            0 <= x < r@.len() && #[trigger] r@[x] == u) by {
                            if let SyntaxElementRef::Token(u) = self.elements()[j] {
                                if j < k {
                                    if !call_ensures(predicate, (&u,), false) {
                                        let x = choose|x: int|
                                            0 <= x < before.len() && #[trigger] before[x] == u;
                                        assert(r@[x] == u);
                                    }
                                } else {
                                    assert(r@[before.len() as int] == u);
                                }
                            }
                        }
                    }
                }
            }
            k += 1;
        }
        r
    }

    fn find_child_nodes_by_fn<P: Fn(&SyntaxNode<'a>) -> bool>(&self, predicate: P) -> (r: Vec<
        SyntaxNode<'a>,
    >) {
        let children = self.children_with_tokens();
        let mut r: Vec<SyntaxNode<'a>> = Vec::new();
        let mut k: usize = 0;
        while k < children.len()
            invariant
                self.wf(),
                0 <= k <= children@.len(),
                children@.len() == self.elements().len(),
                forall|n: SyntaxNode<'a>| n.wf() ==> call_requires(predicate, (&n,)),
                forall|x: int|
                    0 <= x < children@.len() ==> (#[trigger] children@[x]).wf() && children@[x]
                        == self.elements()[x],
                forall|x: int|
                    0 <= x < r@.len() ==> call_ensures(predicate, (&#[trigger] r@[x],), true)
                        && exists|j: int|
                        0 <= j < k && #[trigger] self.elements()[j] == SyntaxElementRef::Node(
                            r@[x],
                        ),
                forall|j: int|
                    0 <= j < k ==> (#[trigger] self.elements()[j] matches SyntaxElementRef::Node(u)
                        ==> call_ensures(predicate, (&u,), false) || exists|x: int|
                        0 <= x < r@.len() && #[trigger] r@[x] == u),
            decreases children@.len() - k,
        {
            if let SyntaxElementRef::Node(n) = children[k] {
                if predicate(&n) {
                    let ghost before = r@;
                    r.push(n);
                    proof {
                        assert(self.elements()[k as int] == SyntaxElementRef::Node(n));
                        assert forall|j: int| 0 <= j < k + 1 implies (
                        #[trigger] self.elements()[j] matches SyntaxElementRef::Node(u)
                            ==> call_ensures(predicate, (&u,), false) || exists|x: int|
                            0 <= x < r@.len() && #[trigger] r@[x] == u) by {
                            if let SyntaxElementRef::Node(u) = self.elements()[j] {
                                if j < k {
                                    if !call_ensures(predicate, (&u,), false) {
                                        let x = choose|x: int|
                                            0 <= x < before.len() && #[trigger] before[x] == u;
                                        assert(r@[x] == u);
                                    }
                                } else {
                                    assert(r@[before.len() as int] == u);
                                }
                            }
                        }
                    }
                }
            }
            k += 1;
        }
        r
    }
}

} // verus!
