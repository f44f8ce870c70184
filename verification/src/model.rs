//! The mathematical model of a document: a sequence of nodes, each with its
//! parent and its ordered children, addressed by their index.

use vstd::prelude::*;
use crate::kinds::{ElementKind, NodeKind};

verus! {

/// The value of an attribute.
pub enum ValueModel {
    /// A literal string.
    Text(Seq<char>),
    /// A number, in its decimal text.
    Number(Seq<char>),
    /// A bare reference to the element with this identifier.
    Link(Seq<char>),
    /// A functional reference to the element with this identifier.
    FuncLink(Seq<char>),
    /// Any other typed value, in its canonical text.
    Other(Seq<char>),
}

impl ValueModel {
    /// Whether the value refers to the element with identifier `id`.
    pub open spec fn links_to(self, id: Seq<char>) -> bool {
        self == ValueModel::Link(id) || self == ValueModel::FuncLink(id)
    }
}

/// An attribute: a key and its value.
pub struct AttrModel {
    pub name: Seq<char>,
    pub value: ValueModel,
}

/// One node of the tree.
pub struct NodeModel {
    pub kind: NodeKind,
    /// The identifier of the node; empty where it has none.
    pub id: Seq<char>,
    pub attrs: Seq<AttrModel>,
    pub parent: Option<usize>,
    pub children: Seq<usize>,
}

/// A witness that following parents ends: a depth for every node that is
/// greater than its parent's, and a bound above all depths.
pub struct Ranking {
    pub depth: Seq<nat>,
    pub bound: nat,
}

/// A document: node 0 is the root.
pub struct DocModel {
    pub nodes: Seq<NodeModel>,
}

/// Whether some attribute of `attrs` has the key `name`.
pub open spec fn has_key(attrs: Seq<AttrModel>, name: Seq<char>) -> bool {
    exists|i: int| 0 <= i < attrs.len() && (#[trigger] attrs[i]).name == name
}

/// The value of the first attribute of `attrs` with the key `name`.
pub open spec fn value_of(attrs: Seq<AttrModel>, name: Seq<char>) -> Option<ValueModel>
    decreases attrs.len(),
{
    if attrs.len() == 0 {
        None
    } else if attrs[0].name == name {
        Some(attrs[0].value)
    } else {
        value_of(attrs.drop_first(), name)
    }
}

/// No two attributes of `attrs` share a key.
pub open spec fn distinct_keys(attrs: Seq<AttrModel>) -> bool {
    forall|i: int, j: int|
        0 <= i < j < attrs.len() ==> (#[trigger] attrs[i]).name != (#[trigger] attrs[j]).name
}

impl DocModel {
    pub open spec fn has(self, x: usize) -> bool {
        (x as int) < self.nodes.len()
    }

    pub open spec fn kind(self, x: usize) -> NodeKind {
        self.nodes[x as int].kind
    }

    pub open spec fn id(self, x: usize) -> Seq<char> {
        self.nodes[x as int].id
    }

    pub open spec fn attrs(self, x: usize) -> Seq<AttrModel> {
        self.nodes[x as int].attrs
    }

    pub open spec fn parent(self, x: usize) -> Option<usize> {
        self.nodes[x as int].parent
    }

    pub open spec fn children(self, x: usize) -> Seq<usize> {
        self.nodes[x as int].children
    }

    /// Parents and children agree, and no node is listed twice.
    pub open spec fn linked(self) -> bool {
        &&& forall|p: usize, i: int|
            self.has(p) && 0 <= i < self.children(p).len() ==> self.has(
                #[trigger] self.children(p)[i],
            ) && self.parent(self.children(p)[i]) == Some(p)
        &&& forall|c: usize|
            self.has(c) && (#[trigger] self.parent(c)) is Some ==> self.has(self.parent(c).unwrap())
                && self.children(self.parent(c).unwrap()).contains(c)
        &&& forall|p: usize| self.has(p) ==> (#[trigger] self.children(p)).no_duplicates()
    }

    pub open spec fn ranked(self, r: Ranking) -> bool {
        &&& r.depth.len() == self.nodes.len()
        &&& forall|x: usize| self.has(x) ==> (#[trigger] r.depth[x as int]) < r.bound
        &&& forall|c: usize|
            self.has(c) && (#[trigger] self.parent(c)) is Some ==> r.depth[self.parent(
                c,
            ).unwrap() as int] < r.depth[c as int]
    }

    /// Following parents from any node ends.
    pub open spec fn acyclic(self) -> bool {
        exists|r: Ranking| self.ranked(r)
    }

    pub open spec fn ranking(self) -> Ranking {
        choose|r: Ranking| self.ranked(r)
    }

    pub open spec fn depth(self, x: usize) -> nat {
        self.ranking().depth[x as int]
    }

    pub open spec fn height(self, x: usize) -> nat {
        (self.ranking().bound - self.ranking().depth[x as int]) as nat
    }

    /// The nodes form a forest of trees.
    pub open spec fn forest(self) -> bool {
        self.linked() && self.acyclic()
    }

    /// The validity of a document: node 0 is the root and has no parent, the
    /// nodes form trees, and the attributes of each node have distinct keys.
    pub open spec fn wf(self) -> bool {
        &&& 0 < self.nodes.len() <= usize::MAX
        &&& self.kind(0) == NodeKind::Root
        &&& self.parent(0) is None
        &&& self.forest()
        &&& forall|x: usize| self.has(x) ==> distinct_keys(#[trigger] self.attrs(x))
    }

    /// Whether `x` is `top` or one of its descendants.
    pub open spec fn is_under(self, x: usize, top: usize) -> bool
        decreases self.depth(x),
        when self.forest() && self.has(x)
    {
        x == top || match self.parent(x) {
            Some(p) => self.is_under(p, top),
            None => false,
        }
    }

    /// Whether `x` belongs to the tree of the root.
    pub open spec fn attached(self, x: usize) -> bool {
        self.has(x) && self.is_under(x, 0)
    }

    /// Whether a proper ancestor of `x` is an element of kind `kind`.
    pub open spec fn has_ancestor_of_kind(self, x: usize, kind: ElementKind) -> bool
        decreases self.depth(x),
        when self.forest() && self.has(x)
    {
        match self.parent(x) {
            Some(p) => self.kind(p).is(kind) || self.has_ancestor_of_kind(p, kind),
            None => false,
        }
    }

    /// The nodes of the tree under `x` in document order: `x`, then the
    /// subtrees of its children from first to last.
    pub open spec fn subtree_order(self, x: usize) -> Seq<usize>
        decreases self.height(x), 1nat, 0nat,
        when self.forest() && self.has(x)
    {
        seq![x] + self.children_order(x, 0)
    }

    /// The nodes of the subtrees of the children of `x` from position `from`
    /// on, in document order.
    pub open spec fn children_order(self, x: usize, from: nat) -> Seq<usize>
        decreases self.height(x), 0nat, self.children(x).len() - from,
        when self.forest() && self.has(x)
    {
        if from >= self.children(x).len() {
            Seq::empty()
        } else {
            self.subtree_order(self.children(x)[from as int]) + self.children_order(x, from + 1)
        }
    }

    /// Every node of the tree of the root, in document order.
    pub open spec fn descendants(self) -> Seq<usize> {
        self.subtree_order(0)
    }
}

} // verus!
