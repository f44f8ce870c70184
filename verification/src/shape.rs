//! Documents of one shape: what depends only on where the nodes hang is the
//! same in both.

use vstd::prelude::*;
use crate::kinds::ElementKind;
use crate::model::{AttrModel, DocModel, distinct_keys};
use crate::order::{lemma_child_height, lemma_parent_depth};

verus! {

impl DocModel {
    /// The two documents have the same nodes, hung in the same way.
    pub open spec fn same_shape(self, other: DocModel) -> bool {
        &&& self.nodes.len() == other.nodes.len()
        &&& forall|x: usize|
            #![trigger self.parent(x)]
            #![trigger self.children(x)]
            #![trigger other.parent(x)]
            #![trigger other.children(x)]
            self.has(x) ==> self.parent(x) == other.parent(x) && self.children(x)
                == other.children(x)
    }

    /// The two documents have nodes of the same kinds.
    pub open spec fn same_kinds(self, other: DocModel) -> bool {
        &&& self.nodes.len() == other.nodes.len()
        &&& forall|x: usize|
            #![trigger self.kind(x)]
            #![trigger other.kind(x)]
            self.has(x) ==> self.kind(x) == other.kind(x)
    }
}

pub proof fn lemma_same_shape_forest(d: DocModel, e: DocModel)
    requires
        d.forest(),
        d.same_shape(e),
    ensures
        e.forest(),
{
    assert forall|p: usize, i: int| e.has(p) && 0 <= i < e.children(p).len() implies e.has(
        #[trigger] e.children(p)[i],
    ) && e.parent(e.children(p)[i]) == Some(p) by {
        assert(d.children(p) == e.children(p));
        let c = d.children(p)[i];
        assert(d.has(c) && d.parent(c) == Some(p));
    }
    assert forall|c: usize| e.has(c) && (#[trigger] e.parent(c)) is Some implies e.has(
        e.parent(c).unwrap(),
    ) && e.children(e.parent(c).unwrap()).contains(c) by {
        assert(d.parent(c) == e.parent(c));
        assert(d.children(d.parent(c).unwrap()) == e.children(d.parent(c).unwrap()));
    }
    assert forall|p: usize| e.has(p) implies (#[trigger] e.children(p)).no_duplicates() by {
        assert(d.children(p) == e.children(p));
    }
    let r = d.ranking();
    assert(d.ranked(r));
    assert(e.ranked(r)) by {
        assert forall|c: usize| e.has(c) && (#[trigger] e.parent(c)) is Some implies r.depth[e.parent(
            c,
        ).unwrap() as int] < r.depth[c as int] by {
            assert(d.parent(c) == e.parent(c));
        }
    }
}

pub proof fn lemma_same_shape_under(d: DocModel, e: DocModel, x: usize, top: usize)
    requires
        d.forest(),
        d.same_shape(e),
        d.has(x),
    ensures
        e.is_under(x, top) == d.is_under(x, top),
    decreases d.depth(x),
{
    lemma_same_shape_forest(d, e);
    assert(d.parent(x) == e.parent(x));
    if x != top && d.parent(x) is Some {
        lemma_parent_depth(d, x);
        lemma_same_shape_under(d, e, d.parent(x).unwrap(), top);
    }
}

pub proof fn lemma_same_shape_subtree(d: DocModel, e: DocModel, x: usize)
    requires
        d.forest(),
        d.same_shape(e),
        d.has(x),
    ensures
        e.subtree_order(x) == d.subtree_order(x),
    decreases d.height(x), 1nat, 0nat,
{
    lemma_same_shape_forest(d, e);
    lemma_same_shape_children(d, e, x, 0);
}

pub proof fn lemma_same_shape_children(d: DocModel, e: DocModel, x: usize, from: nat)
    requires
        d.forest(),
        d.same_shape(e),
        d.has(x),
    ensures
        e.children_order(x, from) == d.children_order(x, from),
    decreases d.height(x), 0nat, d.children(x).len() - from,
{
    lemma_same_shape_forest(d, e);
    assert(d.children(x) == e.children(x));
    if from < d.children(x).len() {
        lemma_child_height(d, x, from as int);
        lemma_same_shape_subtree(d, e, d.children(x)[from as int]);
        lemma_same_shape_children(d, e, x, from + 1);
    }
}

/// In documents of one shape the same nodes belong to the tree of the root,
/// and document order is the same.
pub proof fn lemma_same_shape(d: DocModel, e: DocModel)
    requires
        d.forest(),
        d.same_shape(e),
        0 < d.nodes.len(),
    ensures
        e.forest(),
        e.descendants() == d.descendants(),
        forall|x: usize| #[trigger] e.attached(x) == d.attached(x),
{
    lemma_same_shape_forest(d, e);
    lemma_same_shape_subtree(d, e, 0);
    assert forall|x: usize| #[trigger] e.attached(x) == d.attached(x) by {
        if d.has(x) {
            lemma_same_shape_under(d, e, x, 0);
        }
    }
}

/// New attributes with distinct keys on one node leave the document valid.
pub proof fn lemma_with_attrs_wf(d: DocModel, x: usize, attrs: Seq<AttrModel>)
    requires
        d.wf(),
        d.has(x),
        distinct_keys(attrs),
    ensures
        d.with_attrs(x, attrs).wf(),
        d.same_shape(d.with_attrs(x, attrs)),
        d.same_kinds(d.with_attrs(x, attrs)),
{
    let e = d.with_attrs(x, attrs);
    assert(d.same_shape(e));
    lemma_same_shape_forest(d, e);
    assert forall|y: usize| e.has(y) implies distinct_keys(#[trigger] e.attrs(y)) by {
        if y != x {
            assert(e.attrs(y) == d.attrs(y));
        }
    }
}

/// A new identifier on one node leaves the document valid.
pub proof fn lemma_with_id_wf(d: DocModel, x: usize, id: Seq<char>)
    requires
        d.wf(),
        d.has(x),
    ensures
        d.with_id(x, id).wf(),
        d.same_shape(d.with_id(x, id)),
        d.same_kinds(d.with_id(x, id)),
{
    let e = d.with_id(x, id);
    assert(d.same_shape(e));
    lemma_same_shape_forest(d, e);
    assert forall|y: usize| e.has(y) implies distinct_keys(#[trigger] e.attrs(y)) by {
        assert(e.attrs(y) == d.attrs(y));
    }
}

impl DocModel {
    /// `other` holds the nodes of this document, each with the parent and
    /// the kind that it has here, and maybe more nodes.
    pub open spec fn extended_by(self, other: DocModel) -> bool {
        &&& self.nodes.len() <= other.nodes.len()
        &&& forall|x: usize|
            #![trigger other.parent(x)]
            #![trigger other.kind(x)]
            self.has(x) ==> self.parent(x) == other.parent(x) && self.kind(x) == other.kind(x)
    }
}

pub proof fn lemma_extended_under(d: DocModel, e: DocModel, x: usize, top: usize)
    requires
        d.forest(),
        e.forest(),
        d.extended_by(e),
        d.has(x),
    ensures
        e.is_under(x, top) == d.is_under(x, top),
    decreases d.depth(x),
{
    assert(d.parent(x) == e.parent(x));
    if x != top && d.parent(x) is Some {
        lemma_parent_depth(d, x);
        lemma_extended_under(d, e, d.parent(x).unwrap(), top);
    }
}

pub proof fn lemma_extended_ancestor_kind(d: DocModel, e: DocModel, x: usize, kind: ElementKind)
    requires
        d.forest(),
        e.forest(),
        d.extended_by(e),
        d.has(x),
    ensures
        e.has_ancestor_of_kind(x, kind) == d.has_ancestor_of_kind(x, kind),
    decreases d.depth(x),
{
    assert(d.parent(x) == e.parent(x));
    if d.parent(x) is Some {
        lemma_parent_depth(d, x);
        let p = d.parent(x).unwrap();
        assert(d.kind(p) == e.kind(p));
        lemma_extended_ancestor_kind(d, e, p, kind);
    }
}

} // verus!
