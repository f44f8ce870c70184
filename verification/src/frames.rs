//! What the edits keep of the tree of the root: which nodes belong to it,
//! which identifiers its attributes refer to, and where its two containers
//! stand.

use vstd::prelude::*;
use crate::attrs::absorb;
use crate::edit::{lemma_detached_wf, lemma_moved_wf};
use crate::model::{AttrModel, DocModel, has_key};
use crate::order::lemma_parent_depth;
use crate::resolve::{inheritable_of, lemma_resolved_wf};
use crate::shape::lemma_same_shape;

verus! {

proof fn lemma_moved_under_root(d: DocModel, top: usize, into: usize, x: usize, y: usize)
    requires
        d.wf(),
        d.chain(top, into),
        d.movable(top, into, x),
        d.attached(x),
        d.has(y),
    ensures
        d.moved(x, into).is_under(y, 0) == d.is_under(y, 0),
    decreases d.moved(x, into).depth(y),
{
    let e = d.moved(x, into);
    lemma_moved_wf(d, top, into, x);
    if y == 0 {
    } else if y == x {
        assert(e.is_under(0, 0));
        assert(e.is_under(top, 0));
        assert(e.is_under(into, 0));
        assert(e.is_under(x, 0));
    } else {
        assert(e.parent(y) == d.parent(y));
        if d.parent(y) is Some {
            lemma_parent_depth(e, y);
            lemma_moved_under_root(d, top, into, x, d.parent(y).unwrap());
        }
    }
}

/// A move of a node of the tree of the root keeps every node where it was:
/// in that tree or outside it.
pub proof fn lemma_moved_attached(d: DocModel, top: usize, into: usize, x: usize)
    requires
        d.wf(),
        d.chain(top, into),
        d.movable(top, into, x),
        d.attached(x),
    ensures
        forall|y: usize| #[trigger] d.moved(x, into).attached(y) == d.attached(y),
{
    lemma_moved_wf(d, top, into, x);
    assert forall|y: usize| #[trigger] d.moved(x, into).attached(y) == d.attached(y) by {
        if d.has(y) {
            lemma_moved_under_root(d, top, into, x, y);
        }
    }
}

proof fn lemma_detached_under_root(d: DocModel, x: usize, y: usize)
    requires
        d.wf(),
        d.has(x),
        d.has(y),
    ensures
        d.detached(x).is_under(y, 0) ==> d.is_under(y, 0),
    decreases d.depth(y),
{
    let e = d.detached(x);
    lemma_detached_wf(d, x);
    if y == 0 {
    } else if y == x {
        assert(!e.is_under(x, 0));
    } else {
        assert(e.parent(y) == d.parent(y));
        if d.parent(y) is Some {
            lemma_parent_depth(d, y);
            lemma_detached_under_root(d, x, d.parent(y).unwrap());
        }
    }
}

/// Cutting a node from its parent brings no node into the tree of the root,
/// and takes the node itself out of it.
pub proof fn lemma_detached_attached(d: DocModel, x: usize)
    requires
        d.wf(),
        d.has(x),
    ensures
        forall|y: usize| #[trigger] d.detached(x).attached(y) ==> d.attached(y),
        x != 0 ==> !d.detached(x).attached(x),
{
    lemma_detached_wf(d, x);
    assert forall|y: usize| #[trigger] d.detached(x).attached(y) implies d.attached(y) by {
        lemma_detached_under_root(d, x, y);
    }
    if x != 0 {
        assert(!d.detached(x).is_under(x, 0));
    }
}

/// A node without a parent, other than the root, is outside the tree of the
/// root.
pub proof fn lemma_loose_not_attached(d: DocModel, y: usize)
    requires
        d.wf(),
        d.has(y),
        y != 0,
        d.parent(y) is None,
    ensures
        !d.attached(y),
{
    assert(!d.is_under(y, 0));
}

/// A child of a node of the tree of the root belongs to that tree, and so
/// does the parent of a node that belongs to it.
pub proof fn lemma_attached_step(d: DocModel, y: usize)
    requires
        d.wf(),
        d.has(y),
        d.parent(y) is Some,
    ensures
        d.attached(y) == d.attached(d.parent(y).unwrap()),
{
    lemma_parent_depth(d, y);
    assert(d.parent(0usize) is None);
    assert(y != 0);
}

/// Where the attributes are the same and no node has come into the tree of
/// the root, its attributes refer to no new identifier.
pub proof fn lemma_targets_shrink(d: DocModel, e: DocModel)
    requires
        d.nodes.len() == e.nodes.len(),
        forall|y: usize| #[trigger] e.attached(y) ==> d.attached(y),
        forall|y: usize| d.has(y) ==> #[trigger] e.attrs(y) == d.attrs(y),
    ensures
        forall|id: Seq<char>| #[trigger] e.is_link_target(id) ==> d.is_link_target(id),
{
    assert forall|id: Seq<char>| #[trigger] e.is_link_target(id) implies d.is_link_target(id) by {
        let (y, i) = choose|y: usize, i: int|
            e.attached(y) && 0 <= i < e.attrs(y).len() && (#[trigger] e.attrs(y)[i]).value.links_to(
                id,
            );
        assert(d.attached(y));
        assert(e.attrs(y) == d.attrs(y));
        assert(d.attrs(y)[i].value.links_to(id));
    }
}

/// What a list has taken over comes from the other list.
pub proof fn lemma_absorb_member(own: Seq<AttrModel>, extra: Seq<AttrModel>, i: int)
    requires
        0 <= i < absorb(own, extra).len(),
    ensures
        own.len() <= absorb(own, extra).len(),
        i < own.len() ==> absorb(own, extra)[i] == own[i],
        i >= own.len() ==> extra.contains(absorb(own, extra)[i]),
    decreases extra.len(),
{
    if extra.len() > 0 {
        let rest = extra.drop_first();
        if has_key(own, extra[0].name) {
            lemma_absorb_member(own, rest, i);
            if i >= own.len() {
                let v = absorb(own, extra)[i];
                let k = choose|k: int| 0 <= k < rest.len() && rest[k] == v;
                assert(extra[k + 1] == v);
            }
        } else {
            let next = own.push(extra[0]);
            lemma_absorb_member(next, rest, i);
            if i < own.len() {
                assert(next[i] == own[i]);
            } else if i == own.len() {
                assert(next[i] == extra[0]);
                assert(extra[0] == absorb(own, extra)[i]);
            } else {
                let v = absorb(own, extra)[i];
                let k = choose|k: int| 0 <= k < rest.len() && rest[k] == v;
                assert(extra[k + 1] == v);
            }
        }
    }
}

/// The inheritable attributes of a list are attributes of the list.
pub proof fn lemma_inheritable_of_member(attrs: Seq<AttrModel>, v: AttrModel)
    requires
        inheritable_of(attrs).contains(v),
    ensures
        attrs.contains(v),
    decreases attrs.len(),
{
    if attrs.len() > 0 {
        let rest = attrs.drop_last();
        let k = choose|k: int| 0 <= k < inheritable_of(attrs).len() && inheritable_of(attrs)[k] == v;
        if crate::keys::inheritable_key(attrs.last().name) && k == inheritable_of(rest).len() {
            assert(attrs[attrs.len() - 1] == v);
        } else {
            assert(inheritable_of(rest)[k] == v);
            lemma_inheritable_of_member(rest, v);
            let j = choose|j: int| 0 <= j < rest.len() && rest[j] == v;
            assert(attrs[j] == v);
        }
    }
}

/// What a node of the tree of the root inherits are attributes of nodes of
/// that tree.
pub proof fn lemma_inheritable_above_member(d: DocModel, x: usize, v: AttrModel)
    requires
        d.wf(),
        d.attached(x),
        d.inheritable_above(x).contains(v),
    ensures
        exists|a: usize, j: int|
            d.attached(a) && 0 <= j < d.attrs(a).len() && (#[trigger] d.attrs(a)[j]) == v,
    decreases d.depth(x),
{
    match d.parent(x) {
        Some(p) => {
            lemma_parent_depth(d, x);
            lemma_attached_step(d, x);
            crate::seqs::lemma_contains_add(inheritable_of(d.attrs(p)), d.inheritable_above(p), v);
            if inheritable_of(d.attrs(p)).contains(v) {
                lemma_inheritable_of_member(d.attrs(p), v);
                let j = choose|j: int| 0 <= j < d.attrs(p).len() && d.attrs(p)[j] == v;
                assert(d.attached(p) && d.attrs(p)[j] == v);
            } else {
                lemma_inheritable_above_member(d, p, v);
            }
        },
        None => {
            assert(d.inheritable_above(x) =~= Seq::<AttrModel>::empty());
        },
    }
}

/// Resolving what the children of a node of the tree of the root inherit
/// lets the attributes of that tree refer to no new identifier.
pub proof fn lemma_resolved_targets(d: DocModel, x: usize)
    requires
        d.wf(),
        d.attached(x),
    ensures
        forall|id: Seq<char>| #[trigger] d.resolved(x).is_link_target(id) ==> d.is_link_target(id),
        forall|y: usize| #[trigger] d.resolved(x).attached(y) == d.attached(y),
{
    let e = d.resolved(x);
    lemma_resolved_wf(d, x);
    lemma_same_shape(d, e);
    assert forall|id: Seq<char>| #[trigger] e.is_link_target(id) implies d.is_link_target(id) by {
        let (y, i) = choose|y: usize, i: int|
            e.attached(y) && 0 <= i < e.attrs(y).len() && (#[trigger] e.attrs(y)[i]).value.links_to(
                id,
            );
        assert(d.attached(y));
        if d.sensitive(x) && d.parent(y) == Some(x) {
            let own = d.attrs(y);
            let extra = d.inheritable_above(x);
            assert(e.attrs(y) == absorb(own, extra));
            lemma_absorb_member(own, extra, i);
            if i < own.len() {
                assert(d.attrs(y)[i].value.links_to(id));
            } else {
                let v = e.attrs(y)[i];
                lemma_inheritable_above_member(d, x, v);
                let (a, j) = choose|a: usize, j: int|
                    d.attached(a) && 0 <= j < d.attrs(a).len() && (#[trigger] d.attrs(a)[j]) == v;
                assert(d.attrs(a)[j].value.links_to(id));
            }
        } else {
            assert(e.attrs(y) == d.attrs(y));
            assert(d.attrs(y)[i].value.links_to(id));
        }
    }
}

} // verus!
