//! What each step of the consolidation pass keeps: the two containers stay
//! where they are, no node comes into the tree of the root, and its
//! attributes refer to no new identifier.

use vstd::prelude::*;
use crate::edit::{lemma_detached_wf, lemma_moved_wf};
use crate::frames::{
    lemma_detached_attached, lemma_moved_attached, lemma_resolved_targets, lemma_targets_shrink,
};
use crate::group_defs::lemma_first_of_kind;
use crate::kinds::ElementKind;
use crate::model::{AttrModel, DocModel};
use crate::resolve::{lemma_absorb_prefix, lemma_resolved_wf};

verus! {

/// An element of the kind at `i`, with none of the kind before it, is the
/// first element of the kind.
pub proof fn lemma_first_of_kind_at(d: DocModel, nodes: Seq<usize>, kind: ElementKind, i: int)
    requires
        0 <= i < nodes.len(),
        d.kind(nodes[i]).is(kind),
        forall|j: int| 0 <= j < i ==> !d.kind(#[trigger] nodes[j]).is(kind),
    ensures
        d.first_of_kind(nodes, kind) == Some(nodes[i]),
    decreases i,
{
    if i > 0 {
        let rest = nodes.drop_first();
        assert(!d.kind(nodes[0]).is(kind));
        assert forall|j: int| 0 <= j < i - 1 implies !d.kind(#[trigger] rest[j]).is(kind) by {
            assert(rest[j] == nodes[j + 1]);
        }
        assert(rest[i - 1] == nodes[i]);
        lemma_first_of_kind_at(d, rest, kind, i - 1);
    }
}

/// The first child of a kind stays the first where the list of children
/// stays or loses another child, and the kinds stay.
pub proof fn lemma_first_child_kept(
    d: DocModel,
    e: DocModel,
    p: usize,
    c: usize,
    kind: ElementKind,
    gone: int,
)
    requires
        d.child_of_kind(p, kind) == Some(c),
        forall|j: int|
            0 <= j < d.children(p).len() ==> e.kind(#[trigger] d.children(p)[j]) == d.kind(
                d.children(p)[j],
            ),
        e.children(p) == d.children(p) || (0 <= gone < d.children(p).len() && d.children(p)[gone]
            != c && e.children(p) == d.children(p).remove(gone)),
    ensures
        e.child_of_kind(p, kind) == Some(c),
{
    let cs = d.children(p);
    let es = e.children(p);
    lemma_first_of_kind(d, cs, kind);
    let i = choose|i: int|
        0 <= i < cs.len() && cs[i] == c && d.kind(c).is(kind) && forall|j: int|
            0 <= j < i ==> !d.kind(#[trigger] cs[j]).is(kind);
    if es == cs {
        assert forall|j: int| 0 <= j < i implies !e.kind(#[trigger] es[j]).is(kind) by {
            assert(!d.kind(cs[j]).is(kind));
        }
        assert(e.kind(cs[i]) == d.kind(cs[i]));
        lemma_first_of_kind_at(e, es, kind, i);
    } else {
        let i2 = if gone < i {
            i - 1
        } else {
            i
        };
        assert(es[i2] == cs[i]);
        assert(e.kind(cs[i]) == d.kind(cs[i]));
        assert forall|j: int| 0 <= j < i2 implies !e.kind(#[trigger] es[j]).is(kind) by {
            let j2 = if j < gone {
                j
            } else {
                j + 1
            };
            assert(es[j] == cs[j2]);
            assert(!d.kind(cs[j2]).is(kind));
            assert(e.kind(cs[j2]) == d.kind(cs[j2]));
        }
        lemma_first_of_kind_at(e, es, kind, i2);
    }
}

impl DocModel {
    /// The document is valid, `svg` is its root graphics container and
    /// `defs` its canonical definitions container.
    pub open spec fn anchored(self, svg: usize, defs: usize) -> bool {
        &&& self.wf()
        &&& self.hosts(svg, defs)
        &&& self.svg_element() == Some(svg)
        &&& self.child_of_kind(svg, ElementKind::Defs) == Some(defs)
    }

    /// `defs` is the first child of `svg`.
    pub open spec fn fronted(self, svg: usize, defs: usize) -> bool {
        self.children(svg).len() > 0 && self.children(svg)[0] == defs
    }

    /// `later` holds the same nodes with the same kinds and identifiers,
    /// every attribute that they had is in its place, the two containers
    /// stand as they stood, no node has come into the tree
    /// of the root, and its attributes refer to no new identifier.
    pub open spec fn narrows_to(self, later: DocModel, svg: usize, defs: usize) -> bool {
        &&& later.anchored(svg, defs)
        &&& later.nodes.len() == self.nodes.len()
        &&& forall|y: usize|
            #![trigger later.kind(y)]
            #![trigger later.id(y)]
            self.has(y) ==> later.kind(y) == self.kind(y) && later.id(y) == self.id(y)
        &&& forall|y: usize| self.has(y) ==> begins_with(#[trigger] later.attrs(y), self.attrs(y))
        &&& forall|y: usize| #[trigger] later.attached(y) ==> self.attached(y)
        &&& forall|id: Seq<char>| #[trigger] later.is_link_target(id) ==> self.is_link_target(id)
        &&& self.fronted(svg, defs) ==> later.fronted(svg, defs)
    }
}

/// `later` holds the attributes of `earlier`, each in its place and with
/// its value, and maybe more after them.
pub open spec fn begins_with(later: Seq<AttrModel>, earlier: Seq<AttrModel>) -> bool {
    earlier.len() <= later.len() && later.take(earlier.len() as int) == earlier
}

pub proof fn lemma_narrows_refl(d: DocModel, svg: usize, defs: usize)
    requires
        d.anchored(svg, defs),
    ensures
        d.narrows_to(d, svg, defs),
{
    assert forall|y: usize| d.has(y) implies begins_with(#[trigger] d.attrs(y), d.attrs(y)) by {
        assert(d.attrs(y).take(d.attrs(y).len() as int) =~= d.attrs(y));
    }
}

pub proof fn lemma_narrows_trans(a: DocModel, b: DocModel, c: DocModel, svg: usize, defs: usize)
    requires
        a.narrows_to(b, svg, defs),
        b.narrows_to(c, svg, defs),
    ensures
        a.narrows_to(c, svg, defs),
{
    assert forall|y: usize|
        #![trigger c.kind(y)]
        #![trigger c.id(y)]
        a.has(y) implies c.kind(y) == a.kind(y) && c.id(y) == a.id(y) by {
        assert(b.kind(y) == a.kind(y));
        assert(b.id(y) == a.id(y));
    }
    assert forall|y: usize| a.has(y) implies begins_with(#[trigger] c.attrs(y), a.attrs(y)) by {
        assert(begins_with(b.attrs(y), a.attrs(y)));
        assert(begins_with(c.attrs(y), b.attrs(y)));
        assert(c.attrs(y).take(a.attrs(y).len() as int) =~= c.attrs(y).take(
            b.attrs(y).len() as int,
        ).take(a.attrs(y).len() as int));
    }
    assert forall|y: usize| #[trigger] c.attached(y) implies a.attached(y) by {
        assert(b.attached(y));
    }
    assert forall|id: Seq<char>| #[trigger] c.is_link_target(id) implies a.is_link_target(id) by {
        assert(b.is_link_target(id));
    }
}

/// The three nodes of the chain are distinct.
pub proof fn lemma_chain_distinct(d: DocModel, svg: usize, defs: usize)
    requires
        d.wf(),
        d.chain(svg, defs),
    ensures
        svg != 0,
        defs != 0,
        svg != defs,
        d.attached(svg),
        d.attached(defs),
{
    let r = d.ranking();
    assert(d.ranked(r));
    assert(d.is_under(0, 0));
    assert(d.is_under(svg, 0));
    assert(d.is_under(defs, 0));
}

/// What the move of a node of the tree of the root keeps.
pub proof fn lemma_moved_narrows(d: DocModel, svg: usize, defs: usize, x: usize)
    requires
        d.anchored(svg, defs),
        d.movable(svg, defs, x),
        d.attached(x),
    ensures
        d.narrows_to(d.moved(x, defs), svg, defs),
        d.moved(x, defs).parent(x) == Some(defs),
        forall|y: usize| d.has(y) && y != x ==> #[trigger] d.moved(x, defs).parent(y) == d.parent(y),
        forall|y: usize| #[trigger] d.moved(x, defs).attached(y) == d.attached(y),
{
    let m = d.detached(x);
    let e = d.moved(x, defs);
    lemma_chain_distinct(d, svg, defs);
    lemma_moved_wf(d, svg, defs, x);
    lemma_detached_wf(d, x);
    lemma_moved_attached(d, svg, defs, x);
    lemma_targets_shrink(d, e);
    assert forall|y: usize| d.has(y) implies begins_with(#[trigger] e.attrs(y), d.attrs(y)) by {
        assert(e.attrs(y) == d.attrs(y));
        assert(d.attrs(y).take(d.attrs(y).len() as int) =~= d.attrs(y));
    }
    assert(e.children(0) == m.children(0));
    assert(e.children(svg) == m.children(svg));
    assert forall|p: usize| p == 0 || p == svg implies e.children(p) == d.children(p) || (0
        <= d.children(p).index_of(x) < d.children(p).len() && d.children(p)[d.children(p).index_of(
        x,
    )] == x && e.children(p) == d.children(p).remove(d.children(p).index_of(x))) by {
        if d.parent(x) == Some(p) {
            assert(d.children(p).contains(x));
        } else {
            assert(m.children(p) == d.children(p));
        }
    }
    assert forall|p: usize, j: int| d.has(p) && 0 <= j < d.children(p).len() implies e.kind(
        #[trigger] d.children(p)[j],
    ) == d.kind(d.children(p)[j]) by {
        assert(d.has(d.children(p)[j]));
    }
    lemma_first_child_kept(d, e, 0, svg, ElementKind::Svg, d.children(0).index_of(x));
    lemma_first_child_kept(d, e, svg, defs, ElementKind::Defs, d.children(svg).index_of(x));
    if d.fronted(svg, defs) {
        if d.parent(x) == Some(svg) {
            let i = d.children(svg).index_of(x);
            assert(i != 0);
            assert(d.children(svg).remove(i)[0] == d.children(svg)[0]);
        }
    }
}

/// What cutting a node other than the two containers from its parent keeps.
pub proof fn lemma_detached_narrows(d: DocModel, svg: usize, defs: usize, x: usize)
    requires
        d.anchored(svg, defs),
        d.has(x),
        x != svg,
        x != defs,
    ensures
        d.narrows_to(d.detached(x), svg, defs),
        d.detached(x).parent(x) is None,
        forall|y: usize| d.has(y) && y != x ==> #[trigger] d.detached(x).parent(y) == d.parent(y),
{
    let e = d.detached(x);
    lemma_chain_distinct(d, svg, defs);
    lemma_detached_wf(d, x);
    lemma_detached_attached(d, x);
    lemma_targets_shrink(d, e);
    assert forall|y: usize| d.has(y) implies begins_with(#[trigger] e.attrs(y), d.attrs(y)) by {
        assert(e.attrs(y) == d.attrs(y));
        assert(d.attrs(y).take(d.attrs(y).len() as int) =~= d.attrs(y));
    }
    assert forall|p: usize| p == 0 || p == svg implies e.children(p) == d.children(p) || (0
        <= d.children(p).index_of(x) < d.children(p).len() && d.children(p)[d.children(p).index_of(
        x,
    )] == x && e.children(p) == d.children(p).remove(d.children(p).index_of(x))) by {
        if d.parent(x) == Some(p) {
            assert(d.children(p).contains(x));
        }
    }
    assert forall|p: usize, j: int| d.has(p) && 0 <= j < d.children(p).len() implies e.kind(
        #[trigger] d.children(p)[j],
    ) == d.kind(d.children(p)[j]) by {
        assert(d.has(d.children(p)[j]));
    }
    lemma_first_child_kept(d, e, 0, svg, ElementKind::Svg, d.children(0).index_of(x));
    lemma_first_child_kept(d, e, svg, defs, ElementKind::Defs, d.children(svg).index_of(x));
    if d.fronted(svg, defs) {
        if d.parent(x) == Some(svg) {
            let i = d.children(svg).index_of(x);
            assert(d.children(svg).contains(x));
            assert(i != 0);
            assert(d.children(svg).remove(i)[0] == d.children(svg)[0]);
        }
    }
}

/// What resolving the inheritance of a node of the tree of the root keeps.
pub proof fn lemma_resolved_narrows(d: DocModel, svg: usize, defs: usize, x: usize)
    requires
        d.anchored(svg, defs),
        d.attached(x),
    ensures
        d.narrows_to(d.resolved(x), svg, defs),
        d.same_shape(d.resolved(x)),
        forall|y: usize| #[trigger] d.resolved(x).attached(y) == d.attached(y),
{
    let e = d.resolved(x);
    lemma_resolved_wf(d, x);
    lemma_resolved_targets(d, x);
    assert forall|y: usize| d.has(y) implies begins_with(#[trigger] e.attrs(y), d.attrs(y)) by {
        if d.sensitive(x) && d.parent(y) == Some(x) {
            lemma_absorb_prefix(d.attrs(y), d.inheritable_above(x));
        } else {
            assert(e.attrs(y) == d.attrs(y));
            assert(d.attrs(y).take(d.attrs(y).len() as int) =~= d.attrs(y));
        }
    }
    assert forall|p: usize, j: int| d.has(p) && 0 <= j < d.children(p).len() implies e.kind(
        #[trigger] d.children(p)[j],
    ) == d.kind(d.children(p)[j]) by {
        assert(d.has(d.children(p)[j]));
    }
    assert(e.children(0) == d.children(0));
    assert(e.children(svg) == d.children(svg));
    lemma_first_child_kept(d, e, 0, svg, ElementKind::Svg, 0);
    lemma_first_child_kept(d, e, svg, defs, ElementKind::Defs, 0);
    assert(e.kind(svg) == d.kind(svg));
    assert(e.kind(defs) == d.kind(defs));
    assert(e.parent(svg) == d.parent(svg));
    assert(e.parent(defs) == d.parent(defs));
}

} // verus!
