//! What holds of the consolidation pass on every document.

use vstd::prelude::*;
use crate::folds::{
    lemma_foreign_children_has, lemma_foreign_children_member, lemma_foreign_children_no_duplicates,
    lemma_foreign_children_none, lemma_moved_each, lemma_moved_each_children, lemma_moved_each_into,
    lemma_removed_each, lemma_removed_each_result, lemma_resolved_each,
};
use crate::frames::{lemma_attached_step, lemma_loose_not_attached};
use crate::group_defs::{lemma_first_of_kind, lemma_no_mask_above};
use crate::kinds::{ElementKind, NodeKind};
use crate::model::DocModel;
use crate::order::{lemma_descendants_attached, lemma_subtree_no_duplicates};
use crate::seqs::{
    lemma_filter_member, lemma_filter_no_duplicates, lemma_filter_none, lemma_without_all,
    lemma_without_none,
};
use crate::shape::{lemma_extended_ancestor_kind, lemma_extended_under};
use crate::steps::{begins_with, lemma_chain_distinct, lemma_first_child_kept, lemma_narrows_trans};

verus! {

impl DocModel {
    /// The document after the three steps that follow the choice of the
    /// canonical container.
    pub open spec fn gathered(self, svg: usize, defs: usize) -> DocModel {
        self.relocated(svg, defs).flattened(defs).pruned(defs)
    }

    /// The pass has nothing left to do: every referenced node of the tree
    /// of the root, but for the two containers, is a child of `defs`, and
    /// `defs` is the only definitions container of that tree.
    pub open spec fn settled(self, svg: usize, defs: usize) -> bool {
        &&& forall|y: usize|
            self.attached(y) && #[trigger] self.referenced(y) && y != svg && y != defs
                ==> self.parent(y) == Some(defs)
        &&& forall|y: usize| self.attached(y) ==> !#[trigger] self.foreign(defs, y)
    }
}

/// What the second step leaves: every referenced node of the tree of the
/// root that stood under a masking element has no parent, and every other
/// one, but for the two containers, is a child of `defs`.
pub proof fn lemma_relocated(d: DocModel, svg: usize, defs: usize)
    requires
        d.anchored(svg, defs),
    ensures
        d.narrows_to(d.relocated(svg, defs), svg, defs),
        forall|y: usize|
            d.attached(y) && #[trigger] d.referenced(y) ==> (if d.removable(y) {
                d.relocated(svg, defs).parent(y) is None
            } else {
                y == svg || y == defs || d.relocated(svg, defs).parent(y) == Some(defs)
            }),
{
    lemma_chain_distinct(d, svg, defs);
    lemma_no_mask_above(d, svg, defs);
    let order = d.descendants();
    let moves = order.filter(d.relocatable_fn(svg, defs));
    let removals = order.filter(d.removable_fn());
    assert forall|i: int| 0 <= i < moves.len() implies d.attached(#[trigger] moves[i])
        && d.movable(svg, defs, moves[i]) by {
        assert(moves.contains(moves[i]));
        lemma_filter_member(order, d.relocatable_fn(svg, defs), moves[i]);
        lemma_descendants_attached(d, moves[i]);
        assert(d.relocatable(svg, defs, moves[i]));
    }
    let d2 = d.resolved_each(moves);
    lemma_resolved_each(d, svg, defs, moves);
    assert forall|i: int| 0 <= i < moves.len() implies d2.attached(#[trigger] moves[i])
        && d2.movable(svg, defs, moves[i]) by {
        assert(d2.attached(moves[i]) == d.attached(moves[i]));
        assert(d.movable(svg, defs, moves[i]));
    }
    let d3 = d2.moved_each(moves, defs);
    lemma_moved_each(d2, svg, defs, moves);
    assert forall|i: int| 0 <= i < removals.len() implies d3.has(#[trigger] removals[i])
        && removals[i] != svg && removals[i] != defs by {
        assert(removals.contains(removals[i]));
        lemma_filter_member(order, d.removable_fn(), removals[i]);
        lemma_descendants_attached(d, removals[i]);
        assert(d.removable(removals[i]));
    }
    let d4 = d3.removed_each(removals);
    lemma_removed_each(d3, svg, defs, removals);
    assert(d4 == d.relocated(svg, defs));
    lemma_narrows_trans(d, d2, d3, svg, defs);
    lemma_narrows_trans(d, d3, d4, svg, defs);
    assert forall|y: usize| d.attached(y) && #[trigger] d.referenced(y) implies (if d.removable(y) {
        d4.parent(y) is None
    } else {
        y == svg || y == defs || d4.parent(y) == Some(defs)
    }) by {
        lemma_descendants_attached(d, y);
        lemma_filter_member(order, d.relocatable_fn(svg, defs), y);
        lemma_filter_member(order, d.removable_fn(), y);
        assert(d2.has(y) && d3.has(y));
        if d.removable(y) {
            assert(removals.contains(y));
        } else if y != svg && y != defs {
            assert(!removals.contains(y));
            assert(y != 0);
            assert(d.parent(y) is Some) by {
                if d.parent(y) is None {
                    lemma_loose_not_attached(d, y);
                }
            }
            assert(d2.parent(y) == d.parent(y));
            assert(d3.parent(y) == Some(defs)) by {
                if d.parent(y) != Some(defs) {
                    assert(d.relocatable(svg, defs, y));
                    assert(moves.contains(y));
                }
            }
        }
    }
}

impl DocModel {
    /// Every definitions container of the tree of the root other than
    /// `defs` is empty.
    pub open spec fn emptied(self, defs: usize) -> bool {
        forall|y: usize|
            self.attached(y) && #[trigger] self.foreign(defs, y) ==> self.children(y).len() == 0
    }
}

/// What the third step leaves: every other definitions container of the
/// tree of the root is empty; a child of `defs` stays one, and a node
/// without a parent stays without.
pub proof fn lemma_flattened(d: DocModel, svg: usize, defs: usize)
    requires
        d.anchored(svg, defs),
    ensures
        d.narrows_to(d.flattened(defs), svg, defs),
        d.flattened(defs).emptied(defs),
        forall|y: usize|
            d.has(y) && (d.parent(y) == Some(defs) || d.parent(y) is None)
                ==> #[trigger] d.flattened(defs).parent(y) == d.parent(y),
{
    lemma_chain_distinct(d, svg, defs);
    let order = d.descendants();
    let lifted = d.foreign_children(defs, order);
    assert forall|f: usize| lifted.contains(f) implies d.attached(f) && d.movable(svg, defs, f)
        && d.parent(f) is Some && d.parent(f) != Some(defs) by {
        lemma_foreign_children_member(d, defs, order, f);
        let k = choose|k: int|
            0 <= k < order.len() && d.foreign(defs, #[trigger] order[k]) && d.children(
                order[k],
            ).contains(f);
        let x = order[k];
        assert(order.contains(x));
        lemma_descendants_attached(d, x);
        let j = choose|j: int| 0 <= j < d.children(x).len() && d.children(x)[j] == f;
        assert(d.has(d.children(x)[j]) && d.parent(d.children(x)[j]) == Some(x));
        lemma_attached_step(d, f);
    }
    assert forall|i: int| 0 <= i < lifted.len() implies d.attached(#[trigger] lifted[i])
        && d.movable(svg, defs, lifted[i]) by {
        assert(lifted.contains(lifted[i]));
    }
    let e = d.moved_each(lifted, defs);
    lemma_moved_each(d, svg, defs, lifted);
    assert forall|y: usize| e.attached(y) && #[trigger] e.foreign(defs, y) implies e.children(
        y,
    ).len() == 0 by {
        assert(d.attached(y));
        assert(e.kind(y) == d.kind(y));
        lemma_descendants_attached(d, y);
        let i = choose|i: int| 0 <= i < order.len() && order[i] == y;
        assert forall|j: int| 0 <= j < d.children(y).len() implies lifted.contains(
            #[trigger] d.children(y)[j],
        ) by {
            lemma_foreign_children_has(d, defs, order, i, j);
        }
        lemma_moved_each_children(d, svg, defs, lifted, y);
        lemma_without_all(d.children(y), lifted);
    }
}

/// What the fourth step leaves: no other definitions container in the tree
/// of the root; a node keeps its parent or has none.
pub proof fn lemma_pruned(d: DocModel, svg: usize, defs: usize)
    requires
        d.anchored(svg, defs),
    ensures
        d.narrows_to(d.pruned(defs), svg, defs),
        forall|y: usize| d.pruned(defs).attached(y) ==> !#[trigger] d.pruned(defs).foreign(defs, y),
        forall|y: usize|
            d.has(y) ==> #[trigger] d.pruned(defs).parent(y) == d.parent(y) || d.pruned(
                defs,
            ).parent(y) is None,
{
    lemma_chain_distinct(d, svg, defs);
    let order = d.descendants();
    let emptied = order.filter(d.foreign_fn(defs));
    assert forall|i: int| 0 <= i < emptied.len() implies d.has(#[trigger] emptied[i]) && emptied[i]
        != svg && emptied[i] != defs by {
        assert(emptied.contains(emptied[i]));
        lemma_filter_member(order, d.foreign_fn(defs), emptied[i]);
        lemma_descendants_attached(d, emptied[i]);
        assert(d.foreign(defs, emptied[i]));
    }
    let e = d.removed_each(emptied);
    lemma_removed_each(d, svg, defs, emptied);
    assert forall|y: usize| e.attached(y) implies !#[trigger] e.foreign(defs, y) by {
        if e.foreign(defs, y) {
            assert(d.attached(y));
            assert(e.kind(y) == d.kind(y));
            assert(d.foreign(defs, y));
            lemma_descendants_attached(d, y);
            lemma_filter_member(order, d.foreign_fn(defs), y);
            assert(emptied.contains(y));
            assert(e.parent(y) is None);
            lemma_loose_not_attached(e, y);
        }
    }
}

/// The three steps leave a settled document, bring no node into the tree of
/// the root, and take out of it every referenced node that stood under a
/// masking element.
pub proof fn lemma_gathered(d: DocModel, svg: usize, defs: usize)
    requires
        d.anchored(svg, defs),
    ensures
        d.narrows_to(d.gathered(svg, defs), svg, defs),
        d.gathered(svg, defs).settled(svg, defs),
        forall|y: usize|
            d.attached(y) && #[trigger] d.removable(y) ==> !d.gathered(svg, defs).attached(y),
{
    let d4 = d.relocated(svg, defs);
    let d5 = d4.flattened(defs);
    let d6 = d5.pruned(defs);
    lemma_relocated(d, svg, defs);
    lemma_flattened(d4, svg, defs);
    lemma_pruned(d5, svg, defs);
    lemma_narrows_trans(d, d4, d5, svg, defs);
    lemma_narrows_trans(d, d5, d6, svg, defs);
    assert forall|y: usize| d.attached(y) && d.referenced(y) implies (!d6.attached(y) || y == svg
        || y == defs || d6.parent(y) == Some(defs)) && (d.removable(y) ==> !d6.attached(y)) by {
        assert(d4.has(y) && d5.has(y) && d6.has(y));
        assert(y != 0);
        assert(d5.parent(y) == d4.parent(y) || !(d4.parent(y) == Some(defs) || d4.parent(y) is None));
        assert(d6.parent(y) == d5.parent(y) || d6.parent(y) is None);
        if d6.parent(y) is None {
            lemma_loose_not_attached(d6, y);
        }
    }
    assert forall|y: usize|
        d6.attached(y) && #[trigger] d6.referenced(y) && y != svg && y != defs implies d6.parent(y)
        == Some(defs) by {
        assert(d.attached(y));
        assert(d6.kind(y) == d.kind(y));
        assert(d6.id(y) == d.id(y));
        assert(d.is_link_target(d.id(y)));
        assert(d.referenced(y));
    }
    assert forall|y: usize| d.attached(y) && #[trigger] d.removable(y) implies !d6.attached(y) by {
        assert(d.referenced(y));
    }
}

/// On a settled document no node of the tree of the root is to move or to
/// go.
proof fn lemma_settled_node(d: DocModel, svg: usize, defs: usize, y: usize)
    requires
        d.anchored(svg, defs),
        d.settled(svg, defs),
        d.attached(y),
    ensures
        !d.relocatable(svg, defs, y),
        !d.removable(y),
{
    lemma_no_mask_above(d, svg, defs);
    if d.referenced(y) && y != svg && y != defs {
        assert(d.parent(y) == Some(defs));
        assert(!d.has_ancestor_of_kind(y, ElementKind::Mask));
    }
}

/// On a settled document the second step plans nothing.
proof fn lemma_settled_plans(d: DocModel, svg: usize, defs: usize)
    requires
        d.anchored(svg, defs),
        d.settled(svg, defs),
    ensures
        d.descendants().filter(d.relocatable_fn(svg, defs)) == Seq::<usize>::empty(),
        d.descendants().filter(d.removable_fn()) == Seq::<usize>::empty(),
{
    let order = d.descendants();
    assert forall|i: int| 0 <= i < order.len() implies !(d.relocatable_fn(svg, defs))(
        #[trigger] order[i],
    ) && !(d.removable_fn())(order[i]) by {
        let y = order[i];
        assert(order.contains(y));
        lemma_descendants_attached(d, y);
        lemma_settled_node(d, svg, defs, y);
    }
    lemma_filter_none(order, d.relocatable_fn(svg, defs));
    lemma_filter_none(order, d.removable_fn());
}

/// On a settled document the third and the fourth step find nothing.
proof fn lemma_settled_finds(d: DocModel, svg: usize, defs: usize)
    requires
        d.anchored(svg, defs),
        d.settled(svg, defs),
    ensures
        d.foreign_children(defs, d.descendants()) == Seq::<usize>::empty(),
        d.descendants().filter(d.foreign_fn(defs)) == Seq::<usize>::empty(),
{
    let order = d.descendants();
    assert forall|i: int| 0 <= i < order.len() implies !d.foreign(defs, #[trigger] order[i]) by {
        let y = order[i];
        assert(order.contains(y));
        lemma_descendants_attached(d, y);
    }
    lemma_foreign_children_none(d, defs, order);
    assert forall|i: int| 0 <= i < order.len() implies !(d.foreign_fn(defs))(#[trigger] order[i]) by {
        assert(!d.foreign(defs, order[i]));
    }
    lemma_filter_none(order, d.foreign_fn(defs));
}

/// On a settled document the pass changes nothing.
pub proof fn lemma_settled_fixed(d: DocModel, svg: usize, defs: usize)
    requires
        d.anchored(svg, defs),
        d.settled(svg, defs),
    ensures
        d.gathered(svg, defs) == d,
        d.consolidated() == d,
{
    let none = Seq::<usize>::empty();
    assert(d.resolved_each(none) == d);
    assert(d.moved_each(none, defs) == d);
    assert(d.removed_each(none) == d);
    assert(d.relocated(svg, defs) == d) by {
        lemma_settled_plans(d, svg, defs);
    }
    assert(d.flattened(defs) == d && d.pruned(defs) == d) by {
        lemma_settled_finds(d, svg, defs);
    }
    assert(d.gathered(svg, defs) == d);
    assert(d.container(svg) == defs);
    assert(d.with_container(svg) == d);
}

/// The first child of a kind is a child, and of the kind.
pub proof fn lemma_child_of_kind(d: DocModel, p: usize, kind: ElementKind, c: usize)
    requires
        d.wf(),
        d.has(p),
        d.child_of_kind(p, kind) == Some(c),
    ensures
        d.has(c),
        d.parent(c) == Some(p),
        d.kind(c).is(kind),
{
    lemma_first_of_kind(d, d.children(p), kind);
    let i = choose|i: int|
        0 <= i < d.children(p).len() && d.children(p)[i] == c && d.kind(c).is(kind) && forall|
            j: int,
        |
            0 <= j < i ==> !d.kind(#[trigger] d.children(p)[j]).is(kind);
    assert(d.has(d.children(p)[i]) && d.parent(d.children(p)[i]) == Some(p));
}

/// A new definitions container as the first child of the root graphics
/// container leaves the nodes that were there as they were.
proof fn lemma_new_container(d: DocModel, svg: usize)
    requires
        d.wf(),
        d.has(svg),
        d.parent(svg) == Some(0usize),
        d.kind(svg).is(ElementKind::Svg),
        d.svg_element() == Some(svg),
        d.child_of_kind(svg, ElementKind::Defs) is None,
        d.nodes.len() < usize::MAX,
    ensures
        d.with_container(svg).anchored(svg, d.nodes.len() as usize),
        d.with_container(svg).fronted(svg, d.nodes.len() as usize),
        d.with_container(svg).nodes.len() == d.nodes.len() + 1,
        d.with_container(svg).attrs(d.nodes.len() as usize).len() == 0,
        d.extended_by(d.with_container(svg)),
        forall|y: usize|
            #![trigger d.with_container(svg).attrs(y)]
            #![trigger d.with_container(svg).id(y)]
            d.has(y) ==> d.with_container(svg).attrs(y) == d.attrs(y) && d.with_container(svg).id(
                y,
            ) == d.id(y),
{
    let e = d.with_container(svg);
    let kind = NodeKind::Element(ElementKind::Defs);
    let m = d.with_new(kind);
    let n = d.nodes.len() as usize;
    crate::edit::lemma_with_new_wf(d, kind);
    crate::edit::lemma_attach_leaf_wf(m, svg, n, true);
    assert(e == m.prepended(svg, n));
    assert(m.children(svg) == d.children(svg));
    assert(e.children(svg) == seq![n] + d.children(svg));
    assert(e.children(svg)[0] == n);
    assert(e.child_of_kind(svg, ElementKind::Defs) == Some(n));
    assert(svg != 0);
    assert(m.children(0) == d.children(0));
    assert(e.children(0) == d.children(0));
    assert forall|j: int| 0 <= j < d.children(0).len() implies e.kind(#[trigger] d.children(0)[j])
        == d.kind(d.children(0)[j]) by {
        assert(d.has(d.children(0)[j]));
    }
    lemma_first_child_kept(d, e, 0, svg, ElementKind::Svg, 0);
}

/// In a document with nodes added that have no attributes, the nodes that
/// were there are referenced, in the tree of the root and under a masking
/// element exactly as before.
proof fn lemma_extended_same(d: DocModel, e: DocModel)
    requires
        d.wf(),
        e.wf(),
        d.extended_by(e),
        forall|y: usize|
            #![trigger e.attrs(y)]
            #![trigger e.id(y)]
            d.has(y) ==> e.attrs(y) == d.attrs(y) && e.id(y) == d.id(y),
        forall|y: usize| e.has(y) && !d.has(y) ==> (#[trigger] e.attrs(y)).len() == 0,
    ensures
        forall|y: usize| d.has(y) ==> #[trigger] e.attached(y) == d.attached(y),
        forall|y: usize| d.has(y) ==> #[trigger] e.referenced(y) == d.referenced(y),
        forall|y: usize|
            d.has(y) ==> #[trigger] e.has_ancestor_of_kind(y, ElementKind::Mask)
                == d.has_ancestor_of_kind(y, ElementKind::Mask),
{
    assert forall|y: usize| d.has(y) implies #[trigger] e.attached(y) == d.attached(y) by {
        lemma_extended_under(d, e, y, 0);
    }
    assert forall|y: usize| d.has(y) implies #[trigger] e.has_ancestor_of_kind(
        y,
        ElementKind::Mask,
    ) == d.has_ancestor_of_kind(y, ElementKind::Mask) by {
        lemma_extended_ancestor_kind(d, e, y, ElementKind::Mask);
    }
    assert forall|id: Seq<char>| #[trigger] e.is_link_target(id) == d.is_link_target(id) by {
        if e.is_link_target(id) {
            let (y, j) = choose|y: usize, j: int|
                e.attached(y) && 0 <= j < e.attrs(y).len() && (#[trigger] e.attrs(
                    y,
                )[j]).value.links_to(id);
            assert(d.has(y));
            assert(e.attached(y) == d.attached(y));
            assert(d.attrs(y)[j].value.links_to(id));
        }
        if d.is_link_target(id) {
            let (y, j) = choose|y: usize, j: int|
                d.attached(y) && 0 <= j < d.attrs(y).len() && (#[trigger] d.attrs(
                    y,
                )[j]).value.links_to(id);
            assert(e.attached(y) == d.attached(y));
            assert(e.attrs(y)[j].value.links_to(id));
        }
    }
    assert forall|y: usize| d.has(y) implies #[trigger] e.referenced(y) == d.referenced(y) by {
        assert(e.kind(y) == d.kind(y));
        assert(e.id(y) == d.id(y));
    }
}

/// What the choice of the canonical container gives: a document with its
/// two containers in place, in which the nodes that were there are as they
/// were.
pub proof fn lemma_with_container(d: DocModel, svg: usize)
    requires
        d.wf(),
        d.svg_element() == Some(svg),
        d.nodes.len() < usize::MAX,
    ensures
        d.with_container(svg).anchored(svg, d.container(svg)),
        d.child_of_kind(svg, ElementKind::Defs) is None ==> d.with_container(svg).fronted(
            svg,
            d.container(svg),
        ),
        d.child_of_kind(svg, ElementKind::Defs) is Some ==> d.with_container(svg) == d,
        forall|y: usize|
            d.has(y) ==> #[trigger] d.with_container(svg).attached(y) == d.attached(y),
        forall|y: usize|
            d.has(y) ==> #[trigger] d.with_container(svg).referenced(y) == d.referenced(y),
        forall|y: usize|
            d.has(y) ==> #[trigger] d.with_container(svg).has_ancestor_of_kind(
                y,
                ElementKind::Mask,
            ) == d.has_ancestor_of_kind(y, ElementKind::Mask),
        forall|y: usize|
            #![trigger d.with_container(svg).attrs(y)]
            #![trigger d.with_container(svg).id(y)]
            #![trigger d.with_container(svg).kind(y)]
            d.has(y) ==> d.with_container(svg).attrs(y) == d.attrs(y) && d.with_container(svg).id(
                y,
            ) == d.id(y) && d.with_container(svg).kind(y) == d.kind(y),
{
    lemma_child_of_kind(d, 0, ElementKind::Svg, svg);
    match d.child_of_kind(svg, ElementKind::Defs) {
        Some(c) => {
            lemma_child_of_kind(d, svg, ElementKind::Defs, c);
        },
        None => {
            lemma_new_container(d, svg);
            lemma_extended_same(d, d.with_container(svg));
        },
    }
}

/// The pass leaves a settled document with its two containers in place.
pub proof fn lemma_consolidated_settled(d: DocModel)
    requires
        d.wf(),
        d.svg_element() is Some,
        d.nodes.len() < usize::MAX,
    ensures
        d.consolidated().anchored(d.svg_element().unwrap(), d.container(d.svg_element().unwrap())),
        d.consolidated().settled(d.svg_element().unwrap(), d.container(d.svg_element().unwrap())),
{
    let svg = d.svg_element().unwrap();
    let defs = d.container(svg);
    let d1 = d.with_container(svg);
    lemma_with_container(d, svg);
    lemma_gathered(d1, svg, defs);
    assert(d.consolidated() == d1.gathered(svg, defs));
}

/// After the pass the tree of the root holds exactly one definitions
/// container: the canonical one, a child of the root graphics container. It
/// is the first child where the pass made it, and where it was the first
/// child before.
pub proof fn law_one_container(d: DocModel)
    requires
        d.wf(),
        d.svg_element() is Some,
        d.nodes.len() < usize::MAX,
    ensures
        ({
            let svg = d.svg_element().unwrap();
            let defs = d.container(svg);
            let e = d.consolidated();
            &&& e.anchored(svg, defs)
            &&& e.attached(defs)
            &&& forall|y: usize|
                e.attached(y) && #[trigger] e.kind(y).is(ElementKind::Defs) ==> y == defs
            &&& (d.child_of_kind(svg, ElementKind::Defs) is None || d.fronted(svg, defs))
                ==> e.fronted(svg, defs)
        }),
{
    let svg = d.svg_element().unwrap();
    let defs = d.container(svg);
    let d1 = d.with_container(svg);
    let e = d.consolidated();
    lemma_with_container(d, svg);
    lemma_gathered(d1, svg, defs);
    assert(e == d1.gathered(svg, defs));
    lemma_chain_distinct(e, svg, defs);
    assert forall|y: usize| e.attached(y) && #[trigger] e.kind(y).is(ElementKind::Defs) implies y
        == defs by {
        assert(!e.foreign(defs, y));
    }
}

/// After the pass every referenced node of the tree of the root is a child
/// of the canonical container, but for that container and the root graphics
/// container, which stay in place. A referenced node that stood under a
/// masking element is no longer in the tree of the root.
pub proof fn law_reference_locality(d: DocModel)
    requires
        d.wf(),
        d.svg_element() is Some,
        d.nodes.len() < usize::MAX,
    ensures
        ({
            let svg = d.svg_element().unwrap();
            let defs = d.container(svg);
            let e = d.consolidated();
            &&& forall|y: usize|
                e.attached(y) && #[trigger] e.referenced(y) && y != svg && y != defs ==> e.parent(y)
                    == Some(defs)
            &&& forall|y: usize|
                d.attached(y) && #[trigger] d.referenced(y) && d.has_ancestor_of_kind(
                    y,
                    ElementKind::Mask,
                ) ==> !e.attached(y)
        }),
{
    let svg = d.svg_element().unwrap();
    let defs = d.container(svg);
    let d1 = d.with_container(svg);
    let e = d.consolidated();
    lemma_with_container(d, svg);
    lemma_gathered(d1, svg, defs);
    assert(e == d1.gathered(svg, defs));
    assert forall|y: usize|
        d.attached(y) && #[trigger] d.referenced(y) && d.has_ancestor_of_kind(
            y,
            ElementKind::Mask,
        ) implies !e.attached(y) by {
        assert(d1.attached(y) == d.attached(y));
        assert(d1.referenced(y) == d.referenced(y));
        assert(d1.has_ancestor_of_kind(y, ElementKind::Mask) == d.has_ancestor_of_kind(
            y,
            ElementKind::Mask,
        ));
        assert(d1.removable(y));
    }
}

/// The pass changes nothing in a document that it has left.
pub proof fn law_idempotent(d: DocModel)
    requires
        d.wf(),
        d.svg_element() is Some,
        d.nodes.len() < usize::MAX,
    ensures
        d.consolidated().consolidated() == d.consolidated(),
{
    let svg = d.svg_element().unwrap();
    let defs = d.container(svg);
    lemma_consolidated_settled(d);
    lemma_settled_fixed(d.consolidated(), svg, defs);
}

/// The pass overwrites nothing: every node keeps its kind, its identifier
/// and each of its attributes, in its place and with its value; what a node
/// inherits comes after them.
pub proof fn law_attributes_kept(d: DocModel, y: usize)
    requires
        d.wf(),
        d.svg_element() is Some,
        d.nodes.len() < usize::MAX,
        d.has(y),
    ensures
        d.consolidated().kind(y) == d.kind(y),
        d.consolidated().id(y) == d.id(y),
        begins_with(d.consolidated().attrs(y), d.attrs(y)),
{
    let svg = d.svg_element().unwrap();
    let defs = d.container(svg);
    let d1 = d.with_container(svg);
    lemma_with_container(d, svg);
    lemma_gathered(d1, svg, defs);
    assert(d.consolidated() == d1.gathered(svg, defs));
    assert(d1.has(y));
    assert(d1.attrs(y) == d.attrs(y));
    assert(d1.kind(y) == d.kind(y));
    assert(d1.id(y) == d.id(y));
}

/// Relocation keeps order. After the second step the canonical container
/// holds the children that it had, in their order, and after them the
/// nodes that moved, in document order.
pub proof fn law_relocation_order(d: DocModel, svg: usize, defs: usize)
    requires
        d.anchored(svg, defs),
    ensures
        d.relocated(svg, defs).children(defs) == d.children(defs) + d.descendants().filter(
            d.relocatable_fn(svg, defs),
        ),
{
    lemma_chain_distinct(d, svg, defs);
    lemma_no_mask_above(d, svg, defs);
    let order = d.descendants();
    let moves = order.filter(d.relocatable_fn(svg, defs));
    let removals = order.filter(d.removable_fn());
    lemma_subtree_no_duplicates(d, 0);
    lemma_filter_no_duplicates(order, d.relocatable_fn(svg, defs));
    assert forall|i: int| 0 <= i < moves.len() implies d.attached(#[trigger] moves[i])
        && d.relocatable(svg, defs, moves[i]) by {
        assert(moves.contains(moves[i]));
        lemma_filter_member(order, d.relocatable_fn(svg, defs), moves[i]);
        lemma_descendants_attached(d, moves[i]);
    }
    let d2 = d.resolved_each(moves);
    lemma_resolved_each(d, svg, defs, moves);
    assert forall|i: int| 0 <= i < moves.len() implies d2.attached(#[trigger] moves[i])
        && d2.movable(svg, defs, moves[i]) && d2.parent(moves[i]) != Some(defs) by {
        assert(d2.attached(moves[i]) == d.attached(moves[i]));
        assert(d.relocatable(svg, defs, moves[i]));
        assert(d2.parent(moves[i]) == d.parent(moves[i]));
    }
    let d3 = d2.moved_each(moves, defs);
    lemma_moved_each(d2, svg, defs, moves);
    lemma_moved_each_into(d2, svg, defs, moves);
    assert(d2.children(defs) == d.children(defs));
    assert forall|i: int| 0 <= i < removals.len() implies d3.has(#[trigger] removals[i]) by {
        assert(removals.contains(removals[i]));
        lemma_filter_member(order, d.removable_fn(), removals[i]);
        lemma_descendants_attached(d, removals[i]);
    }
    let d4 = d3.removed_each(removals);
    lemma_removed_each_result(d3, removals);
    let held = d3.children(defs);
    assert forall|i: int| 0 <= i < held.len() implies !removals.contains(#[trigger] held[i]) by {
        let y = held[i];
        lemma_filter_member(order, d.removable_fn(), y);
        if i < d.children(defs).len() {
            assert(y == d.children(defs)[i]);
            assert(d.has(d.children(defs)[i]) && d.parent(d.children(defs)[i]) == Some(defs));
        } else {
            assert(y == moves[i - d.children(defs).len()]);
            assert(d.relocatable(svg, defs, moves[i - d.children(defs).len()]));
        }
    }
    lemma_without_none(held, removals);
    assert(d4 == d.relocated(svg, defs));
}

/// Flattening keeps order. After the third step the canonical container
/// holds the children that it had, in their order, and after them the
/// children of every other definitions container: container by container
/// in document order, each one's children in their order.
pub proof fn law_flattening_order(d: DocModel, svg: usize, defs: usize)
    requires
        d.anchored(svg, defs),
    ensures
        d.flattened(defs).children(defs) == d.children(defs) + d.foreign_children(
            defs,
            d.descendants(),
        ),
{
    lemma_chain_distinct(d, svg, defs);
    let order = d.descendants();
    let lifted = d.foreign_children(defs, order);
    lemma_subtree_no_duplicates(d, 0);
    assert forall|i: int| 0 <= i < order.len() implies d.has(#[trigger] order[i]) by {
        assert(order.contains(order[i]));
        lemma_descendants_attached(d, order[i]);
    }
    lemma_foreign_children_no_duplicates(d, defs, order);
    assert forall|i: int| 0 <= i < lifted.len() implies d.attached(#[trigger] lifted[i])
        && d.movable(svg, defs, lifted[i]) && d.parent(lifted[i]) != Some(defs) by {
        let f = lifted[i];
        assert(lifted.contains(f));
        lemma_foreign_children_member(d, defs, order, f);
        let k = choose|k: int|
            0 <= k < order.len() && d.foreign(defs, #[trigger] order[k]) && d.children(
                order[k],
            ).contains(f);
        let x = order[k];
        assert(order.contains(x));
        lemma_descendants_attached(d, x);
        let j = choose|j: int| 0 <= j < d.children(x).len() && d.children(x)[j] == f;
        assert(d.has(d.children(x)[j]) && d.parent(d.children(x)[j]) == Some(x));
        lemma_attached_step(d, f);
    }
    lemma_moved_each_into(d, svg, defs, lifted);
}

} // verus!
