//! What a run of edits keeps, and where it leaves each node.

use vstd::prelude::*;
use crate::edit::lemma_detached_wf;
use crate::model::DocModel;
use crate::seqs::{
    lemma_contains_first_rest, lemma_without_none, lemma_without_remove, lemma_without_same,
    without,
};
use crate::steps::{
    lemma_detached_narrows, lemma_moved_narrows, lemma_narrows_refl, lemma_narrows_trans,
    lemma_resolved_narrows,
};

verus! {

/// What resolving the inheritance of nodes of the tree of the root keeps.
pub proof fn lemma_resolved_each(d: DocModel, svg: usize, defs: usize, xs: Seq<usize>)
    requires
        d.anchored(svg, defs),
        forall|i: int| 0 <= i < xs.len() ==> d.attached(#[trigger] xs[i]),
    ensures
        d.narrows_to(d.resolved_each(xs), svg, defs),
        d.same_shape(d.resolved_each(xs)),
        forall|y: usize| #[trigger] d.resolved_each(xs).attached(y) == d.attached(y),
    decreases xs.len(),
{
    if xs.len() == 0 {
        lemma_narrows_refl(d, svg, defs);
    } else {
        let d1 = d.resolved(xs[0]);
        let rest = xs.drop_first();
        let e = d.resolved_each(xs);
        lemma_resolved_narrows(d, svg, defs, xs[0]);
        assert forall|i: int| 0 <= i < rest.len() implies d1.attached(#[trigger] rest[i]) by {
            assert(rest[i] == xs[i + 1]);
        }
        lemma_resolved_each(d1, svg, defs, rest);
        lemma_narrows_trans(d, d1, e, svg, defs);
        assert forall|y: usize| #[trigger] e.attached(y) == d.attached(y) by {
            assert(d1.attached(y) == d.attached(y));
        }
        assert forall|y: usize|
            #![trigger d.parent(y)]
            #![trigger d.children(y)]
            #![trigger e.parent(y)]
            #![trigger e.children(y)]
            d.has(y) implies d.parent(y) == e.parent(y) && d.children(y) == e.children(y) by {
            assert(d1.parent(y) == d.parent(y));
            assert(d1.children(y) == d.children(y));
        }
    }
}

/// What a run of moves of nodes of the tree of the root keeps: each of them
/// ends as a child of `defs`, and every other node keeps its parent.
pub proof fn lemma_moved_each(d: DocModel, svg: usize, defs: usize, xs: Seq<usize>)
    requires
        d.anchored(svg, defs),
        forall|i: int|
            0 <= i < xs.len() ==> d.attached(#[trigger] xs[i]) && d.movable(svg, defs, xs[i]),
    ensures
        d.narrows_to(d.moved_each(xs, defs), svg, defs),
        forall|y: usize| #[trigger] d.moved_each(xs, defs).attached(y) == d.attached(y),
        forall|y: usize|
            d.has(y) ==> #[trigger] d.moved_each(xs, defs).parent(y) == (if xs.contains(y) {
                Some(defs)
            } else {
                d.parent(y)
            }),
    decreases xs.len(),
{
    if xs.len() == 0 {
        lemma_narrows_refl(d, svg, defs);
        assert forall|y: usize| !xs.contains(y) by {}
    } else {
        let d1 = d.moved(xs[0], defs);
        let rest = xs.drop_first();
        let e = d.moved_each(xs, defs);
        lemma_moved_narrows(d, svg, defs, xs[0]);
        assert forall|i: int| 0 <= i < rest.len() implies d1.attached(#[trigger] rest[i])
            && d1.movable(svg, defs, rest[i]) by {
            assert(rest[i] == xs[i + 1]);
            assert(d1.attached(xs[i + 1]) == d.attached(xs[i + 1]));
        }
        lemma_moved_each(d1, svg, defs, rest);
        lemma_narrows_trans(d, d1, e, svg, defs);
        assert forall|y: usize| #[trigger] e.attached(y) == d.attached(y) by {
            assert(d1.attached(y) == d.attached(y));
        }
        assert forall|y: usize| d.has(y) implies #[trigger] e.parent(y) == (if xs.contains(y) {
            Some(defs)
        } else {
            d.parent(y)
        }) by {
            lemma_contains_first_rest(xs, y);
            assert(d1.has(y));
            if !rest.contains(y) && y != xs[0] {
                assert(d1.parent(y) == d.parent(y));
            }
        }
    }
}

/// What a run of cuts of nodes other than the two containers keeps: each of
/// them ends without a parent, and every other node keeps its parent.
pub proof fn lemma_removed_each(d: DocModel, svg: usize, defs: usize, xs: Seq<usize>)
    requires
        d.anchored(svg, defs),
        forall|i: int|
            0 <= i < xs.len() ==> d.has(#[trigger] xs[i]) && xs[i] != svg && xs[i] != defs,
    ensures
        d.narrows_to(d.removed_each(xs), svg, defs),
        forall|y: usize|
            d.has(y) ==> #[trigger] d.removed_each(xs).parent(y) == (if xs.contains(y) {
                None
            } else {
                d.parent(y)
            }),
    decreases xs.len(),
{
    if xs.len() == 0 {
        lemma_narrows_refl(d, svg, defs);
        assert forall|y: usize| !xs.contains(y) by {}
    } else {
        let d1 = d.detached(xs[0]);
        let rest = xs.drop_first();
        let e = d.removed_each(xs);
        lemma_detached_narrows(d, svg, defs, xs[0]);
        assert forall|i: int| 0 <= i < rest.len() implies d1.has(#[trigger] rest[i]) && rest[i]
            != svg && rest[i] != defs by {
            assert(rest[i] == xs[i + 1]);
        }
        lemma_removed_each(d1, svg, defs, rest);
        lemma_narrows_trans(d, d1, e, svg, defs);
        assert forall|y: usize| d.has(y) implies #[trigger] e.parent(y) == (if xs.contains(y) {
            None
        } else {
            d.parent(y)
        }) by {
            lemma_contains_first_rest(xs, y);
            assert(d1.has(y));
            if !rest.contains(y) && y != xs[0] {
                assert(d1.parent(y) == d.parent(y));
            }
        }
    }
}

/// A child of another definitions container among `order` is what the
/// third step moves.
pub proof fn lemma_foreign_children_member(d: DocModel, defs: usize, order: Seq<usize>, f: usize)
    requires
        d.foreign_children(defs, order).contains(f),
    ensures
        exists|i: int|
            0 <= i < order.len() && d.foreign(defs, #[trigger] order[i]) && d.children(
                order[i],
            ).contains(f),
    decreases order.len(),
{
    if order.len() > 0 {
        let rest = order.drop_last();
        let last = order.last();
        if d.foreign(defs, last) {
            crate::seqs::lemma_contains_add(d.foreign_children(defs, rest), d.children(last), f);
        }
        if d.foreign(defs, last) && d.children(last).contains(f) {
            assert(order[order.len() - 1] == last);
        } else {
            lemma_foreign_children_member(d, defs, rest, f);
            let i = choose|i: int|
                0 <= i < rest.len() && d.foreign(defs, #[trigger] rest[i]) && d.children(
                    rest[i],
                ).contains(f);
            assert(order[i] == rest[i]);
        }
    }
}

/// Where no other definitions container is among `order`, the third step
/// moves nothing.
pub proof fn lemma_foreign_children_none(d: DocModel, defs: usize, order: Seq<usize>)
    requires
        forall|i: int| 0 <= i < order.len() ==> !d.foreign(defs, #[trigger] order[i]),
    ensures
        d.foreign_children(defs, order) == Seq::<usize>::empty(),
    decreases order.len(),
{
    if order.len() > 0 {
        let rest = order.drop_last();
        assert(!d.foreign(defs, order[order.len() - 1]));
        assert forall|i: int| 0 <= i < rest.len() implies !d.foreign(defs, #[trigger] rest[i]) by {
            assert(rest[i] == order[i]);
        }
        lemma_foreign_children_none(d, defs, rest);
    }
}

/// Where a run of cuts leaves each node: a node that was cut has no parent,
/// every other node keeps its parent, and every node keeps those of its
/// children that were not cut, in their order.
pub proof fn lemma_removed_each_result(d: DocModel, xs: Seq<usize>)
    requires
        d.wf(),
        forall|i: int| 0 <= i < xs.len() ==> d.has(#[trigger] xs[i]),
    ensures
        d.removed_each(xs).wf(),
        d.same_content(d.removed_each(xs)),
        forall|y: usize|
            d.has(y) ==> #[trigger] d.removed_each(xs).parent(y) == (if xs.contains(y) {
                None
            } else {
                d.parent(y)
            }),
        forall|p: usize|
            d.has(p) ==> #[trigger] d.removed_each(xs).children(p) == without(d.children(p), xs),
    decreases xs.len(),
{
    if xs.len() == 0 {
        assert forall|y: usize| !xs.contains(y) by {}
        assert forall|p: usize| d.has(p) implies without(d.children(p), xs) == d.children(p) by {
            lemma_without_none(d.children(p), xs);
        }
    } else {
        let x = xs[0];
        let d1 = d.detached(x);
        let rest = xs.drop_first();
        let e = d.removed_each(xs);
        lemma_detached_wf(d, x);
        assert forall|i: int| 0 <= i < rest.len() implies d1.has(#[trigger] rest[i]) by {
            assert(rest[i] == xs[i + 1]);
        }
        lemma_removed_each_result(d1, rest);
        assert forall|y: usize| d.has(y) implies #[trigger] e.parent(y) == (if xs.contains(y) {
            None
        } else {
            d.parent(y)
        }) by {
            lemma_contains_first_rest(xs, y);
            assert(d1.has(y));
            if !rest.contains(y) && y != x {
                assert(d1.parent(y) == d.parent(y));
            }
        }
        assert forall|p: usize| d.has(p) implies #[trigger] e.children(p) == without(
            d.children(p),
            xs,
        ) by {
            assert(d1.has(p));
            assert(e.children(p) == without(d1.children(p), rest));
            let cs = d.children(p);
            assert forall|y: usize| xs.contains(y) <==> y == x || rest.contains(y) by {
                lemma_contains_first_rest(xs, y);
            }
            if d.parent(x) == Some(p) {
                assert(cs.contains(x));
                let i = cs.index_of(x);
                assert(d1.children(p) == cs.remove(i));
                lemma_without_remove(cs, i, rest, xs);
            } else {
                assert(d1.children(p) == cs);
                assert forall|j: int| 0 <= j < cs.len() implies xs.contains(#[trigger] cs[j])
                    == rest.contains(cs[j]) by {
                    assert(d.parent(cs[j]) == Some(p));
                }
                lemma_without_same(cs, xs, rest);
            }
        }
        assert forall|y: usize|
            #![trigger d.kind(y)]
            #![trigger d.id(y)]
            #![trigger d.attrs(y)]
            #![trigger e.kind(y)]
            #![trigger e.id(y)]
            #![trigger e.attrs(y)]
            d.has(y) implies d.kind(y) == e.kind(y) && d.id(y) == e.id(y) && d.attrs(y) == e.attrs(
            y,
        ) by {
            assert(d1.kind(y) == d.kind(y));
            assert(d1.id(y) == d.id(y));
            assert(d1.attrs(y) == d.attrs(y));
        }
    }
}

/// The children of another definitions container among `order` are among
/// what the third step moves.
pub proof fn lemma_foreign_children_has(d: DocModel, defs: usize, order: Seq<usize>, i: int, j: int)
    requires
        0 <= i < order.len(),
        d.foreign(defs, order[i]),
        0 <= j < d.children(order[i]).len(),
    ensures
        d.foreign_children(defs, order).contains(d.children(order[i])[j]),
    decreases order.len(),
{
    let rest = order.drop_last();
    let last = order.last();
    let f = d.children(order[i])[j];
    if i == order.len() - 1 {
        crate::seqs::lemma_contains_add(d.foreign_children(defs, rest), d.children(last), f);
        assert(d.children(last)[j] == f);
    } else {
        assert(rest[i] == order[i]);
        lemma_foreign_children_has(d, defs, rest, i, j);
        if d.foreign(defs, last) {
            crate::seqs::lemma_contains_add(d.foreign_children(defs, rest), d.children(last), f);
        }
    }
}

/// Where a run of moves leaves the children of a node other than `defs`:
/// those that did not move, in their order.
pub proof fn lemma_moved_each_children(
    d: DocModel,
    svg: usize,
    defs: usize,
    xs: Seq<usize>,
    p: usize,
)
    requires
        d.anchored(svg, defs),
        forall|i: int|
            0 <= i < xs.len() ==> d.attached(#[trigger] xs[i]) && d.movable(svg, defs, xs[i]),
        d.has(p),
        p != defs,
    ensures
        d.moved_each(xs, defs).children(p) == without(d.children(p), xs),
    decreases xs.len(),
{
    let cs = d.children(p);
    if xs.len() == 0 {
        assert forall|y: usize| !xs.contains(y) by {}
        lemma_without_none(cs, xs);
    } else {
        let x = xs[0];
        let m = d.detached(x);
        let d1 = d.moved(x, defs);
        let rest = xs.drop_first();
        lemma_detached_wf(d, x);
        lemma_moved_narrows(d, svg, defs, x);
        assert forall|i: int| 0 <= i < rest.len() implies d1.attached(#[trigger] rest[i])
            && d1.movable(svg, defs, rest[i]) by {
            assert(rest[i] == xs[i + 1]);
            assert(d1.attached(xs[i + 1]) == d.attached(xs[i + 1]));
        }
        lemma_moved_each_children(d1, svg, defs, rest, p);
        assert(d1.children(p) == m.children(p));
        assert forall|y: usize| xs.contains(y) <==> y == x || rest.contains(y) by {
            lemma_contains_first_rest(xs, y);
        }
        if d.parent(x) == Some(p) {
            assert(cs.contains(x));
            let i = cs.index_of(x);
            assert(m.children(p) == cs.remove(i));
            lemma_without_remove(cs, i, rest, xs);
        } else {
            assert(m.children(p) == cs);
            assert forall|j: int| 0 <= j < cs.len() implies xs.contains(#[trigger] cs[j])
                == rest.contains(cs[j]) by {
                assert(d.parent(cs[j]) == Some(p));
            }
            lemma_without_same(cs, xs, rest);
        }
    }
}

/// Where a run of moves of distinct nodes that are no children of `defs`
/// leaves the children of `defs`: those that it had, then the nodes that
/// moved, in their order.
pub proof fn lemma_moved_each_into(d: DocModel, svg: usize, defs: usize, xs: Seq<usize>)
    requires
        d.anchored(svg, defs),
        xs.no_duplicates(),
        forall|i: int|
            0 <= i < xs.len() ==> d.attached(#[trigger] xs[i]) && d.movable(svg, defs, xs[i])
                && d.parent(xs[i]) != Some(defs),
    ensures
        d.moved_each(xs, defs).children(defs) == d.children(defs) + xs,
    decreases xs.len(),
{
    let cs = d.children(defs);
    if xs.len() == 0 {
        assert(cs + xs =~= cs);
    } else {
        let x = xs[0];
        let m = d.detached(x);
        let d1 = d.moved(x, defs);
        let rest = xs.drop_first();
        lemma_detached_wf(d, x);
        lemma_moved_narrows(d, svg, defs, x);
        assert(m.children(defs) == cs);
        assert(d1.children(defs) == cs.push(x));
        assert(rest.no_duplicates()) by {
            assert forall|a: int, b: int| 0 <= a < rest.len() && 0 <= b < rest.len() && a
                != b implies rest[a] != rest[b] by {
                assert(rest[a] == xs[a + 1]);
                assert(rest[b] == xs[b + 1]);
            }
        }
        assert forall|i: int| 0 <= i < rest.len() implies d1.attached(#[trigger] rest[i])
            && d1.movable(svg, defs, rest[i]) && d1.parent(rest[i]) != Some(defs) by {
            assert(rest[i] == xs[i + 1]);
            assert(xs[i + 1] != xs[0]);
            assert(d1.attached(xs[i + 1]) == d.attached(xs[i + 1]));
            assert(d1.parent(xs[i + 1]) == d.parent(xs[i + 1]));
        }
        lemma_moved_each_into(d1, svg, defs, rest);
        assert(cs.push(x) + rest =~= cs + xs);
    }
}

/// What the third step moves, it moves once.
pub proof fn lemma_foreign_children_no_duplicates(d: DocModel, defs: usize, order: Seq<usize>)
    requires
        d.wf(),
        order.no_duplicates(),
        forall|i: int| 0 <= i < order.len() ==> d.has(#[trigger] order[i]),
    ensures
        d.foreign_children(defs, order).no_duplicates(),
    decreases order.len(),
{
    if order.len() > 0 {
        let rest = order.drop_last();
        let last = order.last();
        assert(rest.no_duplicates()) by {
            assert forall|a: int, b: int| 0 <= a < rest.len() && 0 <= b < rest.len() && a
                != b implies rest[a] != rest[b] by {
                assert(rest[a] == order[a]);
                assert(rest[b] == order[b]);
            }
        }
        assert forall|i: int| 0 <= i < rest.len() implies d.has(#[trigger] rest[i]) by {
            assert(rest[i] == order[i]);
        }
        lemma_foreign_children_no_duplicates(d, defs, rest);
        if d.foreign(defs, last) {
            let before = d.foreign_children(defs, rest);
            let cs = d.children(last);
            assert(d.has(order[order.len() - 1]));
            assert(cs.no_duplicates());
            assert forall|i: int, j: int| 0 <= i < before.len() && 0 <= j < cs.len() implies before[i]
                != cs[j] by {
                if before[i] == cs[j] {
                    assert(before.contains(before[i]));
                    lemma_foreign_children_member(d, defs, rest, before[i]);
                    let k = choose|k: int|
                        0 <= k < rest.len() && d.foreign(defs, #[trigger] rest[k]) && d.children(
                            rest[k],
                        ).contains(before[i]);
                    let at = choose|at: int|
                        0 <= at < d.children(rest[k]).len() && d.children(rest[k])[at] == before[i];
                    assert(d.parent(d.children(rest[k])[at]) == Some(rest[k]));
                    assert(d.parent(d.children(last)[j]) == Some(last));
                    assert(order[k] == rest[k]);
                    assert(order[order.len() - 1] == last);
                }
            }
            vstd::seq_lib::lemma_no_dup_in_concat(before, cs);
        }
    }
}

} // verus!
