//! Document order: the walk over the tree of the root, and the proof that it
//! meets exactly the nodes that hang under the root.

use vstd::prelude::*;
use crate::document::Document;
use crate::model::DocModel;
use crate::seqs::lemma_contains_add;

verus! {

/// A child is deeper than its parent, so its height is smaller.
pub proof fn lemma_child_height(d: DocModel, x: usize, i: int)
    requires
        d.forest(),
        d.has(x),
        0 <= i < d.children(x).len(),
    ensures
        d.has(d.children(x)[i]),
        d.parent(d.children(x)[i]) == Some(x),
        d.height(d.children(x)[i]) < d.height(x),
{
    let r = d.ranking();
    assert(d.ranked(r));
    let c = d.children(x)[i];
    assert(d.has(c) && d.parent(c) == Some(x));
    assert(r.depth[c as int] < r.bound);
}

/// A parent is less deep than its child.
pub proof fn lemma_parent_depth(d: DocModel, x: usize)
    requires
        d.forest(),
        d.has(x),
        d.parent(x) is Some,
    ensures
        d.has(d.parent(x).unwrap()),
        d.depth(d.parent(x).unwrap()) < d.depth(x),
        d.parent(x).unwrap() != x,
{
    let r = d.ranking();
    assert(d.ranked(r));
}

/// Being under a node carries over to whatever that node is under.
pub proof fn lemma_under_trans(d: DocModel, y: usize, c: usize, x: usize)
    requires
        d.forest(),
        d.has(y),
        d.is_under(y, c),
        d.has(c),
        d.is_under(c, x),
    ensures
        d.is_under(y, x),
    decreases d.depth(y),
{
    if y != c {
        lemma_parent_depth(d, y);
        lemma_under_trans(d, d.parent(y).unwrap(), c, x);
    }
}

/// The walk from `x` meets only nodes under `x`.
pub proof fn lemma_subtree_sound(d: DocModel, x: usize, y: usize)
    requires
        d.forest(),
        d.has(x),
        d.subtree_order(x).contains(y),
    ensures
        d.has(y),
        d.is_under(y, x),
    decreases d.height(x), 1nat, 0nat,
{
    lemma_contains_add(seq![x], d.children_order(x, 0), y);
    if seq![x].contains(y) {
        let k = choose|k: int| 0 <= k < seq![x].len() && seq![x][k] == y;
        assert(y == x);
    } else {
        lemma_children_sound(d, x, 0, y);
    }
}

pub proof fn lemma_children_sound(d: DocModel, x: usize, from: nat, y: usize)
    requires
        d.forest(),
        d.has(x),
        d.children_order(x, from).contains(y),
    ensures
        d.has(y),
        d.is_under(y, x),
        y != x,
    decreases d.height(x), 0nat, d.children(x).len() - from,
{
    if from < d.children(x).len() {
        let c = d.children(x)[from as int];
        lemma_child_height(d, x, from as int);
        lemma_contains_add(d.subtree_order(c), d.children_order(x, from + 1), y);
        if d.subtree_order(c).contains(y) {
            lemma_subtree_sound(d, c, y);
            assert(d.is_under(x, x));
            assert(d.is_under(c, x));
            lemma_under_trans(d, y, c, x);
            if y == x {
                lemma_under_depth(d, x, c);
            }
        } else {
            lemma_children_sound(d, x, (from + 1) as nat, y);
        }
    } else {
        assert(d.children_order(x, from) =~= Seq::<usize>::empty());
    }
}

/// A node under another is at least as deep.
pub proof fn lemma_under_depth(d: DocModel, y: usize, x: usize)
    requires
        d.forest(),
        d.has(y),
        d.is_under(y, x),
    ensures
        d.depth(x) <= d.depth(y),
        d.has(x),
    decreases d.depth(y),
{
    if y != x {
        lemma_parent_depth(d, y);
        lemma_under_depth(d, d.parent(y).unwrap(), x);
    }
}

/// The walk over the children of `x` from `from` on meets the child at `k`.
pub proof fn lemma_children_meet_child(d: DocModel, x: usize, from: nat, k: int)
    requires
        d.forest(),
        d.has(x),
        from <= k < d.children(x).len(),
    ensures
        d.children_order(x, from).contains(d.children(x)[k]),
    decreases k - from,
{
    let c = d.children(x)[from as int];
    lemma_child_height(d, x, from as int);
    lemma_contains_add(d.subtree_order(c), d.children_order(x, from + 1), d.children(x)[k]);
    if from == k {
        assert(d.subtree_order(c)[0] == c);
    } else {
        lemma_children_meet_child(d, x, from + 1, k);
    }
}

/// Where the walk from `x` meets a node, it meets the children of that node.
pub proof fn lemma_subtree_closed(d: DocModel, x: usize, p: usize, y: usize)
    requires
        d.forest(),
        d.has(x),
        d.subtree_order(x).contains(p),
        d.has(y),
        d.parent(y) == Some(p),
    ensures
        d.subtree_order(x).contains(y),
    decreases d.height(x), 1nat, 0nat,
{
    lemma_contains_add(seq![x], d.children_order(x, 0), p);
    lemma_contains_add(seq![x], d.children_order(x, 0), y);
    if p == x {
        assert(d.children(x).contains(y));
        let k = choose|k: int| 0 <= k < d.children(x).len() && d.children(x)[k] == y;
        lemma_children_meet_child(d, x, 0, k);
    } else {
        if seq![x].contains(p) {
            let k = choose|k: int| 0 <= k < seq![x].len() && seq![x][k] == p;
            assert(false);
        }
        lemma_children_closed(d, x, 0, p, y);
    }
}

pub proof fn lemma_children_closed(d: DocModel, x: usize, from: nat, p: usize, y: usize)
    requires
        d.forest(),
        d.has(x),
        d.children_order(x, from).contains(p),
        d.has(y),
        d.parent(y) == Some(p),
    ensures
        d.children_order(x, from).contains(y),
    decreases d.height(x), 0nat, d.children(x).len() - from,
{
    if from < d.children(x).len() {
        let c = d.children(x)[from as int];
        lemma_child_height(d, x, from as int);
        lemma_contains_add(d.subtree_order(c), d.children_order(x, from + 1), p);
        lemma_contains_add(d.subtree_order(c), d.children_order(x, from + 1), y);
        if d.subtree_order(c).contains(p) {
            lemma_subtree_closed(d, c, p, y);
        } else {
            lemma_children_closed(d, x, (from + 1) as nat, p, y);
        }
    } else {
        assert(d.children_order(x, from) =~= Seq::<usize>::empty());
    }
}

/// The walk from `x` meets every node under `x`.
pub proof fn lemma_subtree_complete(d: DocModel, x: usize, y: usize)
    requires
        d.forest(),
        d.has(x),
        d.has(y),
        d.is_under(y, x),
    ensures
        d.subtree_order(x).contains(y),
    decreases d.depth(y),
{
    if y == x {
        assert(d.subtree_order(x)[0] == x);
    } else {
        lemma_parent_depth(d, y);
        let p = d.parent(y).unwrap();
        lemma_subtree_complete(d, x, p);
        lemma_subtree_closed(d, x, p, y);
    }
}

/// Document order lists exactly the nodes of the tree of the root.
pub proof fn lemma_descendants_attached(d: DocModel, y: usize)
    requires
        d.wf(),
    ensures
        d.descendants().contains(y) <==> d.attached(y),
{
    if d.descendants().contains(y) {
        lemma_subtree_sound(d, 0, y);
    }
    if d.attached(y) {
        lemma_subtree_complete(d, 0, y);
    }
}

/// Of two nodes that a node is under, one is under the other.
pub proof fn lemma_under_linear(d: DocModel, y: usize, a: usize, b: usize)
    requires
        d.forest(),
        d.has(y),
        d.is_under(y, a),
        d.is_under(y, b),
    ensures
        d.has(a),
        d.has(b),
        d.is_under(a, b) || d.is_under(b, a),
    decreases d.depth(y),
{
    lemma_under_depth(d, y, a);
    lemma_under_depth(d, y, b);
    if y == a {
    } else if y == b {
    } else {
        lemma_parent_depth(d, y);
        lemma_under_linear(d, d.parent(y).unwrap(), a, b);
    }
}

/// No node is under two children of one node.
pub proof fn lemma_siblings_apart(d: DocModel, y: usize, a: usize, b: usize)
    requires
        d.forest(),
        d.has(y),
        d.has(a),
        d.has(b),
        a != b,
        d.parent(a) is Some,
        d.parent(a) == d.parent(b),
        d.is_under(y, a),
    ensures
        !d.is_under(y, b),
{
    if d.is_under(y, b) {
        lemma_under_linear(d, y, a, b);
        let p = d.parent(a).unwrap();
        lemma_parent_depth(d, a);
        lemma_parent_depth(d, b);
        if d.is_under(a, b) {
            assert(d.is_under(p, b));
            lemma_under_depth(d, p, b);
        } else {
            assert(d.is_under(p, a));
            lemma_under_depth(d, p, a);
        }
    }
}

/// What the walk over the children of `x` from `from` on meets is under one
/// of those children.
pub proof fn lemma_children_member(d: DocModel, x: usize, from: nat, y: usize)
    requires
        d.forest(),
        d.has(x),
        d.children_order(x, from).contains(y),
    ensures
        exists|k: int|
            from <= k < d.children(x).len() && d.has(y) && #[trigger] d.is_under(
                y,
                d.children(x)[k],
            ),
    decreases d.children(x).len() - from,
{
    if from < d.children(x).len() {
        let c = d.children(x)[from as int];
        lemma_child_height(d, x, from as int);
        lemma_contains_add(d.subtree_order(c), d.children_order(x, from + 1), y);
        if d.subtree_order(c).contains(y) {
            lemma_subtree_sound(d, c, y);
            assert(d.is_under(y, d.children(x)[from as int]));
        } else {
            lemma_children_member(d, x, from + 1, y);
            let k = choose|k: int|
                from + 1 <= k < d.children(x).len() && d.has(y) && #[trigger] d.is_under(
                    y,
                    d.children(x)[k],
                );
            assert(d.is_under(y, d.children(x)[k]));
        }
    } else {
        assert(d.children_order(x, from) =~= Seq::<usize>::empty());
    }
}

/// The walk from `x` meets no node twice.
pub proof fn lemma_subtree_no_duplicates(d: DocModel, x: usize)
    requires
        d.forest(),
        d.has(x),
    ensures
        d.subtree_order(x).no_duplicates(),
    decreases d.height(x), 1nat, 0nat,
{
    let rest = d.children_order(x, 0);
    lemma_children_no_duplicates(d, x, 0);
    assert forall|i: int, j: int| 0 <= i < seq![x].len() && 0 <= j < rest.len() implies seq![x][i]
        != rest[j] by {
        assert(rest.contains(rest[j]));
        lemma_children_sound(d, x, 0, rest[j]);
    }
    vstd::seq_lib::lemma_no_dup_in_concat(seq![x], rest);
}

pub proof fn lemma_children_no_duplicates(d: DocModel, x: usize, from: nat)
    requires
        d.forest(),
        d.has(x),
    ensures
        d.children_order(x, from).no_duplicates(),
    decreases d.height(x), 0nat, d.children(x).len() - from,
{
    if from < d.children(x).len() {
        let c = d.children(x)[from as int];
        let first = d.subtree_order(c);
        let rest = d.children_order(x, from + 1);
        lemma_child_height(d, x, from as int);
        lemma_subtree_no_duplicates(d, c);
        lemma_children_no_duplicates(d, x, from + 1);
        assert forall|i: int, j: int| 0 <= i < first.len() && 0 <= j < rest.len() implies first[i]
            != rest[j] by {
            if first[i] == rest[j] {
                let y = first[i];
                assert(first.contains(y));
                assert(rest.contains(y));
                lemma_subtree_sound(d, c, y);
                lemma_children_member(d, x, from + 1, y);
                let k = choose|k: int|
                    from + 1 <= k < d.children(x).len() && d.has(y) && #[trigger] d.is_under(
                        y,
                        d.children(x)[k],
                    );
                let other = d.children(x)[k];
                lemma_child_height(d, x, k);
                assert(d.children(x).no_duplicates());
                assert(other != c);
                lemma_siblings_apart(d, y, c, other);
            }
        }
        vstd::seq_lib::lemma_no_dup_in_concat(first, rest);
    }
}

impl Document {
    fn collect_subtree(&self, x: usize, out: &mut Vec<usize>)
        requires
            self.wf(),
            self@.has(x),
        ensures
            final(out)@ == old(out)@ + self@.subtree_order(x),
        decreases self@.height(x),
    {
        let ghost d = self@;
        let ghost before = out@;
        out.push(x);
        let cs = self.children(x);
        let n: usize = cs.len();
        let mut i: usize = 0;
        proof {
            assert(before.push(x) + d.children_order(x, 0) =~= before + d.subtree_order(x));
        }
        while i < n
            invariant
                self@ == d,
                d.wf(),
                d.has(x),
                cs@ == d.children(x),
                n == cs@.len(),
                i <= n,
                out@ + d.children_order(x, i as nat) == before + d.subtree_order(x),
            decreases n - i,
        {
            let c = cs[i];
            let ghost mid = out@;
            proof {
                lemma_child_height(d, x, i as int);
            }
            self.collect_subtree(c, out);
            proof {
                assert(d.children_order(x, i as nat) == d.subtree_order(c) + d.children_order(
                    x,
                    (i + 1) as nat,
                ));
                assert(out@ + d.children_order(x, (i + 1) as nat) =~= mid + d.children_order(
                    x,
                    i as nat,
                ));
            }
            i = i + 1;
        }
        proof {
            assert(d.children_order(x, n as nat) =~= Seq::<usize>::empty());
            assert(out@ + Seq::<usize>::empty() =~= out@);
        }
    }

    /// Every node of the tree of the root, in document order.
    pub fn descendants(&self) -> (v: Vec<usize>)
        requires
            self.wf(),
        ensures
            v@ == self@.descendants(),
            v@.no_duplicates(),
            forall|y: usize| v@.contains(y) <==> self@.attached(y),
    {
        let mut v: Vec<usize> = Vec::new();
        self.collect_subtree(0, &mut v);
        proof {
            lemma_subtree_no_duplicates(self@, 0);
            assert(Seq::<usize>::empty() + self@.descendants() =~= self@.descendants());
            assert forall|y: usize| v@.contains(y) <==> self@.attached(y) by {
                lemma_descendants_attached(self@, y);
            }
        }
        v
    }
}

} // verus!
