//! The edits that the passes make to a document, on the model, and what each
//! of them keeps.

use vstd::prelude::*;
use crate::kinds::NodeKind;
use crate::model::{AttrModel, DocModel, NodeModel, Ranking, distinct_keys};

verus! {

impl DocModel {
    pub open spec fn with_parent(self, x: usize, parent: Option<usize>) -> DocModel {
        DocModel {
            nodes: self.nodes.update(x as int, NodeModel { parent, ..self.nodes[x as int] }),
        }
    }

    pub open spec fn with_children(self, x: usize, children: Seq<usize>) -> DocModel {
        DocModel {
            nodes: self.nodes.update(x as int, NodeModel { children, ..self.nodes[x as int] }),
        }
    }

    pub open spec fn with_attrs(self, x: usize, attrs: Seq<AttrModel>) -> DocModel {
        DocModel {
            nodes: self.nodes.update(x as int, NodeModel { attrs, ..self.nodes[x as int] }),
        }
    }

    pub open spec fn with_id(self, x: usize, id: Seq<char>) -> DocModel {
        DocModel { nodes: self.nodes.update(x as int, NodeModel { id, ..self.nodes[x as int] }) }
    }

    /// The document with one more node, of the given kind: detached, without
    /// identifier, attributes or children. Its index is the old length.
    pub open spec fn with_new(self, kind: NodeKind) -> DocModel {
        DocModel {
            nodes: self.nodes.push(
                NodeModel {
                    kind,
                    id: Seq::empty(),
                    attrs: Seq::empty(),
                    parent: None,
                    children: Seq::empty(),
                },
            ),
        }
    }

    /// The document with `x` cut from its parent. The subtree of `x` stays
    /// whole, outside the tree of the root.
    pub open spec fn detached(self, x: usize) -> DocModel {
        match self.parent(x) {
            None => self,
            Some(p) => self.with_children(
                p,
                self.children(p).remove(self.children(p).index_of(x)),
            ).with_parent(x, None),
        }
    }

    /// The document with `x` as the last child of `p`.
    pub open spec fn appended(self, p: usize, x: usize) -> DocModel {
        self.with_children(p, self.children(p).push(x)).with_parent(x, Some(p))
    }

    /// The document with `x` as the first child of `p`.
    pub open spec fn prepended(self, p: usize, x: usize) -> DocModel {
        self.with_children(p, seq![x] + self.children(p)).with_parent(x, Some(p))
    }

    /// The document with `x` cut from its parent and made the last child of `p`.
    pub open spec fn moved(self, x: usize, p: usize) -> DocModel {
        self.detached(x).appended(p, x)
    }

    /// `x` has no parent and no children, and is not the root.
    pub open spec fn loose_leaf(self, x: usize) -> bool {
        self.has(x) && x != 0 && self.parent(x) is None && self.children(x).len() == 0
    }

    /// The two documents have the same nodes but for where they hang: the
    /// kinds, identifiers and attributes are the same.
    pub open spec fn same_content(self, other: DocModel) -> bool {
        &&& self.nodes.len() == other.nodes.len()
        &&& forall|x: usize|
            #![trigger self.kind(x)]
            #![trigger self.id(x)]
            #![trigger self.attrs(x)]
            #![trigger other.kind(x)]
            #![trigger other.id(x)]
            #![trigger other.attrs(x)]
            self.has(x) ==> self.kind(x) == other.kind(x) && self.id(x) == other.id(x)
                && self.attrs(x) == other.attrs(x)
    }
}

pub proof fn lemma_detached_wf(d: DocModel, x: usize)
    requires
        d.wf(),
        d.has(x),
    ensures
        d.detached(x).wf(),
        d.detached(x).parent(x) is None,
        d.detached(x).nodes.len() == d.nodes.len(),
        forall|y: usize| d.has(y) && y != x ==> #[trigger] d.detached(x).parent(y) == d.parent(y),
        forall|y: usize|
            d.has(y) && d.parent(x) != Some(y) ==> #[trigger] d.detached(x).children(y)
                == d.children(y),
        d.same_content(d.detached(x)),
{
    let e = d.detached(x);
    match d.parent(x) {
        None => {},
        Some(p) => {
            let cs = d.children(p);
            let i = cs.index_of(x);
            assert(cs.contains(x));
            assert(0 <= i < cs.len() && cs[i] == x);
            let ds = cs.remove(i);
            assert(p != x) by {
                let r = d.ranking();
                assert(d.ranked(r));
            }
            assert(e.children(p) == ds);
            assert forall|q: usize, j: int| e.has(q) && 0 <= j < e.children(q).len() implies e.has(
                #[trigger] e.children(q)[j],
            ) && e.parent(e.children(q)[j]) == Some(q) by {
                if q == p {
                    if j < i {
                        assert(ds[j] == cs[j]);
                    } else {
                        assert(ds[j] == cs[j + 1]);
                    }
                } else {
                    assert(e.children(q) == d.children(q));
                    assert(d.parent(d.children(q)[j]) == Some(q));
                }
            }
            assert forall|c: usize| e.has(c) && (#[trigger] e.parent(c)) is Some implies e.has(
                e.parent(c).unwrap(),
            ) && e.children(e.parent(c).unwrap()).contains(c) by {
                assert(c != x);
                assert(e.parent(c) == d.parent(c));
                let q = d.parent(c).unwrap();
                assert(d.children(q).contains(c));
                if q == p {
                    let k = choose|k: int| 0 <= k < cs.len() && cs[k] == c;
                    assert(k != i);
                    if k < i {
                        assert(ds[k] == c);
                    } else {
                        assert(ds[k - 1] == c);
                    }
                } else {
                    assert(e.children(q) == d.children(q));
                }
            }
            assert forall|q: usize| e.has(q) implies (#[trigger] e.children(q)).no_duplicates() by {
                if q == p {
                    assert(cs.no_duplicates());
                    assert forall|a: int, b: int|
                        0 <= a < ds.len() && 0 <= b < ds.len() && a != b implies ds[a] != ds[b] by {
                        let a2 = if a < i { a } else { a + 1 };
                        let b2 = if b < i { b } else { b + 1 };
                        assert(ds[a] == cs[a2]);
                        assert(ds[b] == cs[b2]);
                    }
                } else {
                    assert(e.children(q) == d.children(q));
                }
            }
            let r = d.ranking();
            assert(d.ranked(r));
            assert(e.ranked(r)) by {
                assert forall|c: usize| e.has(c) && (#[trigger] e.parent(c)) is Some implies r.depth[e.parent(
                    c,
                ).unwrap() as int] < r.depth[c as int] by {
                    assert(e.parent(c) == d.parent(c));
                }
            }
            assert forall|y: usize| e.has(y) implies distinct_keys(#[trigger] e.attrs(y)) by {
                assert(e.attrs(y) == d.attrs(y));
            }
            assert forall|y: usize|
                d.has(y) && d.parent(x) != Some(y) implies #[trigger] e.children(y) == d.children(
                y,
            ) by {}
        },
    }
}

/// A loose leaf can hang under any other node, first or last.
pub proof fn lemma_attach_leaf_wf(d: DocModel, p: usize, x: usize, first: bool)
    requires
        d.wf(),
        d.has(p),
        d.loose_leaf(x),
        p != x,
    ensures
        first ==> d.prepended(p, x).wf(),
        !first ==> d.appended(p, x).wf(),
{
    let cs = d.children(p);
    let ns = if first { seq![x] + cs } else { cs.push(x) };
    let e = if first { d.prepended(p, x) } else { d.appended(p, x) };
    assert(e.children(p) == ns);
    assert(!cs.contains(x)) by {
        if cs.contains(x) {
            let k = choose|k: int| 0 <= k < cs.len() && cs[k] == x;
            assert(d.parent(d.children(p)[k]) == Some(p));
        }
    }
    assert forall|q: usize, j: int| e.has(q) && 0 <= j < e.children(q).len() implies e.has(
        #[trigger] e.children(q)[j],
    ) && e.parent(e.children(q)[j]) == Some(q) by {
        if q == p {
            if first {
                if j > 0 {
                    assert(ns[j] == cs[j - 1]);
                    assert(d.parent(d.children(p)[j - 1]) == Some(p));
                }
            } else {
                if j < cs.len() {
                    assert(ns[j] == cs[j]);
                    assert(d.parent(d.children(p)[j]) == Some(p));
                }
            }
        } else {
            assert(e.children(q) == d.children(q));
            assert(d.parent(d.children(q)[j]) == Some(q));
        }
    }
    assert forall|c: usize| e.has(c) && (#[trigger] e.parent(c)) is Some implies e.has(
        e.parent(c).unwrap(),
    ) && e.children(e.parent(c).unwrap()).contains(c) by {
        if c == x {
            if first {
                assert(ns[0] == x);
            } else {
                assert(ns[cs.len() as int] == x);
            }
        } else {
            assert(e.parent(c) == d.parent(c));
            let q = d.parent(c).unwrap();
            assert(d.children(q).contains(c));
            if q == p {
                let k = choose|k: int| 0 <= k < cs.len() && cs[k] == c;
                if first {
                    assert(ns[k + 1] == c);
                } else {
                    assert(ns[k] == c);
                }
            } else {
                assert(e.children(q) == d.children(q));
            }
        }
    }
    assert forall|q: usize| e.has(q) implies (#[trigger] e.children(q)).no_duplicates() by {
        if q == p {
            assert(cs.no_duplicates());
            assert forall|a: int, b: int|
                0 <= a < ns.len() && 0 <= b < ns.len() && a != b implies ns[a] != ns[b] by {
                if first {
                    if a > 0 {
                        assert(ns[a] == cs[a - 1]);
                    }
                    if b > 0 {
                        assert(ns[b] == cs[b - 1]);
                    }
                } else {
                    if a < cs.len() {
                        assert(ns[a] == cs[a]);
                    }
                    if b < cs.len() {
                        assert(ns[b] == cs[b]);
                    }
                }
            }
        } else {
            assert(e.children(q) == d.children(q));
        }
    }
    let r = d.ranking();
    assert(d.ranked(r));
    let r2 = Ranking { depth: r.depth.update(x as int, r.bound), bound: r.bound + 1 };
    assert(e.ranked(r2)) by {
        assert forall|c: usize| e.has(c) && (#[trigger] e.parent(c)) is Some implies r2.depth[e.parent(
            c,
        ).unwrap() as int] < r2.depth[c as int] by {
            if c == x {
                assert(r.depth[p as int] < r.bound);
            } else {
                assert(e.parent(c) == d.parent(c));
                let q = d.parent(c).unwrap();
                assert(d.children(q).contains(c));
                assert(q != x);
            }
        }
        assert forall|y: usize| e.has(y) implies (#[trigger] r2.depth[y as int]) < r2.bound by {
            if y != x {
                assert(r.depth[y as int] < r.bound);
            }
        }
    }
    assert forall|y: usize| e.has(y) implies distinct_keys(#[trigger] e.attrs(y)) by {
        assert(e.attrs(y) == d.attrs(y));
    }
}

impl DocModel {
    /// `into` is a child of `top`, and `top` a child of the root: the place
    /// of a definitions container under the root graphics container.
    pub open spec fn chain(self, top: usize, into: usize) -> bool {
        &&& self.has(top)
        &&& self.has(into)
        &&& self.parent(into) == Some(top)
        &&& self.parent(top) == Some(0usize)
    }

    /// `x` can move under `into`: it is none of the nodes above `into`, nor
    /// `into` itself.
    pub open spec fn movable(self, top: usize, into: usize, x: usize) -> bool {
        self.has(x) && x != 0 && x != top && x != into
    }
}

/// A node without a parent can become the last child of `into`, unless it is
/// above it.
pub proof fn lemma_appended_wf(d: DocModel, top: usize, into: usize, x: usize)
    requires
        d.wf(),
        d.chain(top, into),
        d.movable(top, into, x),
        d.parent(x) is None,
    ensures
        d.appended(into, x).wf(),
{
    let p = into;
    let cs = d.children(p);
    let ns = cs.push(x);
    let e = d.appended(p, x);
    assert(e.children(p) == ns);
    assert(!cs.contains(x)) by {
        if cs.contains(x) {
            let k = choose|k: int| 0 <= k < cs.len() && cs[k] == x;
            assert(d.parent(d.children(p)[k]) == Some(p));
        }
    }
    assert forall|q: usize, j: int| e.has(q) && 0 <= j < e.children(q).len() implies e.has(
        #[trigger] e.children(q)[j],
    ) && e.parent(e.children(q)[j]) == Some(q) by {
        if q == p {
            if j < cs.len() {
                assert(ns[j] == cs[j]);
                assert(d.parent(d.children(p)[j]) == Some(p));
            }
        } else {
            assert(e.children(q) == d.children(q));
            assert(d.parent(d.children(q)[j]) == Some(q));
        }
    }
    assert forall|c: usize| e.has(c) && (#[trigger] e.parent(c)) is Some implies e.has(
        e.parent(c).unwrap(),
    ) && e.children(e.parent(c).unwrap()).contains(c) by {
        if c == x {
            assert(ns[cs.len() as int] == x);
        } else {
            assert(e.parent(c) == d.parent(c));
            let q = d.parent(c).unwrap();
            assert(d.children(q).contains(c));
            if q == p {
                let k = choose|k: int| 0 <= k < cs.len() && cs[k] == c;
                assert(ns[k] == c);
            } else {
                assert(e.children(q) == d.children(q));
            }
        }
    }
    assert forall|q: usize| e.has(q) implies (#[trigger] e.children(q)).no_duplicates() by {
        if q == p {
            assert(cs.no_duplicates());
            assert forall|a: int, b: int|
                0 <= a < ns.len() && 0 <= b < ns.len() && a != b implies ns[a] != ns[b] by {
                if a < cs.len() {
                    assert(ns[a] == cs[a]);
                }
                if b < cs.len() {
                    assert(ns[b] == cs[b]);
                }
            }
        } else {
            assert(e.children(q) == d.children(q));
        }
    }
    let r = d.ranking();
    assert(d.ranked(r));
    let shift = r.depth[into as int] + 1;
    let r2 = Ranking {
        depth: Seq::new(
            r.depth.len(),
            |y: int|
                if y == 0 || y == top || y == into {
                    r.depth[y]
                } else {
                    r.depth[y] + shift
                },
        ),
        bound: r.bound + shift,
    };
    assert(e.ranked(r2)) by {
        assert forall|c: usize| e.has(c) && (#[trigger] e.parent(c)) is Some implies r2.depth[e.parent(
            c,
        ).unwrap() as int] < r2.depth[c as int] by {
            if c == x {
            } else {
                assert(e.parent(c) == d.parent(c));
                let q = d.parent(c).unwrap();
                assert(r.depth[q as int] < r.depth[c as int]);
                assert(d.parent(0usize) is None);
            }
        }
        assert forall|y: usize| e.has(y) implies (#[trigger] r2.depth[y as int]) < r2.bound by {
            assert(r.depth[y as int] < r.bound);
        }
    }
    assert forall|y: usize| e.has(y) implies distinct_keys(#[trigger] e.attrs(y)) by {
        assert(e.attrs(y) == d.attrs(y));
    }
}

/// What a move under `into` keeps and what it changes.
pub proof fn lemma_moved_wf(d: DocModel, top: usize, into: usize, x: usize)
    requires
        d.wf(),
        d.chain(top, into),
        d.movable(top, into, x),
    ensures
        d.moved(x, into).wf(),
        d.moved(x, into).chain(top, into),
        d.moved(x, into).parent(x) == Some(into),
        forall|y: usize| d.has(y) && y != x ==> #[trigger] d.moved(x, into).parent(y) == d.parent(y),
        d.same_content(d.moved(x, into)),
{
    lemma_detached_wf(d, x);
    let e = d.detached(x);
    lemma_appended_wf(e, top, into, x);
    let f = e.appended(into, x);
    assert forall|y: usize| d.has(y) && y != x implies #[trigger] f.parent(y) == d.parent(y) by {
        assert(e.parent(y) == d.parent(y));
    }
    assert forall|y: usize| d.has(y) implies #[trigger] d.nodes[y as int].kind == f.kind(y) && d.id(
        y,
    ) == f.id(y) && d.attrs(y) == f.attrs(y) by {
        assert(e.kind(y) == d.kind(y));
        assert(e.id(y) == d.id(y));
        assert(e.attrs(y) == d.attrs(y));
    }
}

/// One more detached node leaves the document valid and the old nodes as
/// they were.
pub proof fn lemma_with_new_wf(d: DocModel, kind: NodeKind)
    requires
        d.wf(),
        d.nodes.len() < usize::MAX,
    ensures
        d.with_new(kind).wf(),
        d.with_new(kind).loose_leaf(d.nodes.len() as usize),
        d.with_new(kind).kind(d.nodes.len() as usize) == kind,
        d.with_new(kind).attrs(d.nodes.len() as usize).len() == 0,
        d.with_new(kind).id(d.nodes.len() as usize).len() == 0,
        forall|y: usize| d.has(y) ==> #[trigger] d.with_new(kind).nodes[y as int] == d.nodes[y as int],
{
    let e = d.with_new(kind);
    let r = d.ranking();
    assert(d.ranked(r));
    let r2 = Ranking { depth: r.depth.push(0), bound: r.bound + 1 };
    assert(e.ranked(r2)) by {
        assert forall|c: usize| e.has(c) && (#[trigger] e.parent(c)) is Some implies r2.depth[e.parent(
            c,
        ).unwrap() as int] < r2.depth[c as int] by {
            assert(d.has(c));
            assert(e.parent(c) == d.parent(c));
        }
        assert forall|y: usize| e.has(y) implies (#[trigger] r2.depth[y as int]) < r2.bound by {
            if d.has(y) {
                assert(r.depth[y as int] < r.bound);
            }
        }
    }
    assert(e.linked()) by {
        assert forall|q: usize, j: int| e.has(q) && 0 <= j < e.children(q).len() implies e.has(
            #[trigger] e.children(q)[j],
        ) && e.parent(e.children(q)[j]) == Some(q) by {
            assert(d.has(q));
            assert(e.children(q) == d.children(q));
            assert(d.parent(d.children(q)[j]) == Some(q));
        }
        assert forall|c: usize| e.has(c) && (#[trigger] e.parent(c)) is Some implies e.has(
            e.parent(c).unwrap(),
        ) && e.children(e.parent(c).unwrap()).contains(c) by {
            assert(d.has(c));
            assert(e.parent(c) == d.parent(c));
            assert(e.children(d.parent(c).unwrap()) == d.children(d.parent(c).unwrap()));
        }
        assert forall|q: usize| e.has(q) implies (#[trigger] e.children(q)).no_duplicates() by {
            if d.has(q) {
                assert(e.children(q) == d.children(q));
            }
        }
    }
    assert forall|y: usize| e.has(y) implies distinct_keys(#[trigger] e.attrs(y)) by {
        if d.has(y) {
            assert(e.attrs(y) == d.attrs(y));
        }
    }
}

} // verus!
