//! The definitions consolidation pass: every referenced subtree moves into
//! one definitions container, and every other definitions container goes.

use vstd::prelude::*;
use crate::document::Document;
use crate::edit::{lemma_detached_wf, lemma_moved_wf};
use crate::kinds::{ElementKind, NodeKind};
use crate::laws::{
    law_one_container, law_reference_locality, lemma_child_of_kind, lemma_consolidated_settled,
    lemma_flattened, lemma_pruned, lemma_relocated, lemma_with_container,
};
use crate::model::DocModel;
use crate::refs::listed;
use crate::resolve::lemma_resolved_wf;

verus! {

impl DocModel {
    /// The first of `nodes` that is an element of kind `kind`.
    pub open spec fn first_of_kind(self, nodes: Seq<usize>, kind: ElementKind) -> Option<usize>
        decreases nodes.len(),
    {
        if nodes.len() == 0 {
            None
        } else if self.kind(nodes[0]).is(kind) {
            Some(nodes[0])
        } else {
            self.first_of_kind(nodes.drop_first(), kind)
        }
    }

    /// The first child of `x` that is an element of kind `kind`.
    pub open spec fn child_of_kind(self, x: usize, kind: ElementKind) -> Option<usize> {
        self.first_of_kind(self.children(x), kind)
    }

    /// The root graphics container: the first such element under the root.
    pub open spec fn svg_element(self) -> Option<usize> {
        self.child_of_kind(0, ElementKind::Svg)
    }

    /// The index of the canonical definitions container under `svg`: the
    /// first definitions container among its children, or else the index
    /// that a new node gets.
    pub open spec fn container(self, svg: usize) -> usize {
        match self.child_of_kind(svg, ElementKind::Defs) {
            Some(c) => c,
            None => self.nodes.len() as usize,
        }
    }

    /// The document with a canonical definitions container under `svg`:
    /// where `svg` has none, a new one becomes its first child.
    pub open spec fn with_container(self, svg: usize) -> DocModel {
        match self.child_of_kind(svg, ElementKind::Defs) {
            Some(c) => self,
            None => self.with_new(NodeKind::Element(ElementKind::Defs)).prepended(
                svg,
                self.nodes.len() as usize,
            ),
        }
    }

    /// Whether `x` is to move into `defs`: it is referenced, no masking
    /// element is above it, and it is not yet a child of `defs`. The root
    /// graphics container and `defs` itself never move: neither can become
    /// a child of `defs`.
    pub open spec fn relocatable(self, svg: usize, defs: usize, x: usize) -> bool {
        &&& self.referenced(x)
        &&& !self.has_ancestor_of_kind(x, ElementKind::Mask)
        &&& self.parent(x) is Some
        &&& self.parent(x) != Some(defs)
        &&& x != svg
        &&& x != defs
    }

    pub open spec fn relocatable_fn(self, svg: usize, defs: usize) -> spec_fn(usize) -> bool {
        |x: usize| self.relocatable(svg, defs, x)
    }

    /// Whether `x` is to leave the document: it is referenced and a masking
    /// element is above it.
    pub open spec fn removable(self, x: usize) -> bool {
        self.referenced(x) && self.has_ancestor_of_kind(x, ElementKind::Mask)
    }

    pub open spec fn removable_fn(self) -> spec_fn(usize) -> bool {
        |x: usize| self.removable(x)
    }

    /// Whether `x` is a definitions container other than `defs`.
    pub open spec fn foreign(self, defs: usize, x: usize) -> bool {
        self.kind(x).is(ElementKind::Defs) && x != defs
    }

    pub open spec fn foreign_fn(self, defs: usize) -> spec_fn(usize) -> bool {
        |x: usize| self.foreign(defs, x)
    }

    /// The children of the definitions containers other than `defs` among
    /// `order`: container by container, each one's children in their order.
    pub open spec fn foreign_children(self, defs: usize, order: Seq<usize>) -> Seq<usize>
        decreases order.len(),
    {
        if order.len() == 0 {
            Seq::empty()
        } else if self.foreign(defs, order.last()) {
            self.foreign_children(defs, order.drop_last()) + self.children(order.last())
        } else {
            self.foreign_children(defs, order.drop_last())
        }
    }

    /// The document after the children of each of `xs`, in turn, have taken
    /// over what they inherit.
    pub open spec fn resolved_each(self, xs: Seq<usize>) -> DocModel
        decreases xs.len(),
    {
        if xs.len() == 0 {
            self
        } else {
            self.resolved(xs[0]).resolved_each(xs.drop_first())
        }
    }

    /// The document after each of `xs`, in turn, has become the last child
    /// of `into`.
    pub open spec fn moved_each(self, xs: Seq<usize>, into: usize) -> DocModel
        decreases xs.len(),
    {
        if xs.len() == 0 {
            self
        } else {
            self.moved(xs[0], into).moved_each(xs.drop_first(), into)
        }
    }

    /// The document after each of `xs`, in turn, was cut from its parent.
    pub open spec fn removed_each(self, xs: Seq<usize>) -> DocModel
        decreases xs.len(),
    {
        if xs.len() == 0 {
            self
        } else {
            self.detached(xs[0]).removed_each(xs.drop_first())
        }
    }

    /// The document after the second step of the pass: the nodes to
    /// relocate have resolved what they inherit, each at its old place, and
    /// have then moved to the end of `defs` in document order; the nodes to
    /// remove are gone.
    pub open spec fn relocated(self, svg: usize, defs: usize) -> DocModel {
        let moves = self.descendants().filter(self.relocatable_fn(svg, defs));
        let removals = self.descendants().filter(self.removable_fn());
        self.resolved_each(moves).moved_each(moves, defs).removed_each(removals)
    }

    /// The document after the third step: the children of every other
    /// definitions container have moved to the end of `defs`.
    pub open spec fn flattened(self, defs: usize) -> DocModel {
        self.moved_each(self.foreign_children(defs, self.descendants()), defs)
    }

    /// The document after the fourth step: every other definitions
    /// container is gone.
    pub open spec fn pruned(self, defs: usize) -> DocModel {
        self.removed_each(self.descendants().filter(self.foreign_fn(defs)))
    }

    /// The document after the whole pass.
    pub open spec fn consolidated(self) -> DocModel {
        let svg = self.svg_element().unwrap();
        let defs = self.container(svg);
        self.with_container(svg).relocated(svg, defs).flattened(defs).pruned(defs)
    }
}

/// What the first element of a kind among `nodes` is.
pub proof fn lemma_first_of_kind(d: DocModel, nodes: Seq<usize>, kind: ElementKind)
    ensures
        match d.first_of_kind(nodes, kind) {
            Some(c) => exists|i: int|
                0 <= i < nodes.len() && nodes[i] == c && d.kind(c).is(kind) && forall|j: int|
                    0 <= j < i ==> !d.kind(#[trigger] nodes[j]).is(kind),
            None => forall|j: int| 0 <= j < nodes.len() ==> !d.kind(#[trigger] nodes[j]).is(kind),
        },
    decreases nodes.len(),
{
    if nodes.len() > 0 && !d.kind(nodes[0]).is(kind) {
        let rest = nodes.drop_first();
        lemma_first_of_kind(d, rest, kind);
        match d.first_of_kind(rest, kind) {
            Some(c) => {
                let i = choose|i: int|
                    0 <= i < rest.len() && rest[i] == c && d.kind(c).is(kind) && forall|j: int|
                        0 <= j < i ==> !d.kind(#[trigger] rest[j]).is(kind);
                assert(nodes[i + 1] == c);
                assert forall|j: int| 0 <= j < i + 1 implies !d.kind(#[trigger] nodes[j]).is(
                    kind,
                ) by {
                    if j > 0 {
                        assert(rest[j - 1] == nodes[j]);
                    }
                }
            },
            None => {
                assert forall|j: int| 0 <= j < nodes.len() implies !d.kind(
                    #[trigger] nodes[j],
                ).is(kind) by {
                    if j > 0 {
                        assert(rest[j - 1] == nodes[j]);
                    }
                }
            },
        }
    } else if nodes.len() > 0 {
        assert(nodes[0] == nodes[0]);
    }
}

impl Document {
    /// The first child of `x` that is an element of kind `kind`.
    pub fn child_by_kind(&self, x: usize, kind: ElementKind) -> (r: Option<usize>)
        requires
            self.wf(),
            self@.has(x),
        ensures
            r == self@.child_of_kind(x, kind),
            r is Some ==> self@.has(r.unwrap()) && self@.parent(r.unwrap()) == Some(x)
                && self@.kind(r.unwrap()).is(kind),
    {
        let ghost d = self@;
        let cs = self.children(x);
        let n: usize = cs.len();
        let mut i: usize = 0;
        proof {
            assert(cs@.skip(0) =~= cs@);
        }
        while i < n
            invariant
                self@ == d,
                d.wf(),
                d.has(x),
                cs@ == d.children(x),
                n == cs@.len(),
                i <= n,
                d.first_of_kind(cs@, kind) == d.first_of_kind(cs@.skip(i as int), kind),
            decreases n - i,
        {
            let c = cs[i];
            proof {
                assert(cs@.skip(i as int)[0] == c);
                assert(cs@.skip(i as int).drop_first() =~= cs@.skip(i + 1));
                assert(d.has(d.children(x)[i as int]) && d.parent(d.children(x)[i as int]) == Some(
                    x,
                ));
            }
            if self.kind(c).is(kind) {
                return Some(c);
            }
            i = i + 1;
        }
        None
    }

    /// The root graphics container: the first such element under the root.
    pub fn svg_element(&self) -> (r: Option<usize>)
        requires
            self.wf(),
        ensures
            r == self@.svg_element(),
            r is Some ==> self@.has(r.unwrap()) && self@.parent(r.unwrap()) == Some(0usize)
                && self@.kind(r.unwrap()).is(ElementKind::Svg),
    {
        self.child_by_kind(0, ElementKind::Svg)
    }

    /// Lets the children of each of `xs`, in turn, take over what they
    /// inherit.
    pub fn resolve_each(&mut self, xs: &Vec<usize>)
        requires
            old(self).wf(),
            forall|i: int| 0 <= i < xs@.len() ==> old(self)@.has(#[trigger] xs@[i]),
        ensures
            final(self).wf(),
            final(self)@ == old(self)@.resolved_each(xs@),
            old(self)@.same_shape(final(self)@),
            old(self)@.same_kinds(final(self)@),
    {
        let ghost d = self@;
        let n: usize = xs.len();
        let mut i: usize = 0;
        proof {
            assert(xs@.skip(0) =~= xs@);
        }
        while i < n
            invariant
                self.wf(),
                n == xs@.len(),
                i <= n,
                d.same_shape(self@),
                d.same_kinds(self@),
                forall|j: int| 0 <= j < xs@.len() ==> d.has(#[trigger] xs@[j]),
                self@.resolved_each(xs@.skip(i as int)) == d.resolved_each(xs@),
            decreases n - i,
        {
            proof {
                assert(xs@.skip(i as int)[0] == xs@[i as int]);
                assert(xs@.skip(i as int).drop_first() =~= xs@.skip(i + 1));
                assert(d.has(xs@[i as int]));
                lemma_resolved_wf(self@, xs@[i as int]);
            }
            self.resolve_attrs(xs[i]);
            i = i + 1;
        }
    }

    /// Makes each of `xs`, in turn, the last child of `into`.
    pub fn move_each(&mut self, xs: &Vec<usize>, into: usize)
        requires
            old(self).wf(),
            old(self)@.has(into),
            old(self)@.parent(into) is Some,
            old(self)@.chain(old(self)@.parent(into).unwrap(), into),
            forall|i: int|
                0 <= i < xs@.len() ==> old(self)@.movable(
                    old(self)@.parent(into).unwrap(),
                    into,
                    #[trigger] xs@[i],
                ),
        ensures
            final(self).wf(),
            final(self)@ == old(self)@.moved_each(xs@, into),
            final(self)@.chain(old(self)@.parent(into).unwrap(), into),
            old(self)@.same_content(final(self)@),
    {
        let ghost d = self@;
        let ghost top = d.parent(into).unwrap();
        let n: usize = xs.len();
        let mut i: usize = 0;
        proof {
            assert(xs@.skip(0) =~= xs@);
        }
        while i < n
            invariant
                self.wf(),
                n == xs@.len(),
                i <= n,
                self@.chain(top, into),
                d.same_content(self@),
                forall|j: int| 0 <= j < xs@.len() ==> d.movable(top, into, #[trigger] xs@[j]),
                self@.moved_each(xs@.skip(i as int), into) == d.moved_each(xs@, into),
            decreases n - i,
        {
            proof {
                assert(xs@.skip(i as int)[0] == xs@[i as int]);
                assert(xs@.skip(i as int).drop_first() =~= xs@.skip(i + 1));
                assert(d.movable(top, into, xs@[i as int]));
                lemma_moved_wf(self@, top, into, xs@[i as int]);
            }
            self.move_to_end(xs[i], into);
            i = i + 1;
        }
    }

    /// Cuts each of `xs`, in turn, from its parent.
    pub fn remove_each(&mut self, xs: &Vec<usize>)
        requires
            old(self).wf(),
            forall|i: int| 0 <= i < xs@.len() ==> old(self)@.has(#[trigger] xs@[i]),
        ensures
            final(self).wf(),
            final(self)@ == old(self)@.removed_each(xs@),
            old(self)@.same_content(final(self)@),
            forall|y: usize|
                old(self)@.has(y) && !xs@.contains(y) ==> #[trigger] final(self)@.parent(y) == old(
                    self,
                )@.parent(y),
    {
        let ghost d = self@;
        let n: usize = xs.len();
        let mut i: usize = 0;
        proof {
            assert(xs@.skip(0) =~= xs@);
        }
        while i < n
            invariant
                self.wf(),
                n == xs@.len(),
                i <= n,
                d.same_content(self@),
                forall|j: int| 0 <= j < xs@.len() ==> d.has(#[trigger] xs@[j]),
                self@.removed_each(xs@.skip(i as int)) == d.removed_each(xs@),
                forall|y: usize|
                    d.has(y) && !xs@.contains(y) ==> #[trigger] self@.parent(y) == d.parent(y),
            decreases n - i,
        {
            let ghost cur = self@;
            proof {
                assert(xs@.skip(i as int)[0] == xs@[i as int]);
                assert(xs@.skip(i as int).drop_first() =~= xs@.skip(i + 1));
                assert(d.has(xs@[i as int]));
                lemma_detached_wf(cur, xs@[i as int]);
            }
            self.detach(xs[i]);
            proof {
                assert forall|y: usize| d.has(y) && !xs@.contains(y) implies #[trigger] self@.parent(
                    y,
                ) == d.parent(y) by {
                    assert(y != xs@[i as int]);
                    assert(self@.parent(y) == cur.parent(y));
                }
            }
            i = i + 1;
        }
    }
}

impl DocModel {
    /// `defs` is a definitions container and a child of `svg`, which is a
    /// root graphics container and a child of the root.
    pub open spec fn hosts(self, svg: usize, defs: usize) -> bool {
        &&& self.chain(svg, defs)
        &&& self.kind(svg).is(ElementKind::Svg)
        &&& self.kind(defs).is(ElementKind::Defs)
    }
}

/// No masking element is above the root graphics container or above the
/// canonical definitions container.
pub proof fn lemma_no_mask_above(d: DocModel, svg: usize, defs: usize)
    requires
        d.wf(),
        d.hosts(svg, defs),
    ensures
        !d.has_ancestor_of_kind(0, ElementKind::Mask),
        !d.has_ancestor_of_kind(svg, ElementKind::Mask),
        !d.has_ancestor_of_kind(defs, ElementKind::Mask),
        forall|x: usize|
            d.has(x) && d.parent(x) == Some(defs) ==> !#[trigger] d.has_ancestor_of_kind(
                x,
                ElementKind::Mask,
            ),
{
    assert(!d.has_ancestor_of_kind(0, ElementKind::Mask));
    assert(!d.has_ancestor_of_kind(svg, ElementKind::Mask));
    assert(!d.has_ancestor_of_kind(defs, ElementKind::Mask));
}

impl Document {
    /// Finds the canonical definitions container under `svg`; where there
    /// is none, creates one as the first child of `svg`.
    pub fn acquire_container(&mut self, svg: usize) -> (defs: usize)
        requires
            old(self).wf(),
            old(self)@.svg_element() == Some(svg),
            old(self)@.nodes.len() < usize::MAX,
        ensures
            final(self).wf(),
            final(self)@ == old(self)@.with_container(svg),
            defs == old(self)@.container(svg),
            final(self)@.anchored(svg, defs),
    {
        proof {
            lemma_with_container(self@, svg);
            lemma_child_of_kind(self@, 0, ElementKind::Svg, svg);
        }
        match self.child_by_kind(svg, ElementKind::Defs) {
            Some(c) => c,
            None => {
                let c = self.create_node(NodeKind::Element(ElementKind::Defs));
                self.prepend_child(svg, c);
                c
            },
        }
    }

    /// The second step of the pass: plans over the whole document which
    /// referenced nodes move and which go, then resolves, moves and removes.
    pub fn relocate(&mut self, svg: usize, defs: usize)
        requires
            old(self)@.anchored(svg, defs),
        ensures
            final(self)@ == old(self)@.relocated(svg, defs),
            final(self)@.anchored(svg, defs),
    {
        let ghost d = self@;
        proof {
            lemma_relocated(d, svg, defs);
        }
        let order = self.descendants();
        let targets = self.link_targets();
        let mut moves: Vec<usize> = Vec::new();
        let mut removals: Vec<usize> = Vec::new();
        let n: usize = order.len();
        let mut k: usize = 0;
        proof {
            assert(order@.take(0) =~= Seq::<usize>::empty());
            reveal(Seq::filter);
            assert(Seq::<usize>::empty().filter(d.relocatable_fn(svg, defs)) =~= Seq::<
                usize,
            >::empty());
            assert(Seq::<usize>::empty().filter(d.removable_fn()) =~= Seq::<usize>::empty());
        }
        while k < n
            invariant
                self@ == d,
                d.wf(),
                d.hosts(svg, defs),
                n == order@.len(),
                k <= n,
                forall|y: usize| order@.contains(y) <==> d.attached(y),
                forall|id: Seq<char>| listed(targets@, id) <==> d.is_link_target(id),
                moves@ == order@.take(k as int).filter(d.relocatable_fn(svg, defs)),
                removals@ == order@.take(k as int).filter(d.removable_fn()),
                forall|j: int| 0 <= j < moves@.len() ==> d.movable(svg, defs, #[trigger] moves@[j]),
                forall|j: int| 0 <= j < removals@.len() ==> d.has(#[trigger] removals@[j]),
            decreases n - k,
        {
            let x = order[k];
            proof {
                assert(order@.contains(x));
                assert(d.attached(x));
                assert(order@.take(k + 1) =~= order@.take(k as int).push(x));
                order@.take(k as int).lemma_filter_push(x, d.relocatable_fn(svg, defs));
                order@.take(k as int).lemma_filter_push(x, d.removable_fn());
            }
            if self.is_referenced_among(x, &targets) {
                if self.has_ancestor_of_kind(x, ElementKind::Mask) {
                    removals.push(x);
                } else {
                    match self.parent(x) {
                        Some(p) => {
                            if p != defs && x != svg && x != defs {
                                moves.push(x);
                            }
                        },
                        None => {},
                    }
                }
            }
            k = k + 1;
        }
        proof {
            assert(order@.take(n as int) =~= order@);
        }
        self.resolve_each(&moves);
        proof {
            assert(self@.parent(defs) == d.parent(defs));
            assert(self@.parent(svg) == d.parent(svg));
            assert(self@.kind(svg) == d.kind(svg));
            assert(self@.kind(defs) == d.kind(defs));
        }
        self.move_each(&moves, defs);
        self.remove_each(&removals);
    }

    /// The third step of the pass: the children of every other definitions
    /// container move to the end of `defs`.
    pub fn flatten(&mut self, svg: usize, defs: usize)
        requires
            old(self)@.anchored(svg, defs),
        ensures
            final(self)@ == old(self)@.flattened(defs),
            final(self)@.anchored(svg, defs),
            final(self)@.emptied(defs),
    {
        let ghost d = self@;
        proof {
            lemma_flattened(d, svg, defs);
        }
        let order = self.descendants();
        let mut lifted: Vec<usize> = Vec::new();
        let n: usize = order.len();
        let mut k: usize = 0;
        proof {
            assert(order@.take(0) =~= Seq::<usize>::empty());
        }
        while k < n
            invariant
                self@ == d,
                d.wf(),
                d.hosts(svg, defs),
                n == order@.len(),
                k <= n,
                forall|y: usize| order@.contains(y) <==> d.attached(y),
                lifted@ == d.foreign_children(defs, order@.take(k as int)),
                forall|j: int| 0 <= j < lifted@.len() ==> d.movable(svg, defs, #[trigger] lifted@[j]),
            decreases n - k,
        {
            let x = order[k];
            proof {
                assert(order@.contains(x));
                assert(d.attached(x));
                assert(order@.take(k + 1).drop_last() =~= order@.take(k as int));
                assert(order@.take(k + 1).last() == x);
            }
            if self.kind(x).is(ElementKind::Defs) && x != defs {
                let cs = self.children(x);
                let m: usize = cs.len();
                let mut i: usize = 0;
                let ghost base = lifted@;
                proof {
                    assert(cs@.take(0) =~= Seq::<usize>::empty());
                    assert(base + cs@.take(0) =~= base);
                }
                while i < m
                    invariant
                        self@ == d,
                        d.wf(),
                        d.hosts(svg, defs),
                        d.has(x),
                        d.foreign(defs, x),
                        cs@ == d.children(x),
                        m == cs@.len(),
                        i <= m,
                        lifted@ == base + cs@.take(i as int),
                        forall|j: int|
                            0 <= j < lifted@.len() ==> d.movable(svg, defs, #[trigger] lifted@[j]),
                    decreases m - i,
                {
                    let c = cs[i];
                    proof {
                        assert(d.has(d.children(x)[i as int]) && d.parent(d.children(x)[i as int])
                            == Some(x));
                    }
                    lifted.push(c);
                    proof {
                        assert(lifted@ =~= base + cs@.take(i + 1));
                    }
                    i = i + 1;
                }
                proof {
                    assert(cs@.take(m as int) =~= cs@);
                }
            }
            k = k + 1;
        }
        proof {
            assert(order@.take(n as int) =~= order@);
        }
        self.move_each(&lifted, defs);
    }

    /// The fourth step of the pass: every other definitions container goes.
    pub fn prune(&mut self, svg: usize, defs: usize)
        requires
            old(self)@.anchored(svg, defs),
            old(self)@.emptied(defs),
        ensures
            final(self)@ == old(self)@.pruned(defs),
            final(self)@.anchored(svg, defs),
    {
        let ghost d = self@;
        proof {
            lemma_pruned(d, svg, defs);
        }
        let order = self.descendants();
        let mut emptied: Vec<usize> = Vec::new();
        let n: usize = order.len();
        let mut k: usize = 0;
        proof {
            assert(order@.take(0) =~= Seq::<usize>::empty());
            reveal(Seq::filter);
            assert(Seq::<usize>::empty().filter(d.foreign_fn(defs)) =~= Seq::<usize>::empty());
        }
        while k < n
            invariant
                self@ == d,
                d.wf(),
                d.hosts(svg, defs),
                d.emptied(defs),
                n == order@.len(),
                k <= n,
                forall|y: usize| order@.contains(y) <==> d.attached(y),
                emptied@ == order@.take(k as int).filter(d.foreign_fn(defs)),
                forall|j: int| 0 <= j < emptied@.len() ==> d.has(#[trigger] emptied@[j]),
            decreases n - k,
        {
            let x = order[k];
            proof {
                assert(order@.contains(x));
                assert(d.attached(x));
                assert(order@.take(k + 1) =~= order@.take(k as int).push(x));
                order@.take(k as int).lemma_filter_push(x, d.foreign_fn(defs));
            }
            if self.kind(x).is(ElementKind::Defs) && x != defs {
                // the third step has left this container empty
                assert(d.foreign(defs, x) && d.children(x).len() == 0);
                emptied.push(x);
            }
            k = k + 1;
        }
        proof {
            assert(order@.take(n as int) =~= order@);
        }
        self.remove_each(&emptied);
    }
}

/// Consolidates the definitions of the document. The first definitions
/// container under the root graphics container is the canonical one; where
/// there is none, a new one becomes the first child of that container. Every
/// referenced node under a masking element leaves the document. Every other
/// referenced node becomes a child of the canonical container, after its
/// children have taken over what they inherit. The children of every other
/// definitions container follow, and those containers go.
pub fn group_defs(doc: &mut Document)
    requires
        old(doc).wf(),
        old(doc)@.svg_element() is Some,
        old(doc)@.nodes.len() < usize::MAX,
    ensures
        final(doc).wf(),
        final(doc)@ == old(doc)@.consolidated(),
        ({
            let svg = old(doc)@.svg_element().unwrap();
            let defs = old(doc)@.container(svg);
            &&& final(doc)@.anchored(svg, defs)
            &&& final(doc)@.settled(svg, defs)
            &&& old(doc)@.child_of_kind(svg, ElementKind::Defs) is None ==> final(doc)@.fronted(
                svg,
                defs,
            )
            &&& forall|y: usize|
                old(doc)@.attached(y) && #[trigger] old(doc)@.referenced(y) && old(
                    doc,
                )@.has_ancestor_of_kind(y, ElementKind::Mask) ==> !final(doc)@.attached(y)
        }),
{
    proof {
        law_one_container(doc@);
        law_reference_locality(doc@);
        lemma_consolidated_settled(doc@);
    }
    let svg = doc.svg_element().unwrap();
    let defs = doc.acquire_container(svg);
    doc.relocate(svg, defs);
    doc.flatten(svg, defs);
    doc.prune(svg, defs);
}

} // verus!
