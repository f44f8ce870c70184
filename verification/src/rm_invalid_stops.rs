//! The gradient stop deduplicator: a stop that repeats the stop retained
//! before it says nothing and goes.

use vstd::prelude::*;
use crate::attrs::find_value;
use crate::document::{AttrValue, Attribute, Document, attrs_model};
use crate::folds::lemma_removed_each_result;
use crate::kinds::NodeKind;
use crate::model::{AttrModel, DocModel, value_of};
use crate::order::lemma_descendants_attached;
use crate::seqs::{
    lemma_contains_add, lemma_contains_first_rest, lemma_without_member, lemma_without_none,
    lemma_without_same, without,
};

verus! {

/// The key of the offset of a stop.
pub open spec fn offset() -> Seq<char> {
    "offset"@
}

/// The key of the color of a stop.
pub open spec fn stop_color() -> Seq<char> {
    "stop-color"@
}

/// The key of the opacity of a stop.
pub open spec fn stop_opacity() -> Seq<char> {
    "stop-opacity"@
}

/// Whether the two attribute lists describe the same stop: offset, color
/// and opacity are each the same value, or absent in both.
pub open spec fn same_stop(a: Seq<AttrModel>, b: Seq<AttrModel>) -> bool {
    &&& value_of(a, offset()) == value_of(b, offset())
    &&& value_of(a, stop_color()) == value_of(b, stop_color())
    &&& value_of(a, stop_opacity()) == value_of(b, stop_opacity())
}

impl DocModel {
    /// Those of `stops` that repeat the stop retained before them, in their
    /// order; `last` is the stop retained before the first of `stops`.
    pub open spec fn repeated_stops(self, stops: Seq<usize>, last: usize) -> Seq<usize>
        decreases stops.len(),
    {
        if stops.len() == 0 {
            Seq::empty()
        } else if same_stop(self.attrs(last), self.attrs(stops[0])) {
            seq![stops[0]] + self.repeated_stops(stops.drop_first(), last)
        } else {
            self.repeated_stops(stops.drop_first(), stops[0])
        }
    }

    pub open spec fn is_gradient(self, x: usize) -> bool {
        match self.kind(x) {
            NodeKind::Element(k) => k.is_gradient(),
            _ => false,
        }
    }

    /// The children of `x` that repeat the stop retained before them, where
    /// `x` is a gradient; the first child is always retained.
    pub open spec fn repeated_in(self, x: usize) -> Seq<usize> {
        if self.is_gradient(x) && self.children(x).len() > 0 {
            self.repeated_stops(self.children(x).drop_first(), self.children(x)[0])
        } else {
            Seq::empty()
        }
    }

    /// The repeated stops of the gradients among `order`, gradient by
    /// gradient.
    pub open spec fn repeated_among(self, order: Seq<usize>) -> Seq<usize>
        decreases order.len(),
    {
        if order.len() == 0 {
            Seq::empty()
        } else {
            self.repeated_among(order.drop_last()) + self.repeated_in(order.last())
        }
    }

    /// The document without the repeated stops of its gradients.
    pub open spec fn without_repeated_stops(self) -> DocModel {
        self.removed_each(self.repeated_among(self.descendants()))
    }
}

/// Whether the two values are the same, or both absent.
fn same_value(a: Option<&AttrValue>, b: Option<&AttrValue>) -> (r: bool)
    ensures
        r == (match (a, b) {
            (Some(x), Some(y)) => x@ == y@,
            (None, None) => true,
            _ => false,
        }),
{
    match (a, b) {
        (Some(x), Some(y)) => x.same_as(y),
        (None, None) => true,
        _ => false,
    }
}

/// Whether the two attribute lists describe the same stop.
fn is_same_stop(
    a: &Vec<Attribute>,
    b: &Vec<Attribute>,
    offset_key: &String,
    color_key: &String,
    opacity_key: &String,
) -> (r: bool)
    requires
        offset_key@ == offset(),
        color_key@ == stop_color(),
        opacity_key@ == stop_opacity(),
    ensures
        r == same_stop(attrs_model(a@), attrs_model(b@)),
{
    same_value(find_value(a, offset_key), find_value(b, offset_key)) && same_value(
        find_value(a, color_key),
        find_value(b, color_key),
    ) && same_value(find_value(a, opacity_key), find_value(b, opacity_key))
}

/// Removes from every gradient each stop whose offset, color and opacity are
/// those of the stop retained before it. The first stop of a gradient always
/// stays, and a stop that differs in any of the three stays and is what the
/// stops after it are held against.
pub fn remove_invalid_stops(doc: &mut Document)
    requires
        old(doc).wf(),
    ensures
        final(doc).wf(),
        final(doc)@ == old(doc)@.without_repeated_stops(),
        old(doc)@.same_content(final(doc)@),
        forall|p: usize|
            old(doc)@.has(p) ==> #[trigger] final(doc)@.children(p) == (if old(doc)@.attached(p) {
                old(doc)@.kept_in(p)
            } else {
                old(doc)@.children(p)
            }),
{
    let ghost d = doc@;
    proof {
        law_stops_kept(d);
    }
    let offset_key = "offset".to_owned();
    let color_key = "stop-color".to_owned();
    let opacity_key = "stop-opacity".to_owned();
    let order = doc.descendants();
    let mut nodes: Vec<usize> = Vec::new();
    let n: usize = order.len();
    let mut k: usize = 0;
    proof {
        assert(order@.take(0) =~= Seq::<usize>::empty());
    }
    while k < n
        invariant
            doc@ == d,
            d.wf(),
            n == order@.len(),
            k <= n,
            offset_key@ == offset(),
            color_key@ == stop_color(),
            opacity_key@ == stop_opacity(),
            forall|y: usize| order@.contains(y) <==> d.attached(y),
            nodes@ == d.repeated_among(order@.take(k as int)),
            forall|j: int| 0 <= j < nodes@.len() ==> d.has(#[trigger] nodes@[j]),
        decreases n - k,
    {
        let x = order[k];
        proof {
            assert(order@.contains(x));
            assert(d.attached(x));
            assert(order@.take(k + 1).drop_last() =~= order@.take(k as int));
            assert(order@.take(k + 1).last() == x);
        }
        let gradient = match doc.kind(x) {
            NodeKind::Element(kind) => kind.is_gradient(),
            _ => false,
        };
        let cs = doc.children(x);
        let m: usize = cs.len();
        if gradient && m > 0 {
            let ghost base = nodes@;
            let mut last = cs[0];
            let mut i: usize = 1;
            proof {
                assert(cs@.drop_first() =~= cs@.skip(1));
                assert(base + d.repeated_stops(cs@.skip(1), last) == base + d.repeated_in(x));
                assert(d.has(d.children(x)[0]));
            }
            while i < m
                invariant
                    doc@ == d,
                    d.wf(),
                    d.has(x),
                    d.has(last),
                    cs@ == d.children(x),
                    m == cs@.len(),
                    1 <= i <= m,
                    offset_key@ == offset(),
                    color_key@ == stop_color(),
                    opacity_key@ == stop_opacity(),
                    nodes@ + d.repeated_stops(cs@.skip(i as int), last) == base + d.repeated_in(x),
                    forall|j: int| 0 <= j < nodes@.len() ==> d.has(#[trigger] nodes@[j]),
                decreases m - i,
            {
                let c = cs[i];
                let ghost held = nodes@;
                proof {
                    assert(d.has(d.children(x)[i as int]));
                    assert(cs@.skip(i as int)[0] == c);
                    assert(cs@.skip(i as int).drop_first() =~= cs@.skip(i + 1));
                }
                if is_same_stop(
                    doc.attributes(last),
                    doc.attributes(c),
                    &offset_key,
                    &color_key,
                    &opacity_key,
                ) {
                    nodes.push(c);
                    proof {
                        assert(nodes@ + d.repeated_stops(cs@.skip(i + 1), last) =~= held + (seq![c]
                            + d.repeated_stops(cs@.skip(i + 1), last)));
                    }
                } else {
                    last = c;
                }
                i = i + 1;
            }
            proof {
                assert(cs@.skip(m as int) =~= Seq::<usize>::empty());
                assert(nodes@ + Seq::<usize>::empty() =~= nodes@);
            }
        } else {
            proof {
                assert(nodes@ + d.repeated_in(x) =~= nodes@);
            }
        }
        k = k + 1;
    }
    proof {
        assert(order@.take(n as int) =~= order@);
    }
    doc.remove_each(&nodes);
}

impl DocModel {
    /// Those of `stops` that are retained, in their order; `last` is the
    /// stop retained before the first of `stops`.
    pub open spec fn kept_stops(self, stops: Seq<usize>, last: usize) -> Seq<usize>
        decreases stops.len(),
    {
        if stops.len() == 0 {
            Seq::empty()
        } else if same_stop(self.attrs(last), self.attrs(stops[0])) {
            self.kept_stops(stops.drop_first(), last)
        } else {
            seq![stops[0]] + self.kept_stops(stops.drop_first(), stops[0])
        }
    }

    /// The children that `x` retains: all of them, unless `x` is a gradient.
    pub open spec fn kept_in(self, x: usize) -> Seq<usize> {
        if self.is_gradient(x) && self.children(x).len() > 0 {
            seq![self.children(x)[0]] + self.kept_stops(
                self.children(x).drop_first(),
                self.children(x)[0],
            )
        } else {
            self.children(x)
        }
    }
}

/// A repeated stop is one of the stops.
pub proof fn lemma_repeated_is_stop(d: DocModel, stops: Seq<usize>, last: usize, y: usize)
    requires
        d.repeated_stops(stops, last).contains(y),
    ensures
        stops.contains(y),
    decreases stops.len(),
{
    if stops.len() > 0 {
        let rest = stops.drop_first();
        lemma_contains_first_rest(stops, y);
        if same_stop(d.attrs(last), d.attrs(stops[0])) {
            lemma_contains_add(seq![stops[0]], d.repeated_stops(rest, last), y);
            if seq![stops[0]].contains(y) {
                let k = choose|k: int| 0 <= k < seq![stops[0]].len() && seq![stops[0]][k] == y;
                assert(y == stops[0]);
            } else {
                lemma_repeated_is_stop(d, rest, last, y);
            }
        } else {
            lemma_repeated_is_stop(d, rest, stops[0], y);
        }
    }
}

/// A repeated stop of a node is one of its children.
pub proof fn lemma_repeated_is_child(d: DocModel, g: usize, y: usize)
    requires
        d.repeated_in(g).contains(y),
    ensures
        d.is_gradient(g),
        d.children(g).contains(y),
{
    let cs = d.children(g);
    lemma_repeated_is_stop(d, cs.drop_first(), cs[0], y);
    lemma_contains_first_rest(cs, y);
}

/// The repeated stops among `order` are those of its members.
pub proof fn lemma_repeated_among_member(d: DocModel, order: Seq<usize>, y: usize)
    ensures
        d.repeated_among(order).contains(y) <==> exists|i: int|
            0 <= i < order.len() && d.repeated_in(#[trigger] order[i]).contains(y),
    decreases order.len(),
{
    if order.len() > 0 {
        let rest = order.drop_last();
        let last = order.last();
        lemma_repeated_among_member(d, rest, y);
        lemma_contains_add(d.repeated_among(rest), d.repeated_in(last), y);
        if d.repeated_among(order).contains(y) {
            if d.repeated_in(last).contains(y) {
                assert(order[order.len() - 1] == last);
            } else {
                let i = choose|i: int|
                    0 <= i < rest.len() && d.repeated_in(#[trigger] rest[i]).contains(y);
                assert(order[i] == rest[i]);
            }
        }
        if exists|i: int| 0 <= i < order.len() && d.repeated_in(#[trigger] order[i]).contains(y) {
            let i = choose|i: int|
                0 <= i < order.len() && d.repeated_in(#[trigger] order[i]).contains(y);
            if i < rest.len() {
                assert(rest[i] == order[i]);
            }
        }
    }
}

/// The stops without the repeated ones are the retained ones.
pub proof fn lemma_kept_stops(d: DocModel, stops: Seq<usize>, last: usize)
    requires
        stops.no_duplicates(),
    ensures
        without(stops, d.repeated_stops(stops, last)) == d.kept_stops(stops, last),
    decreases stops.len(),
{
    if stops.len() > 0 {
        let first = stops[0];
        let rest = stops.drop_first();
        assert(rest.no_duplicates()) by {
            assert forall|a: int, b: int| 0 <= a < rest.len() && 0 <= b < rest.len() && a
                != b implies rest[a] != rest[b] by {
                assert(rest[a] == stops[a + 1]);
                assert(rest[b] == stops[b + 1]);
            }
        }
        assert(!rest.contains(first)) by {
            if rest.contains(first) {
                let k = choose|k: int| 0 <= k < rest.len() && rest[k] == first;
                assert(stops[k + 1] == first);
            }
        }
        if same_stop(d.attrs(last), d.attrs(first)) {
            let gone = d.repeated_stops(stops, last);
            let less = d.repeated_stops(rest, last);
            assert(gone[0] == first);
            assert(gone.contains(first));
            assert forall|i: int| 0 <= i < rest.len() implies gone.contains(#[trigger] rest[i])
                == less.contains(rest[i]) by {
                lemma_contains_add(seq![first], less, rest[i]);
                if seq![first].contains(rest[i]) {
                    let k = choose|k: int| 0 <= k < seq![first].len() && seq![first][k] == rest[i];
                    assert(rest.contains(rest[i]));
                }
            }
            lemma_without_same(rest, gone, less);
            lemma_kept_stops(d, rest, last);
        } else {
            let gone = d.repeated_stops(rest, first);
            assert(!gone.contains(first)) by {
                if gone.contains(first) {
                    lemma_repeated_is_stop(d, rest, first, first);
                }
            }
            lemma_kept_stops(d, rest, first);
        }
    }
}

/// No retained stop repeats the stop retained before it.
pub proof fn lemma_kept_stops_differ(d: DocModel, stops: Seq<usize>, last: usize)
    ensures
        d.kept_stops(stops, last).len() > 0 ==> !same_stop(
            d.attrs(last),
            d.attrs(d.kept_stops(stops, last)[0]),
        ),
        forall|i: int|
            0 <= i < d.kept_stops(stops, last).len() - 1 ==> !same_stop(
                d.attrs(#[trigger] d.kept_stops(stops, last)[i]),
                d.attrs(d.kept_stops(stops, last)[i + 1]),
            ),
    decreases stops.len(),
{
    if stops.len() > 0 {
        let rest = stops.drop_first();
        if same_stop(d.attrs(last), d.attrs(stops[0])) {
            lemma_kept_stops_differ(d, rest, last);
        } else {
            lemma_kept_stops_differ(d, rest, stops[0]);
            let tail = d.kept_stops(rest, stops[0]);
            let kept = d.kept_stops(stops, last);
            assert(kept == seq![stops[0]] + tail);
            assert forall|i: int| 0 <= i < kept.len() - 1 implies !same_stop(
                d.attrs(#[trigger] kept[i]),
                d.attrs(kept[i + 1]),
            ) by {
                if i == 0 {
                    assert(kept[1] == tail[0]);
                } else {
                    assert(kept[i] == tail[i - 1]);
                    assert(kept[i + 1] == tail[i]);
                }
            }
        }
    }
}

/// What the pass leaves of each node: a gradient in the tree of the root
/// keeps its first child and every child that does not repeat the stop
/// retained before it, in their order; every other node keeps its
/// children; and a node that is no longer a child has no parent. Nothing
/// else changes.
pub proof fn law_stops_kept(d: DocModel)
    requires
        d.wf(),
    ensures
        d.without_repeated_stops().wf(),
        d.same_content(d.without_repeated_stops()),
        forall|p: usize|
            d.has(p) ==> #[trigger] d.without_repeated_stops().children(p) == (if d.attached(p) {
                d.kept_in(p)
            } else {
                d.children(p)
            }),
        forall|y: usize|
            d.has(y) ==> #[trigger] d.without_repeated_stops().parent(y) == (match d.parent(y) {
                Some(p) => if d.attached(p) && !d.kept_in(p).contains(y) {
                    None
                } else {
                    Some(p)
                },
                None => None,
            }),
{
    let order = d.descendants();
    let gone = d.repeated_among(order);
    let e = d.without_repeated_stops();
    assert forall|y: usize| gone.contains(y) implies d.has(y) && d.parent(y) is Some && d.attached(
        d.parent(y).unwrap(),
    ) && d.repeated_in(d.parent(y).unwrap()).contains(y) by {
        lemma_repeated_among_member(d, order, y);
        let i = choose|i: int| 0 <= i < order.len() && d.repeated_in(#[trigger] order[i]).contains(y);
        let g = order[i];
        assert(order.contains(g));
        lemma_descendants_attached(d, g);
        lemma_repeated_is_child(d, g, y);
        let k = choose|k: int| 0 <= k < d.children(g).len() && d.children(g)[k] == y;
        assert(d.has(d.children(g)[k]) && d.parent(d.children(g)[k]) == Some(g));
    }
    assert forall|i: int| 0 <= i < gone.len() implies d.has(#[trigger] gone[i]) by {
        assert(gone.contains(gone[i]));
    }
    lemma_removed_each_result(d, gone);
    assert forall|p: usize| d.has(p) implies without(d.children(p), gone) == (if d.attached(p) {
        d.kept_in(p)
    } else {
        d.children(p)
    }) && (d.attached(p) ==> forall|y: usize|
        d.children(p).contains(y) ==> (gone.contains(y) <==> !d.kept_in(p).contains(y))) by {
        let cs = d.children(p);
        if d.attached(p) && d.is_gradient(p) && cs.len() > 0 {
            let own = d.repeated_in(p);
            lemma_descendants_attached(d, p);
            let at = choose|at: int| 0 <= at < order.len() && order[at] == p;
            assert forall|j: int| 0 <= j < cs.len() implies gone.contains(#[trigger] cs[j])
                == own.contains(cs[j]) by {
                assert(d.parent(cs[j]) == Some(p));
                if own.contains(cs[j]) {
                    assert(d.repeated_in(order[at]).contains(cs[j]));
                    lemma_repeated_among_member(d, order, cs[j]);
                }
            }
            lemma_without_same(cs, gone, own);
            assert(cs.no_duplicates());
            let rest = cs.drop_first();
            assert(rest.no_duplicates()) by {
                assert forall|a: int, b: int|
                    0 <= a < rest.len() && 0 <= b < rest.len() && a != b implies rest[a]
                    != rest[b] by {
                    assert(rest[a] == cs[a + 1]);
                    assert(rest[b] == cs[b + 1]);
                }
            }
            assert(!own.contains(cs[0])) by {
                if own.contains(cs[0]) {
                    lemma_repeated_is_stop(d, rest, cs[0], cs[0]);
                    let k = choose|k: int| 0 <= k < rest.len() && rest[k] == cs[0];
                    assert(cs[k + 1] == cs[0]);
                }
            }
            lemma_kept_stops(d, rest, cs[0]);
            assert(without(cs, own) == d.kept_in(p));
            assert forall|y: usize| cs.contains(y) implies (gone.contains(y) <==> !d.kept_in(
                p,
            ).contains(y)) by {
                lemma_without_member(cs, own, y);
                let j = choose|j: int| 0 <= j < cs.len() && cs[j] == y;
                assert(gone.contains(cs[j]) == own.contains(cs[j]));
            }
        } else {
            assert forall|j: int| 0 <= j < cs.len() implies !gone.contains(#[trigger] cs[j]) by {
                assert(d.parent(cs[j]) == Some(p));
                if gone.contains(cs[j]) {
                    lemma_repeated_is_child(d, p, cs[j]);
                }
            }
            lemma_without_none(cs, gone);
            if d.attached(p) {
                assert forall|y: usize| cs.contains(y) implies (gone.contains(y) <==> !d.kept_in(
                    p,
                ).contains(y)) by {
                    let j = choose|j: int| 0 <= j < cs.len() && cs[j] == y;
                    assert(!gone.contains(cs[j]));
                }
            }
        }
    }
    assert forall|y: usize| d.has(y) implies #[trigger] e.parent(y) == (match d.parent(y) {
        Some(p) => if d.attached(p) && !d.kept_in(p).contains(y) {
            None
        } else {
            Some(p)
        },
        None => None,
    }) by {
        match d.parent(y) {
            Some(p) => {
                assert(d.has(p) && d.children(p).contains(y));
                if !d.attached(p) {
                    assert(!gone.contains(y));
                }
            },
            None => {},
        }
    }
}

/// A run of repeated stops collapses to one: after the pass no child of a
/// gradient in the tree of the root repeats the child before it.
pub proof fn law_stops_differ(d: DocModel, g: usize, i: int)
    requires
        d.wf(),
        d.attached(g),
        d.is_gradient(g),
        0 <= i < d.without_repeated_stops().children(g).len() - 1,
    ensures
        !same_stop(
            d.without_repeated_stops().attrs(d.without_repeated_stops().children(g)[i]),
            d.without_repeated_stops().attrs(d.without_repeated_stops().children(g)[i + 1]),
        ),
{
    let e = d.without_repeated_stops();
    law_stops_kept(d);
    let cs = d.children(g);
    let kept = d.kept_in(g);
    assert(e.children(g) == kept);
    assert(cs.len() > 0);
    let tail = d.kept_stops(cs.drop_first(), cs[0]);
    lemma_kept_stops_differ(d, cs.drop_first(), cs[0]);
    assert(kept == seq![cs[0]] + tail);
    if i == 0 {
        assert(kept[0] == cs[0]);
        assert(kept[1] == tail[0]);
    } else {
        assert(kept[i] == tail[i - 1]);
        assert(kept[i + 1] == tail[i]);
    }
    assert(e.has(kept[i]) && e.has(kept[i + 1])) by {
        assert(e.has(e.children(g)[i]));
        assert(e.has(e.children(g)[i + 1]));
    }
    assert(e.attrs(kept[i]) == d.attrs(kept[i]));
    assert(e.attrs(kept[i + 1]) == d.attrs(kept[i + 1]));
}

} // verus!
