//! The attribute inheritance resolver: what the children of an element that
//! moves take over from the ancestors that it leaves.

use vstd::prelude::*;
use crate::attrs::{lemma_value_of_has_key, lemma_value_of_push};
use crate::attrs::absorb;
use crate::attrs::absorb_attributes;
use crate::document::{Attribute, Document, attrs_model};
use crate::keys::{inheritable_key, is_inheritable_key};
use crate::kinds::{ElementKind, NodeKind};
use crate::model::{AttrModel, DocModel, NodeModel, ValueModel, distinct_keys, has_key, value_of};
use crate::order::lemma_parent_depth;
use crate::shape::lemma_same_shape_forest;

verus! {

/// The attributes of `attrs` with an inheritable key, in their order.
pub open spec fn inheritable_of(attrs: Seq<AttrModel>) -> Seq<AttrModel>
    decreases attrs.len(),
{
    if attrs.len() == 0 {
        Seq::empty()
    } else if inheritable_key(attrs.last().name) {
        inheritable_of(attrs.drop_last()).push(attrs.last())
    } else {
        inheritable_of(attrs.drop_last())
    }
}

impl DocModel {
    /// The inheritable attributes of the ancestors of `x`: those of its
    /// parent first, then those of the parent's parent, and so on up to the
    /// root.
    pub open spec fn inheritable_above(self, x: usize) -> Seq<AttrModel>
        decreases self.depth(x),
        when self.forest() && self.has(x)
    {
        match self.parent(x) {
            Some(p) => inheritable_of(self.attrs(p)) + self.inheritable_above(p),
            None => Seq::empty(),
        }
    }

    /// Whether the children of `x` are to take over inherited attributes
    /// when `x` moves.
    pub open spec fn sensitive(self, x: usize) -> bool {
        match self.kind(x) {
            NodeKind::Element(k) => k.is_inheritance_sensitive(),
            _ => false,
        }
    }

    /// The document in which each child of `x` has taken over, from the
    /// ancestors of `x`, every inheritable attribute whose key it did not
    /// have: the nearest ancestor that has the key gives the value. Where
    /// `x` is not sensitive to inheritance, the document is unchanged.
    pub open spec fn resolved(self, x: usize) -> DocModel {
        if self.sensitive(x) {
            DocModel {
                nodes: Seq::new(
                    self.nodes.len(),
                    |y: int|
                        if self.nodes[y].parent == Some(x) {
                            NodeModel {
                                attrs: absorb(self.nodes[y].attrs, self.inheritable_above(x)),
                                ..self.nodes[y]
                            }
                        } else {
                            self.nodes[y]
                        },
                ),
            }
        } else {
            self
        }
    }
}

/// Taking over attributes keeps keys distinct.
pub proof fn lemma_absorb_distinct(own: Seq<AttrModel>, extra: Seq<AttrModel>)
    requires
        distinct_keys(own),
    ensures
        distinct_keys(absorb(own, extra)),
    decreases extra.len(),
{
    if extra.len() > 0 {
        if has_key(own, extra[0].name) {
            lemma_absorb_distinct(own, extra.drop_first());
        } else {
            let next = own.push(extra[0]);
            assert forall|i: int, j: int| 0 <= i < j < next.len() implies (#[trigger] next[i]).name
                != (#[trigger] next[j]).name by {
                if j == own.len() {
                    assert(next[i] == own[i]);
                }
            }
            lemma_absorb_distinct(next, extra.drop_first());
        }
    }
}

/// Resolving keeps the document valid and changes nothing but attributes.
pub proof fn lemma_resolved_wf(d: DocModel, x: usize)
    requires
        d.wf(),
        d.has(x),
    ensures
        d.resolved(x).wf(),
        d.same_shape(d.resolved(x)),
        d.same_kinds(d.resolved(x)),
        forall|y: usize| d.has(y) ==> #[trigger] d.resolved(x).id(y) == d.id(y),
{
    let e = d.resolved(x);
    if d.sensitive(x) {
        assert(d.same_shape(e));
        lemma_same_shape_forest(d, e);
        assert forall|y: usize| e.has(y) implies distinct_keys(#[trigger] e.attrs(y)) by {
            assert(distinct_keys(d.attrs(y)));
            if d.parent(y) == Some(x) {
                lemma_absorb_distinct(d.attrs(y), d.inheritable_above(x));
            }
        }
    } else {
        lemma_same_shape_forest(d, e);
    }
}

/// The attributes of `attrs` with an inheritable key, copied in their order.
fn inheritable_attributes(attrs: &Vec<Attribute>, out: &mut Vec<Attribute>)
    ensures
        attrs_model(final(out)@) == attrs_model(old(out)@) + inheritable_of(attrs_model(attrs@)),
{
    let ghost model = attrs_model(attrs@);
    let ghost before = attrs_model(out@);
    let n: usize = attrs.len();
    let mut i: usize = 0;
    proof {
        assert(model.take(0) =~= Seq::<AttrModel>::empty());
        assert(before + inheritable_of(model.take(0)) =~= before);
    }
    while i < n
        invariant
            model == attrs_model(attrs@),
            n == attrs@.len(),
            i <= n,
            attrs_model(out@) == before + inheritable_of(model.take(i as int)),
        decreases n - i,
    {
        let ghost held = out@;
        proof {
            assert(model.take(i + 1).drop_last() =~= model.take(i as int));
            assert(model.take(i + 1).last() == attrs@[i as int]@);
        }
        if is_inheritable_key(attrs[i].name.as_str()) {
            let a = attrs[i].clone();
            out.push(a);
            proof {
                assert forall|k: int| 0 <= k < held.len() implies attrs_model(out@)[k]
                    == attrs_model(held)[k] by {
                    assert(out@[k] == held[k]);
                }
                assert(attrs_model(out@) =~= attrs_model(held).push(attrs@[i as int]@));
                assert(attrs_model(out@) =~= before + inheritable_of(model.take(i + 1)));
            }
        }
        i = i + 1;
    }
    proof {
        assert(model.take(n as int) =~= model);
    }
}

impl Document {
    /// Whether a proper ancestor of `x` is an element of kind `kind`.
    pub fn has_ancestor_of_kind(&self, x: usize, kind: ElementKind) -> (b: bool)
        requires
            self.wf(),
            self@.has(x),
        ensures
            b == self@.has_ancestor_of_kind(x, kind),
    {
        let ghost d = self@;
        let mut cur = x;
        loop
            invariant
                self@ == d,
                d.wf(),
                d.has(cur),
                d.has_ancestor_of_kind(x, kind) == d.has_ancestor_of_kind(cur, kind),
            decreases d.depth(cur),
        {
            match self.parent(cur) {
                None => {
                    return false;
                },
                Some(p) => {
                    proof {
                        lemma_parent_depth(d, cur);
                    }
                    if self.kind(p).is(kind) {
                        return true;
                    }
                    cur = p;
                },
            }
        }
    }

    /// Copies of the inheritable attributes of the ancestors of `x`, those
    /// of the nearest ancestor first.
    pub fn inheritable_above(&self, x: usize) -> (r: Vec<Attribute>)
        requires
            self.wf(),
            self@.has(x),
        ensures
            attrs_model(r@) == self@.inheritable_above(x),
    {
        let ghost d = self@;
        let mut r: Vec<Attribute> = Vec::new();
        let mut cur = x;
        proof {
            assert(attrs_model(r@) =~= Seq::<AttrModel>::empty());
            assert(attrs_model(r@) + d.inheritable_above(cur) =~= d.inheritable_above(x));
        }
        loop
            invariant
                self@ == d,
                d.wf(),
                d.has(cur),
                attrs_model(r@) + d.inheritable_above(cur) == d.inheritable_above(x),
            decreases d.depth(cur),
        {
            match self.parent(cur) {
                None => {
                    proof {
                        assert(attrs_model(r@) + Seq::<AttrModel>::empty() =~= attrs_model(r@));
                    }
                    return r;
                },
                Some(p) => {
                    proof {
                        lemma_parent_depth(d, cur);
                    }
                    let ghost held = attrs_model(r@);
                    inheritable_attributes(self.attributes(p), &mut r);
                    proof {
                        assert(attrs_model(r@) + d.inheritable_above(p) =~= held
                            + d.inheritable_above(cur));
                    }
                    cur = p;
                },
            }
        }
    }

    /// Lets each child of `x` take over, from the ancestors of `x`, every
    /// inheritable attribute whose key it does not have. An element that is
    /// not sensitive to inheritance is left as it is.
    pub fn resolve_attrs(&mut self, x: usize)
        requires
            old(self).wf(),
            old(self)@.has(x),
        ensures
            final(self).wf(),
            final(self)@ == old(self)@.resolved(x),
    {
        let ghost d = self@;
        proof {
            lemma_resolved_wf(d, x);
        }
        let sensitive = match self.kind(x) {
            NodeKind::Element(k) => k.is_inheritance_sensitive(),
            _ => false,
        };
        if !sensitive {
            return ;
        }
        let extra = self.inheritable_above(x);
        let n: usize = self.children(x).len();
        let mut i: usize = 0;
        while i < n
            invariant
                self.wf(),
                d.wf(),
                d.has(x),
                d.sensitive(x),
                d.same_shape(self@),
                d.same_kinds(self@),
                n == d.children(x).len(),
                i <= n,
                attrs_model(extra@) == d.inheritable_above(x),
                forall|y: usize| d.has(y) ==> #[trigger] self@.id(y) == d.id(y),
                forall|j: int|
                    0 <= j < i ==> #[trigger] self@.attrs(d.children(x)[j]) == absorb(
                        d.attrs(d.children(x)[j]),
                        d.inheritable_above(x),
                    ),
                forall|y: usize|
                    d.has(y) && !d.children(x).take(i as int).contains(y) ==> #[trigger] self@.attrs(
                        y,
                    ) == d.attrs(y),
            decreases n - i,
        {
            let ghost cur = self@;
            assert(cur.children(x) == d.children(x));
            let c = self.children(x)[i];
            proof {
                assert(d.has(c) && d.parent(c) == Some(x));
                assert(!d.children(x).take(i as int).contains(c)) by {
                    assert(d.children(x).no_duplicates());
                    if d.children(x).take(i as int).contains(c) {
                        let k = choose|k: int|
                            0 <= k < d.children(x).take(i as int).len() && d.children(x).take(
                                i as int,
                            )[k] == c;
                        assert(d.children(x)[k] == c);
                    }
                }
                assert(cur.attrs(c) == d.attrs(c));
            }
            let merged = absorb_attributes(self.attributes(c), &extra);
            proof {
                lemma_absorb_distinct(d.attrs(c), d.inheritable_above(x));
            }
            self.replace_attributes(c, merged);
            proof {
                let next = self@;
                assert forall|y: usize|
                    d.has(y) && !d.children(x).take(i + 1).contains(y) implies #[trigger] next.attrs(
                    y,
                ) == d.attrs(y) by {
                    if d.children(x).take(i as int).contains(y) {
                        let k = choose|k: int|
                            0 <= k < d.children(x).take(i as int).len() && d.children(x).take(
                                i as int,
                            )[k] == y;
                        assert(d.children(x).take(i + 1)[k] == y);
                    }
                    assert(d.children(x).take(i + 1)[i as int] == c);
                    assert(y != c);
                    assert(next.attrs(y) == cur.attrs(y));
                }
                assert forall|j: int| 0 <= j < i + 1 implies #[trigger] next.attrs(
                    d.children(x)[j],
                ) == absorb(d.attrs(d.children(x)[j]), d.inheritable_above(x)) by {
                    if j < i {
                        assert(d.children(x)[j] != c);
                        assert(next.attrs(d.children(x)[j]) == cur.attrs(d.children(x)[j]));
                    }
                }
                assert forall|y: usize| d.has(y) implies #[trigger] next.id(y) == d.id(y) by {
                    assert(next.id(y) == cur.id(y));
                }
            }
            i = i + 1;
        }
        proof {
            let e = self@;
            let goal = d.resolved(x);
            assert forall|y: int| 0 <= y < e.nodes.len() implies e.nodes[y] == goal.nodes[y] by {
                let yy = y as usize;
                assert(e.parent(yy) == d.parent(yy));
                assert(e.children(yy) == d.children(yy));
                assert(e.kind(yy) == d.kind(yy));
                assert(e.id(yy) == d.id(yy));
                if d.parent(yy) == Some(x) {
                    assert(d.children(x).contains(yy));
                    let k = choose|k: int| 0 <= k < d.children(x).len() && d.children(x)[k] == yy;
                    assert(e.attrs(d.children(x)[k]) == absorb(
                        d.attrs(d.children(x)[k]),
                        d.inheritable_above(x),
                    ));
                } else {
                    assert(d.children(x).take(n as int) =~= d.children(x));
                    if d.children(x).contains(yy) {
                        let k = choose|k: int|
                            0 <= k < d.children(x).len() && d.children(x)[k] == yy;
                        assert(d.parent(d.children(x)[k]) == Some(x));
                    }
                    assert(e.attrs(yy) == d.attrs(yy));
                }
            }
            assert(e.nodes =~= goal.nodes);
        }
    }
}

impl DocModel {
    /// The value that the ancestors of `x` give to the key `name`: that of
    /// the nearest ancestor that has the key.
    pub open spec fn inherited(self, x: usize, name: Seq<char>) -> Option<ValueModel>
        decreases self.depth(x),
        when self.forest() && self.has(x)
    {
        match self.parent(x) {
            Some(p) => match value_of(self.attrs(p), name) {
                Some(v) => Some(v),
                None => self.inherited(p, name),
            },
            None => None,
        }
    }
}

/// The value of a key in two lists, one after the other, is that of the
/// first list that has the key.
pub proof fn lemma_value_of_add(a: Seq<AttrModel>, b: Seq<AttrModel>, name: Seq<char>)
    ensures
        value_of(a + b, name) == match value_of(a, name) {
            Some(v) => Some(v),
            None => value_of(b, name),
        },
    decreases a.len(),
{
    if a.len() == 0 {
        assert(a + b =~= b);
    } else {
        assert((a + b).drop_first() =~= a.drop_first() + b);
        lemma_value_of_add(a.drop_first(), b, name);
    }
}

/// The inheritable attributes of a list give an inheritable key the value
/// that the list gives it, and any other key none.
pub proof fn lemma_value_of_inheritable(attrs: Seq<AttrModel>, name: Seq<char>)
    ensures
        value_of(inheritable_of(attrs), name) == if inheritable_key(name) {
            value_of(attrs, name)
        } else {
            None
        },
    decreases attrs.len(),
{
    if attrs.len() > 0 {
        let rest = attrs.drop_last();
        let last = attrs.last();
        assert(attrs =~= rest.push(last));
        lemma_value_of_inheritable(rest, name);
        lemma_value_of_push(rest, last, name);
        lemma_value_of_push(inheritable_of(rest), last, name);
        lemma_value_of_has_key(rest, name);
        lemma_value_of_has_key(inheritable_of(rest), name);
    }
}

/// What the ancestors of `x` hand down for a key is the value that `x`
/// inherits, where the key is inheritable, and nothing where it is not.
pub proof fn lemma_value_of_above(d: DocModel, x: usize, name: Seq<char>)
    requires
        d.wf(),
        d.has(x),
    ensures
        value_of(d.inheritable_above(x), name) == if inheritable_key(name) {
            d.inherited(x, name)
        } else {
            None
        },
    decreases d.depth(x),
{
    match d.parent(x) {
        Some(p) => {
            lemma_parent_depth(d, x);
            lemma_value_of_above(d, p, name);
            lemma_value_of_inheritable(d.attrs(p), name);
            lemma_value_of_add(inheritable_of(d.attrs(p)), d.inheritable_above(p), name);
        },
        None => {},
    }
}

/// A list that has taken over from another gives a key the value that it
/// gave before, and a key that it did not have the value of the other list.
pub proof fn lemma_value_of_absorb(own: Seq<AttrModel>, extra: Seq<AttrModel>, name: Seq<char>)
    ensures
        value_of(absorb(own, extra), name) == match value_of(own, name) {
            Some(v) => Some(v),
            None => value_of(extra, name),
        },
    decreases extra.len(),
{
    lemma_value_of_has_key(own, name);
    if extra.len() > 0 {
        let rest = extra.drop_first();
        if has_key(own, extra[0].name) {
            lemma_value_of_absorb(own, rest, name);
        } else {
            lemma_value_of_absorb(own.push(extra[0]), rest, name);
            lemma_value_of_push(own, extra[0], name);
        }
    }
}

/// Inheritance is preserved. When the children of an element that is
/// sensitive to inheritance resolve what they inherit, a child keeps every
/// attribute that it had, in its place and with its value; for each
/// inheritable key that it did not have and that an ancestor of the element
/// has, it gets the value of the nearest such ancestor; and it gets no
/// other key.
pub proof fn law_inheritance(d: DocModel, x: usize, c: usize, name: Seq<char>)
    requires
        d.wf(),
        d.has(x),
        d.sensitive(x),
        d.has(c),
        d.parent(c) == Some(x),
    ensures
        d.attrs(c).len() <= d.resolved(x).attrs(c).len(),
        d.resolved(x).attrs(c).take(d.attrs(c).len() as int) == d.attrs(c),
        value_of(d.resolved(x).attrs(c), name) == match value_of(d.attrs(c), name) {
            Some(v) => Some(v),
            None => if inheritable_key(name) {
                d.inherited(x, name)
            } else {
                None
            },
        },
{
    let own = d.attrs(c);
    let extra = d.inheritable_above(x);
    let got = d.resolved(x).attrs(c);
    assert(got == absorb(own, extra));
    lemma_value_of_absorb(own, extra, name);
    lemma_value_of_above(d, x, name);
    lemma_absorb_prefix(own, extra);
}

/// A list that has taken over from another begins with what it was.
pub proof fn lemma_absorb_prefix(own: Seq<AttrModel>, extra: Seq<AttrModel>)
    ensures
        own.len() <= absorb(own, extra).len(),
        absorb(own, extra).take(own.len() as int) == own,
    decreases extra.len(),
{
    if extra.len() > 0 {
        let rest = extra.drop_first();
        if has_key(own, extra[0].name) {
            lemma_absorb_prefix(own, rest);
        } else {
            let next = own.push(extra[0]);
            lemma_absorb_prefix(next, rest);
            assert(absorb(own, extra).take(own.len() as int) =~= absorb(next, rest).take(
                next.len() as int,
            ).take(own.len() as int));
            assert(next.take(own.len() as int) =~= own);
        }
    } else {
        assert(own.take(own.len() as int) =~= own);
    }
}

} // verus!
