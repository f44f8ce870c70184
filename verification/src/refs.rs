//! The reference classifier: which nodes some attribute of the document
//! refers to.

use vstd::prelude::*;
use crate::document::{AttrValue, Document, attrs_model};
use crate::model::DocModel;

verus! {

impl DocModel {
    /// Whether some attribute of a node in the tree of the root refers to
    /// the identifier `id`.
    pub open spec fn is_link_target(self, id: Seq<char>) -> bool {
        exists|y: usize, i: int|
            self.attached(y) && 0 <= i < self.attrs(y).len() && (#[trigger] self.attrs(
                y,
            )[i]).value.links_to(id)
    }

    /// Whether `x` is referenced: an element with an identifier that some
    /// attribute of the document refers to.
    pub open spec fn referenced(self, x: usize) -> bool {
        self.kind(x).is_element() && self.id(x).len() > 0 && self.is_link_target(self.id(x))
    }
}

/// Whether `s` is the text of one of `texts`.
pub open spec fn listed(texts: Seq<String>, s: Seq<char>) -> bool {
    exists|k: int| 0 <= k < texts.len() && (#[trigger] texts[k])@ == s
}

/// Whether `s` is one of `texts`.
pub fn is_listed(texts: &Vec<String>, s: &String) -> (b: bool)
    ensures
        b == listed(texts@, s@),
{
    let n: usize = texts.len();
    let mut k: usize = 0;
    while k < n
        invariant
            n == texts@.len(),
            k <= n,
            forall|j: int| 0 <= j < k ==> (#[trigger] texts@[j])@ != s@,
        decreases n - k,
    {
        if texts[k] == *s {
            return true;
        }
        k = k + 1;
    }
    false
}

impl AttrValue {
    /// The identifier that the value refers to, where it is a reference.
    pub fn link(&self) -> (r: Option<&String>)
        ensures
            match r {
                Some(s) => self@.links_to(s@),
                None => forall|id: Seq<char>| !self@.links_to(id),
            },
    {
        match self {
            AttrValue::Link(s) => Some(s),
            AttrValue::FuncLink(s) => Some(s),
            _ => None,
        }
    }
}

impl Document {
    /// The identifiers that the attributes of the tree of the root refer to.
    pub fn link_targets(&self) -> (targets: Vec<String>)
        requires
            self.wf(),
        ensures
            forall|id: Seq<char>| listed(targets@, id) <==> self@.is_link_target(id),
    {
        let ghost d = self@;
        let order = self.descendants();
        let mut targets: Vec<String> = Vec::new();
        let n: usize = order.len();
        let mut k: usize = 0;
        while k < n
            invariant
                self@ == d,
                d.wf(),
                n == order@.len(),
                k <= n,
                forall|y: usize| order@.contains(y) <==> d.attached(y),
                forall|id: Seq<char>| listed(targets@, id) ==> d.is_link_target(id),
                forall|j: int, i: int, id: Seq<char>|
                    0 <= j < k && 0 <= i < d.attrs(order@[j]).len() && #[trigger] d.attrs(
                        order@[j],
                    )[i].value.links_to(id) ==> listed(targets@, id),
            decreases n - k,
        {
            let y = order[k];
            assert(order@.contains(y));
            assert(d.attached(y));
            let attrs = self.attributes(y);
            let m: usize = attrs.len();
            let mut i: usize = 0;
            while i < m
                invariant
                    self@ == d,
                    d.wf(),
                    n == order@.len(),
                    k < n,
                    y == order@[k as int],
                    d.attached(y),
                    attrs_model(attrs@) == d.attrs(y),
                    m == attrs@.len(),
                    i <= m,
                    forall|id: Seq<char>| listed(targets@, id) ==> d.is_link_target(id),
                    forall|j: int, i2: int, id: Seq<char>|
                        0 <= j < k && 0 <= i2 < d.attrs(order@[j]).len() && #[trigger] d.attrs(
                            order@[j],
                        )[i2].value.links_to(id) ==> listed(targets@, id),
                    forall|i2: int, id: Seq<char>|
                        0 <= i2 < i && #[trigger] d.attrs(y)[i2].value.links_to(id) ==> listed(
                            targets@,
                            id,
                        ),
                decreases m - i,
            {
                let ghost before = targets@;
                assert(d.attrs(y)[i as int] == attrs@[i as int]@);
                match attrs[i].value.link() {
                    Some(s) => {
                        targets.push(s.clone());
                        proof {
                            let last = before.len() as int;
                            assert(targets@[last]@ == s@);
                            assert forall|id: Seq<char>| listed(before, id) implies listed(
                                targets@,
                                id,
                            ) by {
                                let q = choose|q: int|
                                    0 <= q < before.len() && (#[trigger] before[q])@ == id;
                                assert(targets@[q]@ == id);
                            }
                            assert forall|id: Seq<char>| listed(targets@, id) implies d.is_link_target(
                                id,
                            ) by {
                                let q = choose|q: int|
                                    0 <= q < targets@.len() && (#[trigger] targets@[q])@ == id;
                                if q < last {
                                    assert(before[q]@ == id);
                                    assert(listed(before, id));
                                } else {
                                    assert(d.attrs(y)[i as int].value.links_to(id));
                                }
                            }
                            assert forall|i2: int, id: Seq<char>|
                                0 <= i2 < i + 1 && #[trigger] d.attrs(y)[i2].value.links_to(
                                    id,
                                ) implies listed(targets@, id) by {
                                if i2 == i {
                                    assert(id == s@);
                                    assert(targets@[last]@ == id);
                                }
                            }
                        }
                    },
                    None => {},
                }
                i = i + 1;
            }
            k = k + 1;
        }
        proof {
            assert forall|id: Seq<char>| d.is_link_target(id) implies listed(targets@, id) by {
                let (y, i) = choose|y: usize, i: int|
                    d.attached(y) && 0 <= i < d.attrs(y).len() && (#[trigger] d.attrs(
                        y,
                    )[i]).value.links_to(id);
                assert(order@.contains(y));
                let j = choose|j: int| 0 <= j < order@.len() && order@[j] == y;
                assert(d.attrs(order@[j])[i].value.links_to(id));
            }
        }
        targets
    }

    /// Whether `x` is referenced, given the identifiers that the document
    /// refers to.
    pub fn is_referenced_among(&self, x: usize, targets: &Vec<String>) -> (b: bool)
        requires
            self.wf(),
            self@.has(x),
            forall|id: Seq<char>| listed(targets@, id) <==> self@.is_link_target(id),
        ensures
            b == self@.referenced(x),
    {
        if !self.kind(x).is_element() {
            return false;
        }
        let id = self.id(x);
        if id.as_str().is_empty() {
            return false;
        }
        is_listed(targets, id)
    }

    /// Whether `x` is referenced: an element with an identifier that some
    /// attribute of the document refers to.
    pub fn is_referenced(&self, x: usize) -> (b: bool)
        requires
            self.wf(),
            self@.has(x),
        ensures
            b == self@.referenced(x),
    {
        let targets = self.link_targets();
        self.is_referenced_among(x, &targets)
    }
}

} // verus!
