//! The document tree: an arena of nodes addressed by stable indices.

use vstd::prelude::*;
use crate::edit::{lemma_attach_leaf_wf, lemma_detached_wf, lemma_moved_wf, lemma_with_new_wf};
use crate::kinds::NodeKind;
use crate::model::{AttrModel, DocModel, NodeModel, Ranking, ValueModel, distinct_keys, has_key};
use crate::shape::{lemma_with_attrs_wf, lemma_with_id_wf};

verus! {

/// The value of an attribute.
#[derive(Debug)]
pub enum AttrValue {
    /// A literal string.
    Text(String),
    /// A number, in its decimal text.
    Number(String),
    /// A bare reference to the element with this identifier.
    Link(String),
    /// A functional reference to the element with this identifier.
    FuncLink(String),
    /// Any other typed value, in its canonical text.
    Other(String),
}

impl View for AttrValue {
    type V = ValueModel;

    open spec fn view(&self) -> ValueModel {
        match self {
            AttrValue::Text(s) => ValueModel::Text(s@),
            AttrValue::Number(s) => ValueModel::Number(s@),
            AttrValue::Link(s) => ValueModel::Link(s@),
            AttrValue::FuncLink(s) => ValueModel::FuncLink(s@),
            AttrValue::Other(s) => ValueModel::Other(s@),
        }
    }
}

impl Clone for AttrValue {
    fn clone(&self) -> (r: Self)
        ensures
            r@ == self@,
    {
        match self {
            AttrValue::Text(s) => AttrValue::Text(s.clone()),
            AttrValue::Number(s) => AttrValue::Number(s.clone()),
            AttrValue::Link(s) => AttrValue::Link(s.clone()),
            AttrValue::FuncLink(s) => AttrValue::FuncLink(s.clone()),
            AttrValue::Other(s) => AttrValue::Other(s.clone()),
        }
    }
}

impl AttrValue {
    /// Whether the two values are of the same type and hold the same text.
    pub fn same_as(&self, other: &AttrValue) -> (b: bool)
        ensures
            b == (self@ == other@),
    {
        match (self, other) {
            (AttrValue::Text(s), AttrValue::Text(t)) => *s == *t,
            (AttrValue::Number(s), AttrValue::Number(t)) => *s == *t,
            (AttrValue::Link(s), AttrValue::Link(t)) => *s == *t,
            (AttrValue::FuncLink(s), AttrValue::FuncLink(t)) => *s == *t,
            (AttrValue::Other(s), AttrValue::Other(t)) => *s == *t,
            _ => false,
        }
    }
}

impl PartialEq for AttrValue {
    fn eq(&self, other: &AttrValue) -> (b: bool) {
        self.same_as(other)
    }
}

impl vstd::std_specs::cmp::PartialEqSpecImpl for AttrValue {
    open spec fn obeys_eq_spec() -> bool {
        true
    }

    open spec fn eq_spec(&self, other: &AttrValue) -> bool {
        self@ == other@
    }
}

/// An attribute: a key and its value.
#[derive(Debug)]
pub struct Attribute {
    pub name: String,
    pub value: AttrValue,
}

impl View for Attribute {
    type V = AttrModel;

    open spec fn view(&self) -> AttrModel {
        AttrModel { name: self.name@, value: self.value@ }
    }
}

impl Clone for Attribute {
    fn clone(&self) -> (r: Self)
        ensures
            r@ == self@,
    {
        Attribute { name: self.name.clone(), value: self.value.clone() }
    }
}

impl PartialEq for Attribute {
    fn eq(&self, other: &Attribute) -> (b: bool) {
        self.name == other.name && self.value.same_as(&other.value)
    }
}

impl vstd::std_specs::cmp::PartialEqSpecImpl for Attribute {
    open spec fn obeys_eq_spec() -> bool {
        true
    }

    open spec fn eq_spec(&self, other: &Attribute) -> bool {
        self@ == other@
    }
}

/// The models of a sequence of attributes.
pub open spec fn attrs_model(v: Seq<Attribute>) -> Seq<AttrModel> {
    Seq::new(v.len(), |i: int| v[i]@)
}

/// One slot of the arena.
struct Node {
    kind: NodeKind,
    id: String,
    attrs: Vec<Attribute>,
    parent: Option<usize>,
    children: Vec<usize>,
}

impl View for Node {
    type V = NodeModel;

    closed spec fn view(&self) -> NodeModel {
        NodeModel {
            kind: self.kind,
            id: self.id@,
            attrs: attrs_model(self.attrs@),
            parent: self.parent,
            children: self.children@,
        }
    }
}

/// A document. A node is addressed by its index, which never changes; node 0
/// is the root. A node that was removed keeps its index and its subtree, but
/// no longer belongs to the tree of the root. The identifier of a node is
/// held apart from its attributes, which are kept in their order under
/// distinct keys; a key is the attribute's name.
pub struct Document {
    nodes: Vec<Node>,
}

impl View for Document {
    type V = DocModel;

    closed spec fn view(&self) -> DocModel {
        DocModel { nodes: Seq::new(self.nodes@.len(), |i: int| self.nodes@[i]@) }
    }
}

impl DocModel {
    /// The document that holds the root and nothing else.
    pub open spec fn only_root() -> DocModel {
        DocModel {
            nodes: seq![
                NodeModel {
                    kind: NodeKind::Root,
                    id: Seq::empty(),
                    attrs: Seq::empty(),
                    parent: None,
                    children: Seq::empty(),
                },
            ],
        }
    }
}

impl Document {
    /// The validity of the document, which every method keeps.
    pub open spec fn wf(&self) -> bool {
        self@.wf()
    }

    /// A document that holds the root and nothing else.
    pub fn new() -> (d: Document)
        ensures
            d.wf(),
            d@ == DocModel::only_root(),
    {
        let mut nodes: Vec<Node> = Vec::new();
        nodes.push(
            Node {
                kind: NodeKind::Root,
                id: String::new(),
                attrs: Vec::new(),
                parent: None,
                children: Vec::new(),
            },
        );
        let d = Document { nodes };
        proof {
            assert(attrs_model(Seq::<Attribute>::empty()) =~= Seq::<AttrModel>::empty());
            assert(d@.nodes =~= DocModel::only_root().nodes);
            let r = Ranking { depth: seq![0nat], bound: 1 };
            assert(d@.ranked(r));
        }
        d
    }

    /// The number of nodes that the arena holds, removed ones included.
    pub fn len(&self) -> (n: usize)
        ensures
            n == self@.nodes.len(),
    {
        self.nodes.len()
    }

    pub fn kind(&self, x: usize) -> (k: NodeKind)
        requires
            self@.has(x),
        ensures
            k == self@.kind(x),
    {
        self.nodes[x].kind
    }

    /// The identifier of `x`; empty where it has none.
    pub fn id(&self, x: usize) -> (s: &String)
        requires
            self@.has(x),
        ensures
            s@ == self@.id(x),
    {
        &self.nodes[x].id
    }

    pub fn parent(&self, x: usize) -> (p: Option<usize>)
        requires
            self@.has(x),
        ensures
            p == self@.parent(x),
    {
        self.nodes[x].parent
    }

    pub fn children(&self, x: usize) -> (cs: &Vec<usize>)
        requires
            self@.has(x),
        ensures
            cs@ == self@.children(x),
    {
        &self.nodes[x].children
    }

    pub fn attributes(&self, x: usize) -> (attrs: &Vec<Attribute>)
        requires
            self@.has(x),
        ensures
            attrs_model(attrs@) == self@.attrs(x),
    {
        &self.nodes[x].attrs
    }

    /// Adds a detached node of the given kind and returns its index.
    pub fn create_node(&mut self, kind: NodeKind) -> (x: usize)
        requires
            old(self).wf(),
            old(self)@.nodes.len() < usize::MAX,
        ensures
            final(self).wf(),
            final(self)@ == old(self)@.with_new(kind),
            x == old(self)@.nodes.len(),
    {
        let x = self.nodes.len();
        self.nodes.push(
            Node { kind, id: String::new(), attrs: Vec::new(), parent: None, children: Vec::new() },
        );
        proof {
            let d = old(self)@;
            let e = self@;
            assert(attrs_model(Seq::<Attribute>::empty()) =~= Seq::<AttrModel>::empty());
            assert(e.nodes =~= d.with_new(kind).nodes);
            lemma_with_new_wf(d, kind);
        }
        x
    }

    /// Cuts `x` from its parent. The subtree of `x` stays whole, outside the
    /// tree of the root. A node without a parent is left as it is.
    pub fn detach(&mut self, x: usize)
        requires
            old(self).wf(),
            old(self)@.has(x),
        ensures
            final(self).wf(),
            final(self)@ == old(self)@.detached(x),
    {
        proof {
            lemma_detached_wf(self@, x);
        }
        match self.nodes[x].parent {
            None => {},
            Some(p) => {
                let ghost d = self@;
                let ghost cs = d.children(p);
                assert(cs.contains(x));
                let n: usize = self.nodes[p].children.len();
                let mut i: usize = 0;
                while self.nodes[p].children[i] != x
                    invariant
                        self@ == d,
                        n == cs.len(),
                        d.has(p),
                        cs == self.nodes@[p as int].children@,
                        0 <= i < cs.len(),
                        cs.contains(x),
                        forall|j: int| 0 <= j < i ==> cs[j] != x,
                    decreases cs.len() - i,
                {
                    i = i + 1;
                    proof {
                        if i == cs.len() {
                            let k = choose|k: int| 0 <= k < cs.len() && cs[k] == x;
                            assert(false);
                        }
                    }
                }
                proof {
                    assert(cs.no_duplicates());
                    assert(cs.index_of(x) == i);
                }
                self.nodes[p].children.remove(i);
                self.nodes[x].parent = None;
                proof {
                    assert(self@.nodes =~= d.detached(x).nodes);
                }
            },
        }
    }

    /// Hangs the loose leaf `x` under `p`, as its last child.
    pub fn append_child(&mut self, p: usize, x: usize)
        requires
            old(self).wf(),
            old(self)@.has(p),
            old(self)@.loose_leaf(x),
            p != x,
        ensures
            final(self).wf(),
            final(self)@ == old(self)@.appended(p, x),
    {
        proof {
            lemma_attach_leaf_wf(self@, p, x, false);
        }
        let ghost d = self@;
        self.nodes[p].children.push(x);
        self.nodes[x].parent = Some(p);
        proof {
            assert(self@.nodes =~= d.appended(p, x).nodes);
        }
    }

    /// Hangs the loose leaf `x` under `p`, as its first child.
    pub fn prepend_child(&mut self, p: usize, x: usize)
        requires
            old(self).wf(),
            old(self)@.has(p),
            old(self)@.loose_leaf(x),
            p != x,
        ensures
            final(self).wf(),
            final(self)@ == old(self)@.prepended(p, x),
    {
        proof {
            lemma_attach_leaf_wf(self@, p, x, true);
        }
        let ghost d = self@;
        self.nodes[p].children.insert(0, x);
        self.nodes[x].parent = Some(p);
        proof {
            assert(self@.nodes[p as int].children =~= seq![x] + d.children(p));
            assert(self@.nodes =~= d.prepended(p, x).nodes);
        }
    }

    /// Cuts `x` from its parent and makes it the last child of `into`, which
    /// is a child of a child of the root. `x` keeps its subtree.
    pub fn move_to_end(&mut self, x: usize, into: usize)
        requires
            old(self).wf(),
            old(self)@.has(into),
            old(self)@.parent(into) is Some,
            old(self)@.chain(old(self)@.parent(into).unwrap(), into),
            old(self)@.movable(old(self)@.parent(into).unwrap(), into, x),
        ensures
            final(self).wf(),
            final(self)@ == old(self)@.moved(x, into),
    {
        let ghost d = self@;
        proof {
            lemma_moved_wf(d, d.parent(into).unwrap(), into, x);
            lemma_detached_wf(d, x);
        }
        self.detach(x);
        let ghost e = self@;
        self.nodes[into].children.push(x);
        self.nodes[x].parent = Some(into);
        proof {
            assert(self@.nodes =~= e.appended(into, x).nodes);
        }
    }

    /// Gives `x` the identifier `id`; the empty text takes its identifier
    /// away.
    pub fn set_id(&mut self, x: usize, id: String)
        requires
            old(self).wf(),
            old(self)@.has(x),
        ensures
            final(self).wf(),
            final(self)@ == old(self)@.with_id(x, id@),
    {
        let ghost d = self@;
        proof {
            lemma_with_id_wf(d, x, id@);
        }
        self.nodes[x].id = id;
        proof {
            assert(self@.nodes =~= d.with_id(x, id@).nodes);
        }
    }

    /// Gives `x` the attributes `attrs` in place of those it has.
    pub fn replace_attributes(&mut self, x: usize, attrs: Vec<Attribute>)
        requires
            old(self).wf(),
            old(self)@.has(x),
            distinct_keys(attrs_model(attrs@)),
        ensures
            final(self).wf(),
            final(self)@ == old(self)@.with_attrs(x, attrs_model(attrs@)),
    {
        let ghost d = self@;
        proof {
            lemma_with_attrs_wf(d, x, attrs_model(attrs@));
        }
        self.nodes[x].attrs = attrs;
        proof {
            assert(self@.nodes =~= d.with_attrs(x, attrs_model(attrs@)).nodes);
        }
    }

    /// Gives `x` the attribute `name` with the value `value`: in the place
    /// of the attribute with that key, or after the last attribute where no
    /// attribute has the key.
    pub fn set_attribute(&mut self, x: usize, name: String, value: AttrValue)
        requires
            old(self).wf(),
            old(self)@.has(x),
        ensures
            final(self).wf(),
            final(self)@ == old(self)@.with_attrs(
                x,
                put(old(self)@.attrs(x), AttrModel { name: name@, value: value@ }),
            ),
    {
        let ghost d = self@;
        let ghost a = AttrModel { name: name@, value: value@ };
        let ghost attrs = d.attrs(x);
        assert(distinct_keys(attrs));
        let n: usize = self.nodes[x].attrs.len();
        let mut i: usize = 0;
        while i < n
            invariant
                self@ == d,
                d.has(x),
                d.wf(),
                d == old(self)@,
                a.name == name@,
                a.value == value@,
                attrs == d.attrs(x),
                distinct_keys(attrs),
                attrs == attrs_model(self.nodes@[x as int].attrs@),
                n == attrs.len(),
                i <= n,
                forall|j: int| 0 <= j < i ==> (#[trigger] attrs[j]).name != name@,
            decreases n - i,
        {
            assert(attrs[i as int] == self.nodes@[x as int].attrs@[i as int]@);
            if self.nodes[x].attrs[i].name == name {
                proof {
                    assert(attrs[i as int].name == name@);
                    assert(has_key(attrs, name@));
                    let c = key_index(attrs, name@);
                    assert(c == i) by {
                        if c < i {
                            assert(attrs[c].name != name@);
                        } else if c > i {
                            assert(attrs[i as int].name != attrs[c].name);
                        }
                    }
                    let next = attrs.update(i as int, a);
                    assert(a.name == name@);
                    assert forall|p: int| 0 <= p < next.len() implies (#[trigger] next[p]).name
                        == attrs[p].name by {
                        if p == i {
                            assert(next[p] == a);
                        } else {
                            assert(next[p] == attrs[p]);
                        }
                    }
                    assert forall|p: int, q: int| 0 <= p < q < next.len() implies (
                    #[trigger] next[p]).name != (#[trigger] next[q]).name by {
                        assert(attrs[p].name != attrs[q].name);
                    }
                    lemma_with_attrs_wf(d, x, next);
                }
                self.nodes[x].attrs.set(i, Attribute { name, value });
                proof {
                    assert(attrs_model(self.nodes@[x as int].attrs@) =~= attrs.update(i as int, a));
                    assert(self@.nodes =~= d.with_attrs(x, put(attrs, a)).nodes);
                }
                return ;
            }
            i = i + 1;
        }
        proof {
            assert(!has_key(attrs, name@));
            let next = attrs.push(a);
            assert forall|p: int, q: int| 0 <= p < q < next.len() implies (#[trigger] next[p]).name
                != (#[trigger] next[q]).name by {
                if q == attrs.len() {
                    assert(next[p] == attrs[p]);
                }
            }
            lemma_with_attrs_wf(d, x, next);
        }
        self.nodes[x].attrs.push(Attribute { name, value });
        proof {
            assert(attrs_model(self.nodes@[x as int].attrs@) =~= attrs.push(a));
            assert(self@.nodes =~= d.with_attrs(x, put(attrs, a)).nodes);
        }
    }
}

/// The place of the attribute of `attrs` with the key `name`.
pub open spec fn key_index(attrs: Seq<AttrModel>, name: Seq<char>) -> int {
    choose|i: int| 0 <= i < attrs.len() && (#[trigger] attrs[i]).name == name
}

/// `attrs` with `a` in the place of the attribute with its key, or after
/// the last attribute where none has the key.
pub open spec fn put(attrs: Seq<AttrModel>, a: AttrModel) -> Seq<AttrModel> {
    if has_key(attrs, a.name) {
        attrs.update(key_index(attrs, a.name), a)
    } else {
        attrs.push(a)
    }
}

} // verus!
