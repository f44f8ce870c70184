//! The feature-support validator: a document that uses scripting,
//! animation, conditional processing or references to outside resources is
//! refused before anything cleans it.

use vstd::prelude::*;
use crate::attrs::find_value;
use crate::document::{AttrValue, Attribute, Document, attrs_model};
use crate::keys::{event_key, is_event_key};
use crate::kinds::{ElementKind, NodeKind};
use crate::model::{AttrModel, DocModel, ValueModel, value_of};

verus! {

/// Why a document is refused.
#[derive(Debug)]
pub enum Error {
    ScriptingIsNotSupported,
    AnimationIsNotSupported,
    ConditionalProcessingIsNotSupported,
    /// A reference to an outside resource; holds the reference.
    ExternalHrefIsNotSupported(String),
}

/// Why a document is refused, on the model.
pub enum Violation {
    Scripting,
    Animation,
    ConditionalProcessing,
    ExternalHref(Seq<char>),
}

impl View for Error {
    type V = Violation;

    open spec fn view(&self) -> Violation {
        match self {
            Error::ScriptingIsNotSupported => Violation::Scripting,
            Error::AnimationIsNotSupported => Violation::Animation,
            Error::ConditionalProcessingIsNotSupported => Violation::ConditionalProcessing,
            Error::ExternalHrefIsNotSupported(s) => Violation::ExternalHref(s@),
        }
    }
}

impl PartialEq for Error {
    fn eq(&self, other: &Error) -> (b: bool) {
        match (self, other) {
            (Error::ScriptingIsNotSupported, Error::ScriptingIsNotSupported) => true,
            (Error::AnimationIsNotSupported, Error::AnimationIsNotSupported) => true,
            (
                Error::ConditionalProcessingIsNotSupported,
                Error::ConditionalProcessingIsNotSupported,
            ) => true,
            (Error::ExternalHrefIsNotSupported(s), Error::ExternalHrefIsNotSupported(t)) => *s
                == *t,
            _ => false,
        }
    }
}

impl vstd::std_specs::cmp::PartialEqSpecImpl for Error {
    open spec fn obeys_eq_spec() -> bool {
        true
    }

    open spec fn eq_spec(&self, other: &Error) -> bool {
        self@ == other@
    }
}

impl ValueModel {
    /// The text that the value holds.
    pub open spec fn text(self) -> Seq<char> {
        match self {
            ValueModel::Text(s) => s,
            ValueModel::Number(s) => s,
            ValueModel::Link(s) => s,
            ValueModel::FuncLink(s) => s,
            ValueModel::Other(s) => s,
        }
    }
}

impl AttrValue {
    /// The text that the value holds.
    pub fn text(&self) -> (s: &String)
        ensures
            s@ == self@.text(),
    {
        match self {
            AttrValue::Text(s) => s,
            AttrValue::Number(s) => s,
            AttrValue::Link(s) => s,
            AttrValue::FuncLink(s) => s,
            AttrValue::Other(s) => s,
        }
    }
}

/// The key of the attribute that names the features a viewer must have.
pub open spec fn required_features() -> Seq<char> {
    "requiredFeatures"@
}

/// The key of the attribute that names the languages a viewer must have.
pub open spec fn system_language() -> Seq<char> {
    "systemLanguage"@
}

/// The key of the attribute that refers to another resource.
pub open spec fn href() -> Seq<char> {
    "xlink:href"@
}

/// Whether some attribute of `attrs` has the key of an event handler.
pub open spec fn has_event_key(attrs: Seq<AttrModel>) -> bool {
    exists|i: int| 0 <= i < attrs.len() && event_key((#[trigger] attrs[i]).name)
}

/// Whether `attrs` gives the key `name` a value that is not empty.
pub open spec fn has_text(attrs: Seq<AttrModel>, name: Seq<char>) -> bool {
    match value_of(attrs, name) {
        Some(v) => v.text().len() > 0,
        None => false,
    }
}

impl DocModel {
    /// Whether `x` is an element in the tree of the root.
    pub open spec fn element(self, x: usize) -> bool {
        self.attached(x) && self.kind(x).is_element()
    }

    pub open spec fn is_scripting(self, x: usize) -> bool {
        self.kind(x).is(ElementKind::Script)
    }

    pub open spec fn is_animation(self, x: usize) -> bool {
        match self.kind(x) {
            NodeKind::Element(k) => k.is_animation(),
            _ => false,
        }
    }

    pub open spec fn has_event(self, x: usize) -> bool {
        self.kind(x).is_element() && has_event_key(self.attrs(x))
    }

    /// Whether `x` is an element that sets a condition: a value that is not
    /// empty for one of the two conditional-processing keys.
    pub open spec fn has_condition(self, x: usize) -> bool {
        self.kind(x).is_element() && (has_text(self.attrs(x), required_features()) || has_text(
            self.attrs(x),
            system_language(),
        ))
    }

    /// The reference of `x` to an outside resource: the literal string that
    /// is the value of its reference attribute, unless `x` is of a kind on
    /// which such a reference is legitimate.
    pub open spec fn outside_link(self, x: usize) -> Option<Seq<char>> {
        match self.kind(x) {
            NodeKind::Element(k) => if k.may_link_outside() {
                None
            } else {
                match value_of(self.attrs(x), href()) {
                    Some(ValueModel::Text(s)) => Some(s),
                    _ => None,
                }
            },
            _ => None,
        }
    }

    /// The first reference to an outside resource among `order`.
    pub open spec fn first_outside_link(self, order: Seq<usize>) -> Option<Seq<char>>
        decreases order.len(),
    {
        if order.len() == 0 {
            None
        } else {
            match self.outside_link(order[0]) {
                Some(s) => Some(s),
                None => self.first_outside_link(order.drop_first()),
            }
        }
    }

    /// What the document is refused for, if anything: the first in this
    /// order of a scripting element anywhere, an animation element
    /// anywhere, an event attribute on any element, a condition on any
    /// element, and the first reference to an outside resource in document
    /// order.
    pub open spec fn violation(self) -> Option<Violation> {
        if exists|x: usize| self.attached(x) && #[trigger] self.is_scripting(x) {
            Some(Violation::Scripting)
        } else if exists|x: usize| self.attached(x) && #[trigger] self.is_animation(x) {
            Some(Violation::Animation)
        } else if exists|x: usize| self.attached(x) && #[trigger] self.has_event(x) {
            Some(Violation::Scripting)
        } else if exists|x: usize| self.attached(x) && #[trigger] self.has_condition(x) {
            Some(Violation::ConditionalProcessing)
        } else {
            match self.first_outside_link(self.descendants()) {
                Some(s) => Some(Violation::ExternalHref(s)),
                None => None,
            }
        }
    }
}

/// Whether some attribute of `attrs` has the key of an event handler.
fn any_event_key(attrs: &Vec<Attribute>) -> (b: bool)
    ensures
        b == has_event_key(attrs_model(attrs@)),
{
    let n: usize = attrs.len();
    let mut i: usize = 0;
    while i < n
        invariant
            n == attrs@.len(),
            i <= n,
            forall|j: int| 0 <= j < i ==> !event_key((#[trigger] attrs_model(attrs@)[j]).name),
        decreases n - i,
    {
        proof {
            assert(attrs_model(attrs@)[i as int] == attrs@[i as int]@);
        }
        if is_event_key(attrs[i].name.as_str()) {
            return true;
        }
        i = i + 1;
    }
    false
}

/// Whether `attrs` gives the key `name` a value that is not empty.
fn has_text_for(attrs: &Vec<Attribute>, name: &String) -> (b: bool)
    ensures
        b == has_text(attrs_model(attrs@), name@),
{
    match find_value(attrs, name) {
        Some(v) => !v.text().as_str().is_empty(),
        None => false,
    }
}

impl Document {
    fn check_for_unsupported_elements(&self, order: &Vec<usize>) -> (r: Result<(), Error>)
        requires
            self.wf(),
            forall|y: usize| order@.contains(y) <==> self@.attached(y),
        ensures
            match r {
                Ok(_) => !(exists|x: usize| self@.attached(x) && #[trigger] self@.is_scripting(x))
                    && !(exists|x: usize| self@.attached(x) && #[trigger] self@.is_animation(x)),
                Err(e) => if exists|x: usize| self@.attached(x) && #[trigger] self@.is_scripting(x) {
                    e@ == Violation::Scripting
                } else {
                    e@ == Violation::Animation && exists|x: usize|
                        self@.attached(x) && #[trigger] self@.is_animation(x)
                },
            },
    {
        let ghost d = self@;
        let n: usize = order.len();
        let mut k: usize = 0;
        while k < n
            invariant
                self@ == d,
                n == order@.len(),
                k <= n,
                forall|y: usize| order@.contains(y) <==> d.attached(y),
                forall|j: int| 0 <= j < k ==> !d.is_scripting(#[trigger] order@[j]),
            decreases n - k,
        {
            let x = order[k];
            assert(order@.contains(x));
            assert(d.attached(x));
            if self.kind(x).is(ElementKind::Script) {
                assert(d.attached(x) && d.is_scripting(x));
                return Err(Error::ScriptingIsNotSupported);
            }
            k = k + 1;
        }
        proof {
            assert forall|x: usize| d.attached(x) implies !#[trigger] d.is_scripting(x) by {
                assert(order@.contains(x));
                let j = choose|j: int| 0 <= j < order@.len() && order@[j] == x;
                assert(!d.is_scripting(order@[j]));
            }
        }
        let mut k: usize = 0;
        while k < n
            invariant
                self@ == d,
                n == order@.len(),
                k <= n,
                forall|y: usize| order@.contains(y) <==> d.attached(y),
                forall|x: usize| d.attached(x) ==> !#[trigger] d.is_scripting(x),
                forall|j: int| 0 <= j < k ==> !d.is_animation(#[trigger] order@[j]),
            decreases n - k,
        {
            let x = order[k];
            assert(order@.contains(x));
            assert(d.attached(x));
            let animated = match self.kind(x) {
                NodeKind::Element(kind) => kind.is_animation(),
                _ => false,
            };
            if animated {
                assert(d.attached(x) && d.is_animation(x));
                return Err(Error::AnimationIsNotSupported);
            }
            k = k + 1;
        }
        proof {
            assert forall|x: usize| d.attached(x) implies !#[trigger] d.is_animation(x) by {
                assert(order@.contains(x));
                let j = choose|j: int| 0 <= j < order@.len() && order@[j] == x;
                assert(!d.is_animation(order@[j]));
            }
        }
        Ok(())
    }

    fn check_for_script_attributes(&self, order: &Vec<usize>) -> (r: Result<(), Error>)
        requires
            self.wf(),
            forall|y: usize| order@.contains(y) <==> self@.attached(y),
        ensures
            r is Ok <==> !(exists|x: usize| self@.attached(x) && #[trigger] self@.has_event(x)),
            r is Err ==> r->Err_0@ == Violation::Scripting,
    {
        let ghost d = self@;
        let n: usize = order.len();
        let mut k: usize = 0;
        while k < n
            invariant
                self@ == d,
                n == order@.len(),
                k <= n,
                forall|y: usize| order@.contains(y) <==> d.attached(y),
                forall|j: int| 0 <= j < k ==> !d.has_event(#[trigger] order@[j]),
            decreases n - k,
        {
            let x = order[k];
            assert(order@.contains(x));
            assert(d.attached(x));
            if self.kind(x).is_element() && any_event_key(self.attributes(x)) {
                assert(d.attached(x) && d.has_event(x));
                return Err(Error::ScriptingIsNotSupported);
            }
            k = k + 1;
        }
        proof {
            assert forall|x: usize| d.attached(x) implies !#[trigger] d.has_event(x) by {
                assert(order@.contains(x));
                let j = choose|j: int| 0 <= j < order@.len() && order@[j] == x;
                assert(!d.has_event(order@[j]));
            }
        }
        Ok(())
    }

    fn check_for_conditional_attributes(&self, order: &Vec<usize>) -> (r: Result<(), Error>)
        requires
            self.wf(),
            forall|y: usize| order@.contains(y) <==> self@.attached(y),
        ensures
            r is Ok <==> !(exists|x: usize| self@.attached(x) && #[trigger] self@.has_condition(x)),
            r is Err ==> r->Err_0@ == Violation::ConditionalProcessing,
    {
        let ghost d = self@;
        let features = "requiredFeatures".to_owned();
        let language = "systemLanguage".to_owned();
        let n: usize = order.len();
        let mut k: usize = 0;
        while k < n
            invariant
                self@ == d,
                n == order@.len(),
                k <= n,
                features@ == required_features(),
                language@ == system_language(),
                forall|y: usize| order@.contains(y) <==> d.attached(y),
                forall|j: int| 0 <= j < k ==> !d.has_condition(#[trigger] order@[j]),
            decreases n - k,
        {
            let x = order[k];
            assert(order@.contains(x));
            assert(d.attached(x));
            if self.kind(x).is_element() {
                let attrs = self.attributes(x);
                if has_text_for(attrs, &features) || has_text_for(attrs, &language) {
                    assert(d.attached(x) && d.has_condition(x));
                    return Err(Error::ConditionalProcessingIsNotSupported);
                }
            }
            k = k + 1;
        }
        proof {
            assert forall|x: usize| d.attached(x) implies !#[trigger] d.has_condition(x) by {
                assert(order@.contains(x));
                let j = choose|j: int| 0 <= j < order@.len() && order@[j] == x;
                assert(!d.has_condition(order@[j]));
            }
        }
        Ok(())
    }

    fn check_for_external_xlink(&self, order: &Vec<usize>) -> (r: Result<(), Error>)
        requires
            self.wf(),
            forall|i: int| 0 <= i < order@.len() ==> self@.has(#[trigger] order@[i]),
        ensures
            match r {
                Ok(_) => self@.first_outside_link(order@) is None,
                Err(e) => match self@.first_outside_link(order@) {
                    Some(s) => e@ == Violation::ExternalHref(s),
                    None => false,
                },
            },
    {
        let ghost d = self@;
        let key = "xlink:href".to_owned();
        let n: usize = order.len();
        let mut k: usize = 0;
        proof {
            assert(order@.skip(0) =~= order@);
        }
        while k < n
            invariant
                self@ == d,
                n == order@.len(),
                k <= n,
                key@ == href(),
                forall|i: int| 0 <= i < order@.len() ==> d.has(#[trigger] order@[i]),
                d.first_outside_link(order@) == d.first_outside_link(order@.skip(k as int)),
            decreases n - k,
        {
            let x = order[k];
            proof {
                assert(d.has(order@[k as int]));
                assert(order@.skip(k as int)[0] == x);
                assert(order@.skip(k as int).drop_first() =~= order@.skip(k + 1));
            }
            match self.kind(x) {
                NodeKind::Element(kind) => {
                    if !kind.may_link_outside() {
                        match find_value(self.attributes(x), &key) {
                            Some(AttrValue::Text(s)) => {
                                return Err(Error::ExternalHrefIsNotSupported(s.clone()));
                            },
                            _ => {},
                        }
                    }
                },
                _ => {},
            }
            k = k + 1;
        }
        Ok(())
    }
}

/// Checks that the document keeps to the supported profile. The checks run
/// in a fixed order, each over the whole document, and the first that finds
/// something decides: a scripting element, an animation element, an event
/// attribute on an element, a conditional-processing attribute with a value
/// that is not empty, a reference to an outside resource.
pub fn preclean_checks(doc: &Document) -> (r: Result<(), Error>)
    requires
        doc.wf(),
    ensures
        match r {
            Ok(_) => doc@.violation() is None,
            Err(e) => doc@.violation() == Some(e@),
        },
{
    let order = doc.descendants();
    match doc.check_for_unsupported_elements(&order) {
        Err(e) => {
            return Err(e);
        },
        Ok(_) => {},
    }
    match doc.check_for_script_attributes(&order) {
        Err(e) => {
            return Err(e);
        },
        Ok(_) => {},
    }
    match doc.check_for_conditional_attributes(&order) {
        Err(e) => {
            return Err(e);
        },
        Ok(_) => {},
    }
    proof {
        assert forall|i: int| 0 <= i < order@.len() implies doc@.has(#[trigger] order@[i]) by {
            assert(order@.contains(order@[i]));
            assert(doc@.attached(order@[i]));
        }
    }
    doc.check_for_external_xlink(&order)
}

/// Scripting comes first: a document with a scripting element in the tree
/// of the root is refused for scripting, whatever else it holds, a
/// condition included.
pub proof fn law_scripting_first(d: DocModel, x: usize)
    requires
        d.attached(x),
        d.is_scripting(x),
    ensures
        d.violation() == Some(Violation::Scripting),
{
}

/// An empty condition is none: a document is refused for conditional
/// processing only where an element gives one of the two keys a value that
/// is not empty, and a document with such an element is refused.
pub proof fn law_empty_condition(d: DocModel)
    ensures
        d.violation() == Some(Violation::ConditionalProcessing) ==> exists|x: usize|
            d.attached(x) && #[trigger] d.has_condition(x),
        (exists|x: usize| d.attached(x) && #[trigger] d.has_condition(x)) ==> d.violation() is Some
            && !(d.violation() matches Some(Violation::ExternalHref(_))),
        forall|attrs: Seq<AttrModel>, name: Seq<char>|
            value_of(attrs, name) == Some(ValueModel::Text(Seq::empty())) ==> !#[trigger] has_text(
                attrs,
                name,
            ),
{
}

} // verus!
