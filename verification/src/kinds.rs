//! The closed sets of node and element kinds that the passes tell apart.

use vstd::prelude::*;

verus! {

/// The kind of an element, as far as the passes tell elements apart.
#[derive(Clone, Copy, PartialEq, Eq, Structural, Debug)]
pub enum ElementKind {
    /// The root graphics container.
    Svg,
    /// A definitions container.
    Defs,
    /// A masking element.
    Mask,
    ClipPath,
    Marker,
    Pattern,
    Symbol,
    /// The scripting element.
    Script,
    Animate,
    /// The animation element that sets an attribute for a duration.
    AnimateSet,
    AnimateMotion,
    AnimateColor,
    AnimateTransform,
    /// A hyperlink.
    A,
    Image,
    FontFaceUri,
    FeImage,
    LinearGradient,
    RadialGradient,
    /// Any other element, known or unknown.
    Other,
}

/// The kind of a node of the tree.
#[derive(Clone, Copy, PartialEq, Eq, Structural, Debug)]
pub enum NodeKind {
    /// The structural root of a document; it is no element.
    Root,
    Element(ElementKind),
    Comment,
    Text,
}

impl ElementKind {
    /// Elements whose children lose inherited presentation state when the
    /// element moves: clip paths, markers, masks, patterns and symbols.
    pub open spec fn spec_is_inheritance_sensitive(self) -> bool {
        self == ElementKind::ClipPath || self == ElementKind::Marker || self == ElementKind::Mask
            || self == ElementKind::Pattern || self == ElementKind::Symbol
    }

    #[verifier::when_used_as_spec(spec_is_inheritance_sensitive)]
    pub fn is_inheritance_sensitive(self) -> (b: bool)
        ensures
            b == self.spec_is_inheritance_sensitive(),
    {
        matches!(
            self,
            ElementKind::ClipPath | ElementKind::Marker | ElementKind::Mask | ElementKind::Pattern
                | ElementKind::Symbol
        )
    }

    /// The animation elements.
    pub open spec fn spec_is_animation(self) -> bool {
        self == ElementKind::Animate || self == ElementKind::AnimateSet || self
            == ElementKind::AnimateMotion || self == ElementKind::AnimateColor || self
            == ElementKind::AnimateTransform
    }

    #[verifier::when_used_as_spec(spec_is_animation)]
    pub fn is_animation(self) -> (b: bool)
        ensures
            b == self.spec_is_animation(),
    {
        matches!(
            self,
            ElementKind::Animate | ElementKind::AnimateSet | ElementKind::AnimateMotion
                | ElementKind::AnimateColor | ElementKind::AnimateTransform
        )
    }

    /// The gradient elements.
    pub open spec fn spec_is_gradient(self) -> bool {
        self == ElementKind::LinearGradient || self == ElementKind::RadialGradient
    }

    #[verifier::when_used_as_spec(spec_is_gradient)]
    pub fn is_gradient(self) -> (b: bool)
        ensures
            b == self.spec_is_gradient(),
    {
        matches!(self, ElementKind::LinearGradient | ElementKind::RadialGradient)
    }

    /// The elements on which a reference to an outside resource is legitimate:
    /// hyperlinks, images, font-face URIs and filter images.
    pub open spec fn spec_may_link_outside(self) -> bool {
        self == ElementKind::A || self == ElementKind::Image || self == ElementKind::FontFaceUri
            || self == ElementKind::FeImage
    }

    #[verifier::when_used_as_spec(spec_may_link_outside)]
    pub fn may_link_outside(self) -> (b: bool)
        ensures
            b == self.spec_may_link_outside(),
    {
        matches!(
            self,
            ElementKind::A | ElementKind::Image | ElementKind::FontFaceUri | ElementKind::FeImage
        )
    }
}

impl NodeKind {
    pub open spec fn spec_is_element(self) -> bool {
        self is Element
    }

    #[verifier::when_used_as_spec(spec_is_element)]
    pub fn is_element(self) -> (b: bool)
        ensures
            b == self.spec_is_element(),
    {
        matches!(self, NodeKind::Element(_))
    }

    /// Whether this is an element of the given kind.
    pub open spec fn spec_is(self, kind: ElementKind) -> bool {
        self == NodeKind::Element(kind)
    }

    #[verifier::when_used_as_spec(spec_is)]
    pub fn is(self, kind: ElementKind) -> (b: bool)
        ensures
            b == self.spec_is(kind),
    {
        match self {
            NodeKind::Element(k) => k == kind,
            _ => false,
        }
    }
}

} // verus!
