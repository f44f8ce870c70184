//! What the format says of an attribute key. The tables are those of the
//! `svgdom` crate, which is asked by the key's name; Verus takes the answers
//! on trust.

use vstd::prelude::*;
use svgdom::{AttributeId, AttributeType};

verus! {

/// Whether the attribute with this name is an inheritable presentation
/// attribute.
pub uninterp spec fn inheritable_key(name: Seq<char>) -> bool;

/// Whether the attribute with this name is a graphical event attribute.
pub uninterp spec fn graphical_event_key(name: Seq<char>) -> bool;

/// Whether the attribute with this name is a document event attribute.
pub uninterp spec fn document_event_key(name: Seq<char>) -> bool;

/// Whether the attribute with this name is an animation event attribute.
pub uninterp spec fn animation_event_key(name: Seq<char>) -> bool;

/// Whether the attribute with this name is an event handler of any sort.
pub open spec fn event_key(name: Seq<char>) -> bool {
    graphical_event_key(name) || document_event_key(name) || animation_event_key(name)
}

/// Calls `AttributeType::is_inheritable` of `svgdom` on the attribute that
/// `AttributeId::from_str` finds for the name; a name that it does not know
/// is of no type. Trusted: the answer depends on the name alone.
#[verifier::external_body]
pub(crate) fn is_inheritable_key(name: &str) -> (b: bool)
    ensures
        b == inheritable_key(name@),
{
    match AttributeId::from_str(name) {
        Some(id) => id.is_inheritable(),
        None => false,
    }
}

/// Calls `AttributeType::is_graphical_event` of `svgdom` on the attribute
/// that `AttributeId::from_str` finds for the name; a name that it does not
/// know is of no type. Trusted: the answer depends on the name alone.
#[verifier::external_body]
pub(crate) fn is_graphical_event_key(name: &str) -> (b: bool)
    ensures
        b == graphical_event_key(name@),
{
    match AttributeId::from_str(name) {
        Some(id) => id.is_graphical_event(),
        None => false,
    }
}

/// Calls `AttributeType::is_document_event` of `svgdom` on the attribute
/// that `AttributeId::from_str` finds for the name; a name that it does not
/// know is of no type. Trusted: the answer depends on the name alone.
#[verifier::external_body]
pub(crate) fn is_document_event_key(name: &str) -> (b: bool)
    ensures
        b == document_event_key(name@),
{
    match AttributeId::from_str(name) {
        Some(id) => id.is_document_event(),
        None => false,
    }
}

/// Calls `AttributeType::is_animation_event` of `svgdom` on the attribute
/// that `AttributeId::from_str` finds for the name; a name that it does not
/// know is of no type. Trusted: the answer depends on the name alone.
#[verifier::external_body]
pub(crate) fn is_animation_event_key(name: &str) -> (b: bool)
    ensures
        b == animation_event_key(name@),
{
    match AttributeId::from_str(name) {
        Some(id) => id.is_animation_event(),
        None => false,
    }
}

/// Whether the attribute with this name is an event handler of any sort.
pub fn is_event_key(name: &str) -> (b: bool)
    ensures
        b == event_key(name@),
{
    is_graphical_event_key(name) || is_document_event_key(name) || is_animation_event_key(name)
}

} // verus!
