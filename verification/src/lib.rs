//! Structural normalization passes for vector-graphics document trees.
//!
//! A [`Document`] is an arena of nodes addressed by stable indices. Three
//! passes work on it: [`preclean_checks`] rejects documents outside the
//! supported static profile, [`group_defs`] gathers every referenced subtree
//! in one definitions container, and [`remove_invalid_stops`] drops gradient
//! stops that repeat the stop retained before them.
//!
//! Every function is verified against a contract over the model of a
//! document, a sequence of nodes with their parents and ordered children.
//! What holds of the passes on every document is proved beside them: the
//! consolidation pass leaves one definitions container, leaves every
//! referenced node in it, overwrites no attribute and changes nothing when
//! it runs again; the deduplicator leaves no stop that repeats the stop
//! before it.
//!
//! Which attribute keys are inheritable and which are event handlers is the
//! knowledge of the `svgdom` crate; its answers are taken on trust.

pub mod kinds;
pub mod model;
pub mod edit;
pub mod document;
pub mod order;
pub mod shape;
pub mod refs;
pub mod keys;
pub mod attrs;
pub mod resolve;
pub mod frames;
pub mod group_defs;
pub mod steps;
pub mod folds;
pub mod seqs;
pub mod laws;
pub mod preclean_checks;
pub mod rm_invalid_stops;

pub use crate::document::{AttrValue, Attribute, Document};
pub use crate::group_defs::group_defs;
pub use crate::kinds::{ElementKind, NodeKind};
pub use crate::preclean_checks::{preclean_checks, Error};
pub use crate::rm_invalid_stops::remove_invalid_stops;
