//! Output renderers for parsed [`crate::value::Value`] trees.
//!
//! - [`text`] — indented, human-readable text.
//! - [`json`] — a JSON document tree.
//!
//! Floating-point values are carried through both renderers as their bit
//! patterns; writing them as decimal numbers is done by the program around
//! the library.


pub mod json;
pub mod text;
