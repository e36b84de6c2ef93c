//! Binary parse engine and supporting types.
//!
//! - [`cursor`] — a position-tracking view over an immutable byte buffer
//!   with typed read methods for every integer width.
//! - [`context`] — the runtime parse context: a stack of scopes binding
//!   field names to parsed values.
//! - [`engine`] — walks the compiled schema field by field and builds the
//!   value tree.

pub mod context;
pub mod cursor;
pub mod engine;
pub mod semantics;
