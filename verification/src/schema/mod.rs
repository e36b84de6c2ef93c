//! Schema compilation and the compiled intermediate representation.
//!
//! - [`raw`] — plain mirrors of the schema file structure.
//! - [`compiler`] — validates, resolves cross-references, pre-parses
//!   expressions, and builds the [`ir::TypeRegistry`].
//! - [`ir`] — the compiled, fully-resolved representation consumed by the
//!   parser.
//! - [`lexer`] and [`expr`] — the expression language used in `size:`,
//!   `repeat-expr:`, `repeat-until:` and `if:` fields.

pub mod compiler;
pub mod expr;
pub mod ir;
pub mod lexer;
pub mod raw;
