//! `doe` — decoder of everything.
//!
//! Parses binary data according to a declarative schema and renders the
//! result.  This crate holds the verified core: the byte cursor, the schema
//! compiler, the expression language, the parse engine and the renderers.

pub mod config;
pub mod error;
pub mod parser;
pub mod render;
pub mod schema;
pub mod strutil;
pub mod value;

use vstd::prelude::*;
use crate::render::json::{json_of, to_json, Json};
use crate::render::text::{pieces_view, render_with_indent, value_text, TextPiece};
use crate::strutil::chars_of;
pub use crate::config::{discover_types, AvailableType, DuplicateTypeError};
pub use crate::error::DoeError;
pub use crate::value::Value;

verus! {

/// Does `s` start with the character `c`?
pub open spec fn spec_starts_with_char(s: Seq<char>, c: char) -> bool {
    s.len() > 0 && s[0] == c
}

/// Does `s` end with the character sequence `suffix`?
pub open spec fn spec_ends_with(s: Seq<char>, suffix: Seq<char>) -> bool {
    suffix.len() <= s.len() && s.subrange(s.len() - suffix.len(), s.len() as int) == suffix
}

/// The path heuristic: a leading `.`, `/` or `~`, or a `.yaml` / `.yml`
/// extension, marks a schema file rather than a bare type name.
pub open spec fn spec_is_schema_path(s: Seq<char>) -> bool {
    spec_starts_with_char(s, '.') || spec_starts_with_char(s, '/') || spec_starts_with_char(s, '~')
        || spec_ends_with(s, seq!['.', 'y', 'a', 'm', 'l'])
        || spec_ends_with(s, seq!['.', 'y', 'm', 'l'])
}

/// Returns `true` if `s` looks like a file-system path to a schema rather
/// than a bare type name.
pub fn is_schema_path(s: &str) -> (res: bool)
    ensures
        res == spec_is_schema_path(s@),
{
    let cs = chars_of(s);
    let yaml = ['.', 'y', 'a', 'm', 'l'];
    let yml = ['.', 'y', 'm', 'l'];
    assert(yaml@ == seq!['.', 'y', 'a', 'm', 'l']);
    assert(yml@ == seq!['.', 'y', 'm', 'l']);
    (cs.len() > 0 && (cs[0] == '.' || cs[0] == '/' || cs[0] == '~'))
        || strutil::ends_with(&cs, &yaml)
        || strutil::ends_with(&cs, &yml)
}

/// The output format of a rendering.
#[derive(Debug)]
pub enum OutputFormat {
    /// Indented human-readable text; each level of nesting is indented by
    /// one copy of `indent` (two spaces by convention).
    Text {
        /// The string prepended once per nesting level.
        indent: String,
    },
    /// Compact single-line JSON.
    Json,
    /// Pretty-printed JSON.
    JsonPretty,
}

/// The format the command-line flags select: `--pretty` wins over
/// `--json`, and text with the given indent is the default.
pub fn select_format(pretty: bool, json: bool, indent: String) -> (res: OutputFormat)
    ensures
        pretty ==> res is JsonPretty,
        !pretty && json ==> res is Json,
        !pretty && !json ==> (res matches OutputFormat::Text { indent: i } && i@ == indent@),
{
    if pretty {
        OutputFormat::JsonPretty
    } else if json {
        OutputFormat::Json
    } else {
        OutputFormat::Text { indent }
    }
}

/// A rendered value, ready to be written out.
#[derive(Debug)]
pub enum Rendered {
    /// Text, with floating-point numbers still to be written.
    Text(Vec<TextPiece>),
    /// A JSON document, to be serialised compactly or pretty-printed.
    Json { doc: Json, pretty: bool },
}

/// Render a parsed value in the given format.
pub fn render_value(value: &Value, format: &OutputFormat) -> (res: Rendered)
    ensures
        match *format {
            OutputFormat::Text { indent } => res matches Rendered::Text(p) && pieces_view(p@) == value_text(
                *value,
                Seq::empty(),
                indent@,
                None,
            ),
            OutputFormat::Json => res matches Rendered::Json { doc, pretty } && !pretty && json_of(doc, *value),
            OutputFormat::JsonPretty => res matches Rendered::Json { doc, pretty } && pretty && json_of(
                doc,
                *value,
            ),
        },
{
    match format {
        OutputFormat::Text { indent } => Rendered::Text(render_with_indent(value, indent.as_str())),
        OutputFormat::Json => Rendered::Json { doc: to_json(value), pretty: false },
        OutputFormat::JsonPretty => Rendered::Json { doc: to_json(value), pretty: true },
    }
}

} // verus!
