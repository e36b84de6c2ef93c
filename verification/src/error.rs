//! Error type of the verified core.
//!
//! Every fallible operation of the library reports a [`DoeError`].  File
//! system and YAML failures happen outside the core and are reported by the
//! program around it; the variants here cover schema resolution, expression
//! syntax and evaluation, IR compilation and binary parsing.

use vstd::prelude::*;
use crate::strutil::{debug_quoted, push_debug_str, push_str};

verus! {

/// The unified error type for the operations of the verified core.
#[derive(Debug)]
pub enum DoeError {
    /// A bare type name could not be found on any include path.
    SchemaNotFound {
        /// The type name that was being looked up.
        name: String,
        /// Every candidate path that was searched.
        searched: Vec<String>,
    },
    /// A schema's `imports:` list creates a dependency cycle; the chain of
    /// ids leading back to the repeated id, which stands at both ends.
    ImportCycle { cycle: Vec<String> },
    /// The same type name is defined in two separate schema files.
    DuplicateType { name: String, first: String, second: String },
    /// An expression string could not be parsed.
    ExprParse { expr: String, message: String },
    /// A syntactically valid expression failed at evaluation time.
    ExprEval { expr: String, message: String },
    /// A field's `type:` names neither a primitive nor a known type.
    UnknownType { ty_name: String, context: String },
    /// A field definition is invalid.
    FieldError { field: String, context: String, message: String },
    /// A field's `enum:` names an enum that is not defined.
    UnknownEnum { enum_name: String, context: String },
    /// Any other failure, e.g. a buffer overrun during binary parsing.
    Schema(String),
}

/// `items` joined by `", "`, each in its debug rendering.
pub open spec fn debug_items(items: Seq<Seq<char>>) -> Seq<char>
    decreases items.len(),
{
    if items.len() == 0 {
        Seq::empty()
    } else if items.len() == 1 {
        debug_quoted(items[0])
    } else {
        debug_items(items.drop_last()) + ", "@ + debug_quoted(items.last())
    }
}

/// The debug rendering of a list of strings: `["a", "b"]`.
pub open spec fn debug_list(items: Seq<Seq<char>>) -> Seq<char> {
    "["@ + debug_items(items) + "]"@
}

/// The views of a vector of strings.
pub open spec fn string_views(v: Seq<String>) -> Seq<Seq<char>> {
    v.map_values(|s: String| s@)
}

/// Appends the debug rendering of `items` to `s`.
pub fn push_debug_list(s: &mut String, items: &Vec<String>)
    ensures
        final(s)@ == old(s)@ + debug_list(string_views(items@)),
{
    push_str(s, "[");
    let ghost start = s@;
    let mut i: usize = 0;
    while i < items.len()
        invariant
            i <= items@.len(),
            s@ == start + debug_items(string_views(items@.subrange(0, i as int))),
        decreases items@.len() - i,
    {
        let ghost before = s@;
        if i > 0 {
            push_str(s, ", ");
        }
        push_debug_str(s, items[i].as_str());
        proof {
            let pre = string_views(items@.subrange(0, i as int));
            let post = string_views(items@.subrange(0, i + 1));
            assert(post.drop_last() =~= pre);
            assert(post.last() == items@[i as int]@);
            if i == 0 {
                assert(post.len() == 1);
            }
        }
        i = i + 1;
        proof {
            assert(s@ =~= start + debug_items(string_views(items@.subrange(0, i as int))));
        }
    }
    assert(items@.subrange(0, items@.len() as int) =~= items@);
    push_str(s, "]");
    assert(s@ =~= old(s)@ + debug_list(string_views(items@)));
}

impl DoeError {
    /// The human-readable message of the error.
    pub open spec fn spec_message(&self) -> Seq<char> {
        match self {
            DoeError::SchemaNotFound { name, searched } => "schema not found: '"@ + name@
                + "' (searched: "@ + debug_list(string_views(searched@)) + ")"@,
            DoeError::ImportCycle { cycle } => "import cycle detected: "@ + debug_list(
                string_views(cycle@),
            ),
            DoeError::DuplicateType { name, first, second } => "duplicate type name '"@ + name@
                + "' defined in "@ + first@ + " and "@ + second@,
            DoeError::ExprParse { expr, message } => "expression parse error in '"@ + expr@
                + "': "@ + message@,
            DoeError::ExprEval { expr, message } => "expression eval error in '"@ + expr@ + "': "@
                + message@,
            DoeError::UnknownType { ty_name, context } => "unknown type '"@ + ty_name@
                + "' referenced in "@ + context@,
            DoeError::FieldError { field, context, message } => "field '"@ + field@ + "' in "@
                + context@ + ": "@ + message@,
            DoeError::UnknownEnum { enum_name, context } => "unknown enum '"@ + enum_name@
                + "' referenced in "@ + context@,
            DoeError::Schema(m) => m@,
        }
    }

    /// The human-readable message of the error, as the program prints it.
    pub fn message(&self) -> (res: String)
        ensures
            res@ == self.spec_message(),
    {
        let mut s = String::new();
        match self {
            DoeError::SchemaNotFound { name, searched } => {
                push_str(&mut s, "schema not found: '");
                push_str(&mut s, name.as_str());
                push_str(&mut s, "' (searched: ");
                push_debug_list(&mut s, searched);
                push_str(&mut s, ")");
            },
            DoeError::ImportCycle { cycle } => {
                push_str(&mut s, "import cycle detected: ");
                push_debug_list(&mut s, cycle);
            },
            DoeError::DuplicateType { name, first, second } => {
                push_str(&mut s, "duplicate type name '");
                push_str(&mut s, name.as_str());
                push_str(&mut s, "' defined in ");
                push_str(&mut s, first.as_str());
                push_str(&mut s, " and ");
                push_str(&mut s, second.as_str());
            },
            DoeError::ExprParse { expr, message } => {
                push_str(&mut s, "expression parse error in '");
                push_str(&mut s, expr.as_str());
                push_str(&mut s, "': ");
                push_str(&mut s, message.as_str());
            },
            DoeError::ExprEval { expr, message } => {
                push_str(&mut s, "expression eval error in '");
                push_str(&mut s, expr.as_str());
                push_str(&mut s, "': ");
                push_str(&mut s, message.as_str());
            },
            DoeError::UnknownType { ty_name, context } => {
                push_str(&mut s, "unknown type '");
                push_str(&mut s, ty_name.as_str());
                push_str(&mut s, "' referenced in ");
                push_str(&mut s, context.as_str());
            },
            DoeError::FieldError { field, context, message } => {
                push_str(&mut s, "field '");
                push_str(&mut s, field.as_str());
                push_str(&mut s, "' in ");
                push_str(&mut s, context.as_str());
                push_str(&mut s, ": ");
                push_str(&mut s, message.as_str());
            },
            DoeError::UnknownEnum { enum_name, context } => {
                push_str(&mut s, "unknown enum '");
                push_str(&mut s, enum_name.as_str());
                push_str(&mut s, "' referenced in ");
                push_str(&mut s, context.as_str());
            },
            DoeError::Schema(m) => {
                push_str(&mut s, m.as_str());
            },
        }
        assert(s@ =~= self.spec_message());
        s
    }
}

} // verus!
