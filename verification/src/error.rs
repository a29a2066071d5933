//! The error taxonomy of the crate, and the exact text each error renders to.

use vstd::prelude::*;

use crate::digits::spec_dec_digits;
use crate::digits::u16_dec_chars;
use crate::chars::chars_to_string;
use crate::field_key::FieldKey;
use crate::resolver::Resolver;
use crate::resolver::ResolverModel;
use crate::value::PathValue;
use crate::value::PathValueModel;

verus! {

/// Everything that can go wrong while building a config, resolving a path or
/// planning a workspace.  Every variant is returned, never panicked.
#[derive(Debug)]
pub enum Error {
    /// A field was looked up that the map does not hold (template lookup).
    FieldError(String),
    /// A placeholder named in a template is absent from the field map.
    MissingFieldError(FieldKey),
    /// A field value's type does not fit the resolver declared for it.
    ResolverTypeMismatchError { resolver: Resolver, value: PathValue },
    /// A path item names a parent key that was never declared.
    MissingParentError(FieldKey),
    /// A template or key failed to parse.
    ParseError(&'static str),
    /// A regular expression failed to compile; the payload is the
    /// compiler's message.
    RegexError(String),
    /// Captured text for an integer placeholder did not parse as `u16`.
    ParseIntegerError(String),
    /// A path item's parent chain loops back onto itself.
    InfiniteRecursionError { item: FieldKey, parent: FieldKey },
    /// A key was queried that the config does not hold.
    MissingItemError(FieldKey),
    /// The same field was extracted twice from one path with two different
    /// values.
    MismatchedFieldError { key: FieldKey, value: PathValue, other_value: PathValue },
    /// A search was asked to start from a root segment that still contains a
    /// placeholder.
    VariableRootPathError,
    /// A failure reported by the external template-rendering capability.
    TemplateError(String),
    /// A failure reported by a caller-supplied function.
    RuntimeError(String),
}

/// The debug rendering of a path value, as it appears inside error messages.
pub open spec fn spec_path_value_debug(v: PathValueModel) -> Seq<char> {
    match v {
        PathValueModel::Int(n) => "Integer("@ + spec_dec_digits(n as int) + ")"@,
        PathValueModel::Str(s) => "String(\""@ + s + "\")"@,
    }
}

/// The debug rendering of a resolver, as it appears inside error messages.
pub open spec fn spec_resolver_debug(m: ResolverModel) -> Seq<char> {
    match m {
        ResolverModel::Default => "Default"@,
        ResolverModel::Str(None) => "String { pattern: None }"@,
        ResolverModel::Str(Some(p)) => "String { pattern: Some(\""@ + p + "\") }"@,
        ResolverModel::Int(padding) => "Integer { padding: "@ + spec_dec_digits(padding as int)
            + " }"@,
        ResolverModel::Ent(k) => "Entity { key: \""@ + k + "\" }"@,
    }
}

/// The message each error renders to.
pub open spec fn spec_error_message(e: &Error) -> Seq<char> {
    match e {
        Error::FieldError(s) => "Error while accessing field "@ + s@,
        Error::MissingFieldError(k) => "Could not find \""@ + k@ + "\" in the fields."@,
        Error::ResolverTypeMismatchError { resolver, value } => "Resolver type "@
            + spec_resolver_debug(resolver@) + " is invalid for value "@ + spec_path_value_debug(
            value@,
        ) + "."@,
        Error::MissingParentError(k) => "Parent "@ + k@ + " does not exist"@,
        Error::ParseError(m) => "Error while parsing: "@ + m@,
        Error::RegexError(m) => "Error while creating regex: "@ + m@,
        Error::ParseIntegerError(s) => "Error while parsing integer: "@ + s@,
        Error::InfiniteRecursionError { item, parent } => "The path item "@ + item@ + " parent "@
            + parent@ + " causes a infinite recursion"@,
        Error::MissingItemError(k) => "Could not find item "@ + k@,
        Error::MismatchedFieldError { key, value, other_value } => "Field "@ + key@
            + " exists in multiple variable parts in the path, but the values are different: "@
            + spec_path_value_debug(value@) + " != "@ + spec_path_value_debug(other_value@),
        Error::VariableRootPathError => "Cannot resolve a variable root path"@,
        Error::TemplateError(s) => "Error with template "@ + s@,
        Error::RuntimeError(s) => "Runtime Error: "@ + s@,
    }
}

fn path_value_debug(v: &PathValue) -> (r: String)
    ensures
        r@ == spec_path_value_debug(v@),
{
    match v {
        PathValue::Integer(n) => {
            let mut r = String::from_str("Integer(");
            r.append(chars_to_string(&u16_dec_chars(*n)).as_str());
            r.append(")");
            r
        },
        PathValue::String(s) => {
            let mut r = String::from_str("String(\"");
            r.append(s.as_str());
            r.append("\")");
            r
        },
    }
}

fn resolver_debug(m: &Resolver) -> (r: String)
    ensures
        r@ == spec_resolver_debug(m@),
{
    match m {
        Resolver::Default => String::from_str("Default"),
        Resolver::String { pattern: None } => String::from_str("String { pattern: None }"),
        Resolver::String { pattern: Some(p) } => {
            let mut r = String::from_str("String { pattern: Some(\"");
            r.append(p.as_str());
            r.append("\") }");
            r
        },
        Resolver::Integer { padding } => {
            let mut r = String::from_str("Integer { padding: ");
            r.append(chars_to_string(&u16_dec_chars(*padding as u16)).as_str());
            r.append(" }");
            r
        },
        Resolver::Entity { key } => {
            let mut r = String::from_str("Entity { key: \"");
            r.append(key.as_str());
            r.append("\" }");
            r
        },
    }
}

impl Error {
    /// Render the error as human-readable text.
    pub fn message(&self) -> (r: String)
        ensures
            r@ == spec_error_message(self),
    {
        match self {
            Error::FieldError(s) => {
                let mut r = String::from_str("Error while accessing field ");
                r.append(s.as_str());
                r
            },
            Error::MissingFieldError(k) => {
                let mut r = String::from_str("Could not find \"");
                r.append(k.as_str());
                r.append("\" in the fields.");
                r
            },
            Error::ResolverTypeMismatchError { resolver, value } => {
                let mut r = String::from_str("Resolver type ");
                r.append(resolver_debug(resolver).as_str());
                r.append(" is invalid for value ");
                r.append(path_value_debug(value).as_str());
                r.append(".");
                r
            },
            Error::MissingParentError(k) => {
                let mut r = String::from_str("Parent ");
                r.append(k.as_str());
                r.append(" does not exist");
                r
            },
            Error::ParseError(m) => {
                let mut r = String::from_str("Error while parsing: ");
                r.append(m);
                r
            },
            Error::RegexError(m) => {
                let mut r = String::from_str("Error while creating regex: ");
                r.append(m.as_str());
                r
            },
            Error::ParseIntegerError(s) => {
                let mut r = String::from_str("Error while parsing integer: ");
                r.append(s.as_str());
                r
            },
            Error::InfiniteRecursionError { item, parent } => {
                let mut r = String::from_str("The path item ");
                r.append(item.as_str());
                r.append(" parent ");
                r.append(parent.as_str());
                r.append(" causes a infinite recursion");
                r
            },
            Error::MissingItemError(k) => {
                let mut r = String::from_str("Could not find item ");
                r.append(k.as_str());
                r
            },
            Error::MismatchedFieldError { key, value, other_value } => {
                let mut r = String::from_str("Field ");
                r.append(key.as_str());
                r.append(
                    " exists in multiple variable parts in the path, but the values are different: ",
                );
                r.append(path_value_debug(value).as_str());
                r.append(" != ");
                r.append(path_value_debug(other_value).as_str());
                r
            },
            Error::VariableRootPathError => String::from_str("Cannot resolve a variable root path"),
            Error::TemplateError(s) => {
                let mut r = String::from_str("Error with template ");
                r.append(s.as_str());
                r
            },
            Error::RuntimeError(s) => {
                let mut r = String::from_str("Runtime Error: ");
                r.append(s.as_str());
                r
            },
        }
    }
}

} // verus!
