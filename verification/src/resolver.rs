//! Per-placeholder type and shape policy.
//!
//! A resolver decides how a placeholder's value is rendered into text and how
//! captured text is parsed back into a value: an unshaped string, a string
//! constrained by a caller-supplied regular-expression fragment, a zero-padded
//! integer, or a reference to a named entity.

use vstd::prelude::*;

use crate::chars::chars_to_string;
use crate::chars::str_to_chars;
use crate::digits::spec_dec_digits;
use crate::digits::spec_parse_u16;
use crate::digits::u16_dec_chars;
use crate::digits::parse_u16_chars;
use crate::error::Error;
use crate::field_key::FieldKey;
use crate::value::PathValue;
use crate::value::PathValueModel;

verus! {

/// Placeholder policy.  A `String` pattern, when given, must be a non-greedy,
/// unanchored, capture-group-free regular-expression fragment; that is the
/// caller's contract and is not validated here beyond compilability.
#[derive(Debug)]
pub enum Resolver {
    Default,
    String { pattern: Option<String> },
    Integer { padding: u8 },
    Entity { key: FieldKey },
}

/// Mathematical model of a [`Resolver`].
pub enum ResolverModel {
    Default,
    Str(Option<Seq<char>>),
    Int(u8),
    Ent(Seq<char>),
}

impl Clone for Resolver {
    fn clone(&self) -> (r: Resolver)
        ensures
            r@ == self@,
    {
        match self {
            Resolver::Default => Resolver::Default,
            Resolver::String { pattern: None } => Resolver::String { pattern: None },
            Resolver::String { pattern: Some(p) } => Resolver::String { pattern: Some(p.clone()) },
            Resolver::Integer { padding } => Resolver::Integer { padding: *padding },
            Resolver::Entity { key } => Resolver::Entity { key: key.clone() },
        }
    }
}

impl View for Resolver {
    type V = ResolverModel;

    open spec fn view(&self) -> ResolverModel {
        match self {
            Resolver::Default => ResolverModel::Default,
            Resolver::String { pattern: None } => ResolverModel::Str(None),
            Resolver::String { pattern: Some(p) } => ResolverModel::Str(Some(p@)),
            Resolver::Integer { padding } => ResolverModel::Int(*padding),
            Resolver::Entity { key } => ResolverModel::Ent(key@),
        }
    }
}

/// The non-greedy any-text fragment used by the default and unshaped string
/// resolvers.
pub open spec fn spec_any_pattern() -> Seq<char> {
    seq!['.', '+', '?']
}

/// The regular-expression fragment of a resolver: `.+?` for unshaped values,
/// the caller's own fragment for shaped strings, and `\d{p,}?` (at least
/// `max(padding, 1)` digits, non-greedy) for integers.
pub open spec fn spec_resolver_pattern(m: ResolverModel) -> Seq<char> {
    match m {
        ResolverModel::Default => spec_any_pattern(),
        ResolverModel::Str(None) => spec_any_pattern(),
        ResolverModel::Str(Some(p)) => p,
        ResolverModel::Int(padding) => seq!['\\', 'd', '{'] + spec_dec_digits(
            if padding < 1 {
                1
            } else {
                padding as int
            },
        ) + seq![',', '}', '?'],
        ResolverModel::Ent(_) => spec_any_pattern(),
    }
}

/// What parsing captured text back through a resolver yields: integers parse
/// as `u16` (an unparseable capture is an error), everything else stays a
/// string.
pub open spec fn spec_to_path_value(m: ResolverModel, text: Seq<char>) -> Option<PathValueModel> {
    match m {
        ResolverModel::Int(_) => match spec_parse_u16(text) {
            Some(v) => Some(PathValueModel::Int(v)),
            None => None,
        },
        _ => Some(PathValueModel::Str(text)),
    }
}

impl Resolver {
    /// The regular-expression fragment this resolver matches values with.
    pub fn pattern(&self) -> (r: String)
        ensures
            r@ == spec_resolver_pattern(self@),
    {
        match self {
            Resolver::Default => any_pattern_string(),
            Resolver::String { pattern: None } => any_pattern_string(),
            Resolver::String { pattern: Some(p) } => p.clone(),
            Resolver::Integer { padding } => {
                let eff: u8 = if *padding < 1 {
                    1
                } else {
                    *padding
                };
                let digits = u16_dec_chars(eff as u16);
                let mut r = String::new();
                r.append("\\d{");
                r.append(chars_to_string(&digits).as_str());
                r.append(",}?");
                proof {
                    reveal_strlit("\\d{");
                    reveal_strlit(",}?");
                    assert("\\d{"@ =~= seq!['\\', 'd', '{']);
                    assert(",}?"@ =~= seq![',', '}', '?']);
                }
                r
            },
            Resolver::Entity { key: _ } => any_pattern_string(),
        }
    }

    /// Parse captured text back into a path value according to this
    /// resolver's type.
    pub fn to_path_value(&self, value: &str) -> (r: Result<PathValue, Error>)
        ensures
            r matches Ok(v) ==> spec_to_path_value(self@, value@) == Some(v@),
            r is Err <==> spec_to_path_value(self@, value@) is None,
            r matches Err(e) ==> (e matches Error::ParseIntegerError(t) && t@ == value@),
    {
        match self {
            Resolver::Integer { padding: _ } => {
                let chars = str_to_chars(value);
                match parse_u16_chars(&chars) {
                    Some(v) => Ok(PathValue::Integer(v)),
                    None => Err(Error::ParseIntegerError(value.to_owned())),
                }
            },
            _ => Ok(PathValue::String(value.to_owned())),
        }
    }
}

fn any_pattern_string() -> (r: String)
    ensures
        r@ == spec_any_pattern(),
{
    let r = String::from_str(".+?");
    proof {
        reveal_strlit(".+?");
        assert(".+?"@ =~= seq!['.', '+', '?']);
    }
    r
}

} // verus!
