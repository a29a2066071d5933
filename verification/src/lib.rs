//! Resolution of structured filesystem paths from named placeholder templates.
//!
//! A path template such as `/shows/{show}/shot_{frame}.exr` is parsed into
//! tokens, rendered into concrete paths from a field map, and matched back
//! against concrete paths to recover the field values.  A tree of such
//! templates, with shared prefixes and permission/ownership inheritance,
//! drives workspace planning: deciding which paths to materialize, with which
//! attributes, in which order.

use vstd::prelude::*;

mod attrs;
mod chars;
mod config;
mod digits;
mod entity;
mod error;
mod field_key;
mod matcher;
mod path_item;
mod path_resolver;
mod pathtext;
mod resolver;
mod rx;
mod token;
mod value;
mod workspace_resolver;

pub use attrs::AttrMap;
pub use entity::PathEntity;
pub use entity::TemplateEntity;
pub use error::Error;
pub use config::Config;
pub use path_resolver::FindPaths;
pub use path_resolver::find_paths;
pub use path_resolver::get_fields;
pub use path_resolver::get_key;
pub use path_resolver::get_path;
pub use config::ConfigBuilder;
pub use field_key::FieldKey;
pub use path_item::Owner;
pub use path_item::PathItem;
pub use path_item::PathItemArgs;
pub use path_item::PathType;
pub use path_item::Permission;
pub use path_item::ResolvedPathItem;
pub use resolver::Resolver;
pub use rx::CompiledRegex;
pub use rx::RegexCache;
pub use value::MetadataMap;
pub use value::TemplateMap;
pub use token::Token;
pub use token::Tokens;
pub use value::MetadataValue;
pub use value::PathValue;
pub use value::TemplateValue;
pub use workspace_resolver::create_workspace;
pub use workspace_resolver::get_workspace;

verus! {

/// Field values addressed by field key: the input to path rendering and the
/// output of field extraction.
pub type PathAttributes = attrs::AttrMap<value::PathValue>;

/// Template context values addressed by field key, handed through to the
/// external template-rendering capability.
pub type TemplateAttributes = value::TemplateMap;

/// The resolver declared for each placeholder key.
pub type Resolvers = attrs::AttrMap<resolver::Resolver>;

} // verus!
