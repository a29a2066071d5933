//! Path-tree nodes: the caller-facing declaration of one item, the arena node
//! a config stores, and the resolved node a workspace query returns.

use vstd::prelude::*;

use crate::field_key::FieldKey;
use crate::token::Tokens;
use crate::token::TokenModel;
use crate::value::MetadataMap;
use crate::value::MetadataValue;

verus! {

/// Relies on `std::sync::Arc::clone`: returns a handle to the same
/// allocation, hence to the same value.
#[verifier::external_body]
pub(crate) fn share_arc<T>(v: &std::sync::Arc<T>) -> (res: std::sync::Arc<T>)
    ensures
        res == *v,
{
    std::sync::Arc::clone(v)
}

/// The access the caller's I/O function should grant a path, or `Inherit` to
/// take the parent's.  The meaning of each value is the caller's.
#[derive(Debug, Clone, Copy, PartialEq, Eq, Structural)]
pub enum Permission {
    Inherit,
    ReadOnly,
    ReadWrite,
}

impl Default for Permission {
    fn default() -> (r: Permission)
        ensures
            r == Permission::Inherit,
    {
        Permission::Inherit
    }
}

/// Who should own a path, or `Inherit` to take the parent's.  The meaning of
/// each value is the caller's.
#[derive(Debug, Clone, Copy, PartialEq, Eq, Structural)]
pub enum Owner {
    Inherit,
    Root,
    Project,
    User,
}

impl Default for Owner {
    fn default() -> (r: Owner)
        ensures
            r == Owner::Inherit,
    {
        Owner::Inherit
    }
}

/// What kind of filesystem object a path names.  The meaning of each value is
/// the caller's.
#[derive(Debug, Clone, Copy, PartialEq, Eq, Structural)]
pub enum PathType {
    Directory,
    File,
    FileTemplate,
}

impl Default for PathType {
    fn default() -> (r: PathType)
        ensures
            r == PathType::Directory,
    {
        PathType::Directory
    }
}

/// One path-item declaration, as the caller hands it to the config builder.
#[derive(Debug)]
pub struct PathItemArgs {
    pub key: FieldKey,
    pub path: String,
    pub parent: Option<FieldKey>,
    pub permission: Permission,
    pub owner: Owner,
    pub path_type: PathType,
    pub deferred: bool,
    pub metadata: MetadataMap,
}

/// Mathematical model of a [`PathItemArgs`] declaration.
pub struct PathItemArgsModel {
    pub key: Seq<char>,
    pub path: Seq<char>,
    pub parent: Option<Seq<char>>,
    pub permission: Permission,
    pub owner: Owner,
    pub path_type: PathType,
    pub deferred: bool,
    pub metadata: Seq<(Seq<char>, MetadataValue)>,
}

impl View for PathItemArgs {
    type V = PathItemArgsModel;

    open spec fn view(&self) -> PathItemArgsModel {
        PathItemArgsModel {
            key: self.key@,
            path: self.path@,
            parent: match self.parent {
                Some(ref p) => Some(p@),
                None => None,
            },
            permission: self.permission,
            owner: self.owner,
            path_type: self.path_type,
            deferred: self.deferred,
            metadata: self.metadata@,
        }
    }
}

/// One arena node of the built path tree: the tokens of a single path
/// component, a parent link by arena index, and the attributes the declaring
/// item carried.
#[derive(Debug)]
pub struct PathItem {
    pub path: Tokens,
    pub parent: Option<usize>,
    pub permission: Permission,
    pub owner: Owner,
    pub path_type: PathType,
    pub deferred: bool,
    pub metadata: std::sync::Arc<MetadataMap>,
}

/// Mathematical model of a [`PathItem`].
pub struct PathItemModel {
    pub path: Seq<TokenModel>,
    pub parent: Option<int>,
    pub permission: Permission,
    pub owner: Owner,
    pub path_type: PathType,
    pub deferred: bool,
    pub metadata: Seq<(Seq<char>, MetadataValue)>,
}

impl View for PathItem {
    type V = PathItemModel;

    open spec fn view(&self) -> PathItemModel {
        PathItemModel {
            path: self.path@,
            parent: match self.parent {
                Some(p) => Some(p as int),
                None => None,
            },
            permission: self.permission,
            owner: self.owner,
            path_type: self.path_type,
            deferred: self.deferred,
            metadata: self.metadata@,
        }
    }
}

impl Clone for PathItem {
    fn clone(&self) -> (r: PathItem)
        ensures
            r@ == self@,
    {
        PathItem {
            path: self.path.clone(),
            parent: self.parent,
            permission: self.permission,
            owner: self.owner,
            path_type: self.path_type,
            deferred: self.deferred,
            metadata: share_arc(&self.metadata),
        }
    }
}

/// One materialized node of a workspace: the key it came from (when it is the
/// final component of a declared item), its absolute path, its resolved
/// attributes and its effective deferred flag.
#[derive(Debug)]
pub struct ResolvedPathItem {
    pub key: Option<FieldKey>,
    pub value: String,
    pub permission: Permission,
    pub owner: Owner,
    pub path_type: PathType,
    pub deferred: bool,
    pub metadata: std::sync::Arc<MetadataMap>,
}

/// Mathematical model of a [`ResolvedPathItem`].
pub struct ResolvedItemModel {
    pub key: Option<Seq<char>>,
    pub value: Seq<char>,
    pub permission: Permission,
    pub owner: Owner,
    pub path_type: PathType,
    pub deferred: bool,
    pub metadata: Seq<(Seq<char>, MetadataValue)>,
}

impl View for ResolvedPathItem {
    type V = ResolvedItemModel;

    open spec fn view(&self) -> ResolvedItemModel {
        ResolvedItemModel {
            key: match self.key {
                Some(ref k) => Some(k@),
                None => None,
            },
            value: self.value@,
            permission: self.permission,
            owner: self.owner,
            path_type: self.path_type,
            deferred: self.deferred,
            metadata: self.metadata@,
        }
    }
}

impl Clone for ResolvedPathItem {
    fn clone(&self) -> (r: ResolvedPathItem)
        ensures
            r@ == self@,
    {
        ResolvedPathItem {
            key: match &self.key {
                Some(k) => Some(k.clone()),
                None => None,
            },
            value: self.value.clone(),
            permission: self.permission,
            owner: self.owner,
            path_type: self.path_type,
            deferred: self.deferred,
            metadata: share_arc(&self.metadata),
        }
    }
}

impl ResolvedPathItem {
    /// The key of the declared item this node is the final component of.
    pub fn key(&self) -> (r: Option<&FieldKey>)
        ensures
            r is Some <==> self@.key is Some,
            r matches Some(k) ==> k@ == self@.key->0,
    {
        match &self.key {
            Some(key) => Some(key),
            None => None,
        }
    }

    /// The absolute path of this node.
    pub fn value(&self) -> (r: &str)
        ensures
            r@ == self@.value,
    {
        self.value.as_str()
    }

    /// The resolved permission of this node.
    pub fn permission(&self) -> (r: &Permission)
        ensures
            *r == self@.permission,
    {
        &self.permission
    }

    /// The resolved owner of this node.
    pub fn owner(&self) -> (r: &Owner)
        ensures
            *r == self@.owner,
    {
        &self.owner
    }

    /// What kind of filesystem object this node names.
    pub fn path_type(&self) -> (r: &PathType)
        ensures
            *r == self@.path_type,
    {
        &self.path_type
    }

    /// The effective deferred flag of this node.
    pub fn deferred(&self) -> (r: bool)
        ensures
            r == self@.deferred,
    {
        self.deferred
    }

    /// The metadata the declaring item carried.
    pub fn metadata(&self) -> (r: &MetadataMap)
        ensures
            r@ == self@.metadata,
    {
        &self.metadata
    }
}

} // verus!
