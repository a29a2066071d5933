//! Entity values: opaque references to externally-managed objects (an asset,
//! a shot, a user) that can be carried through field maps and template
//! contexts.  The crate stores and forwards them; it never interprets them.

use vstd::prelude::*;

use crate::attrs::AttrMap;
use crate::value::PathValue;
use crate::value::TemplateMap;

verus! {

/// An entity carried through path fields.
#[derive(Debug)]
pub struct PathEntity {
    entity_id: String,
    entity_type: String,
    parent: Option<std::sync::Arc<PathEntity>>,
    attributes: AttrMap<PathValue>,
}

impl PathEntity {
    pub closed spec fn spec_entity_id(&self) -> Seq<char> {
        self.entity_id@
    }

    pub closed spec fn spec_entity_type(&self) -> Seq<char> {
        self.entity_type@
    }

    pub closed spec fn spec_attributes(&self) -> Map<Seq<char>, <PathValue as View>::V> {
        self.attributes@
    }

    pub fn new(
        entity_id: &str,
        entity_type: &str,
        attributes: AttrMap<PathValue>,
        parent: Option<std::sync::Arc<PathEntity>>,
    ) -> (r: PathEntity)
        ensures
            r.spec_entity_id() == entity_id@,
            r.spec_entity_type() == entity_type@,
            r.spec_attributes() == attributes@,
    {
        PathEntity {
            entity_id: entity_id.to_owned(),
            entity_type: entity_type.to_owned(),
            attributes,
            parent,
        }
    }

    pub fn entity_id(&self) -> (r: &str)
        ensures
            r@ == self.spec_entity_id(),
    {
        self.entity_id.as_str()
    }

    pub fn entity_type(&self) -> (r: &str)
        ensures
            r@ == self.spec_entity_type(),
    {
        self.entity_type.as_str()
    }

    pub fn parent(&self) -> &Option<std::sync::Arc<PathEntity>> {
        &self.parent
    }

    pub fn attributes(&self) -> (r: &AttrMap<PathValue>)
        ensures
            r@ == self.spec_attributes(),
    {
        &self.attributes
    }
}

/// An entity carried through template contexts.
#[derive(Debug)]
pub struct TemplateEntity {
    entity_id: String,
    entity_type: String,
    parent: Option<std::sync::Arc<TemplateEntity>>,
    attributes: TemplateMap,
}

impl TemplateEntity {
    pub closed spec fn spec_entity_id(&self) -> Seq<char> {
        self.entity_id@
    }

    pub closed spec fn spec_entity_type(&self) -> Seq<char> {
        self.entity_type@
    }

    pub fn new(
        entity_id: &str,
        entity_type: &str,
        attributes: TemplateMap,
        parent: Option<std::sync::Arc<TemplateEntity>>,
    ) -> (r: TemplateEntity)
        ensures
            r.spec_entity_id() == entity_id@,
            r.spec_entity_type() == entity_type@,
    {
        TemplateEntity {
            entity_id: entity_id.to_owned(),
            entity_type: entity_type.to_owned(),
            attributes,
            parent,
        }
    }

    pub fn entity_id(&self) -> (r: &str)
        ensures
            r@ == self.spec_entity_id(),
    {
        self.entity_id.as_str()
    }

    pub fn entity_type(&self) -> (r: &str)
        ensures
            r@ == self.spec_entity_type(),
    {
        self.entity_type.as_str()
    }

    pub fn parent(&self) -> &Option<std::sync::Arc<TemplateEntity>> {
        &self.parent
    }

    pub fn attributes(&self) -> &TemplateMap {
        &self.attributes
    }
}

} // verus!
