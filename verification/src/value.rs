//! Tagged-union value types carried through field maps and templates.

use vstd::prelude::*;

use crate::entity::TemplateEntity;
use crate::field_key::FieldKey;

verus! {

/// The value of a resolved path field: either an integer (rendered with
/// zero-padding) or a plain string.
#[derive(Debug)]
pub enum PathValue {
    Integer(u16),
    String(String),
}

/// Mathematical model of a [`PathValue`].
pub enum PathValueModel {
    Int(u16),
    Str(Seq<char>),
}

impl View for PathValue {
    type V = PathValueModel;

    open spec fn view(&self) -> PathValueModel {
        match self {
            PathValue::Integer(v) => PathValueModel::Int(*v),
            PathValue::String(s) => PathValueModel::Str(s@),
        }
    }
}

impl Clone for PathValue {
    fn clone(&self) -> (r: PathValue)
        ensures
            r@ == self@,
    {
        match self {
            PathValue::Integer(v) => PathValue::Integer(*v),
            PathValue::String(s) => PathValue::String(s.clone()),
        }
    }
}

impl PathValue {
    /// Structural equality: same variant, same payload.
    pub fn same_value(&self, other: &PathValue) -> (r: bool)
        ensures
            r == (self@ == other@),
    {
        match (self, other) {
            (PathValue::Integer(a), PathValue::Integer(b)) => *a == *b,
            (PathValue::String(a), PathValue::String(b)) => crate::chars::str_equal(
                a.as_str(),
                b.as_str(),
            ),
            _ => false,
        }
    }
}

/// A JSON-like context value handed to the external template-rendering
/// capability.  The crate itself never inspects these values; it only stores
/// and forwards them.
#[derive(Debug)]
pub enum TemplateValue {
    Null,
    Bool(bool),
    Integer(i64),
    String(String),
    Array(Vec<TemplateValue>),
    Object(TemplateMap),
    Entity(TemplateEntity),
}

/// Template context values addressed by field key.  The crate never inspects
/// the stored values, so only the key sequence is modelled.
#[derive(Debug)]
pub struct TemplateMap {
    entries: Vec<(FieldKey, TemplateValue)>,
}

impl TemplateMap {
    /// The keys in insertion order.
    pub closed spec fn spec_keys(&self) -> Seq<Seq<char>> {
        self.entries@.map(|i: int, e: (FieldKey, TemplateValue)| e.0@)
    }

    pub fn new() -> (r: TemplateMap)
        ensures
            r.spec_keys() =~= Seq::<Seq<char>>::empty(),
    {
        TemplateMap { entries: Vec::new() }
    }

    pub fn len(&self) -> (r: usize)
        ensures
            r == self.spec_keys().len(),
    {
        self.entries.len()
    }

    /// Append one entry.  Keys are not deduplicated; a later entry with the
    /// same key shadows an earlier one for `get`.
    pub fn insert(&mut self, key: FieldKey, value: TemplateValue)
        ensures
            final(self).spec_keys() =~= old(self).spec_keys().push(key@),
    {
        self.entries.push((key, value));
    }

    /// Look up the last entry with the given key.
    pub fn get(&self, key: &FieldKey) -> (r: Option<&TemplateValue>)
        ensures
            r is Some <==> self.spec_keys().contains(key@),
    {
        let mut found: Option<&TemplateValue> = None;
        let mut i: usize = 0;
        while i < self.entries.len()
            invariant
                i <= self.entries@.len(),
                found is Some <==> exists|j: int| 0 <= j < i && self.spec_keys()[j] == key@,
            decreases self.entries@.len() - i,
        {
            if self.entries[i].0.eq(key) {
                found = Some(&self.entries[i].1);
                assert(self.spec_keys()[i as int] == key@);
            }
            i = i + 1;
        }
        found
    }

    /// The key and value at one position of the insertion order.
    pub fn entry_at(&self, i: usize) -> (r: (&FieldKey, &TemplateValue))
        requires
            i < self.spec_keys().len(),
        ensures
            r.0@ == self.spec_keys()[i as int],
    {
        (&self.entries[i].0, &self.entries[i].1)
    }
}

/// A JSON-like metadata value attached to a path item and handed through to
/// the caller's I/O function, never inspected by the crate.
#[derive(Debug)]
pub enum MetadataValue {
    Null,
    Bool(bool),
    Integer(i64),
    String(String),
    Array(Vec<MetadataValue>),
    Object(MetadataMap),
}

/// Metadata attached to one path item: a map from plain string names to
/// metadata values, keyed in insertion order.
#[derive(Debug)]
pub struct MetadataMap {
    entries: Vec<(String, MetadataValue)>,
}

impl View for MetadataMap {
    type V = Seq<(Seq<char>, MetadataValue)>;

    closed spec fn view(&self) -> Seq<(Seq<char>, MetadataValue)> {
        self.entries@.map(|i: int, e: (String, MetadataValue)| (e.0@, e.1))
    }
}

impl MetadataMap {
    /// The names in insertion order.
    pub open spec fn spec_names(&self) -> Seq<Seq<char>> {
        self@.map(|i: int, e: (Seq<char>, MetadataValue)| e.0)
    }

    pub fn new() -> (r: MetadataMap)
        ensures
            r.spec_names() =~= Seq::<Seq<char>>::empty(),
            r@ =~= Seq::<(Seq<char>, MetadataValue)>::empty(),
    {
        MetadataMap { entries: Vec::new() }
    }

    pub fn len(&self) -> (r: usize)
        ensures
            r == self.spec_names().len(),
    {
        self.entries.len()
    }

    /// Append one entry.  Names are not deduplicated; a later entry with the
    /// same name shadows an earlier one for `get`.
    pub fn push(&mut self, name: String, value: MetadataValue)
        ensures
            final(self).spec_names() =~= old(self).spec_names().push(name@),
    {
        self.entries.push((name, value));
    }

    /// Look up the last entry with the given name.
    pub fn get(&self, name: &str) -> (r: Option<&MetadataValue>)
        ensures
            r is Some <==> self.spec_names().contains(name@),
    {
        let mut found: Option<&MetadataValue> = None;
        let mut i: usize = 0;
        while i < self.entries.len()
            invariant
                i <= self.entries@.len(),
                found is Some <==> exists|j: int| 0 <= j < i && self.spec_names()[j] == name@,
            decreases self.entries@.len() - i,
        {
            if crate::chars::str_equal(self.entries[i].0.as_str(), name) {
                found = Some(&self.entries[i].1);
                assert(self.spec_names()[i as int] == name@);
            }
            i = i + 1;
        }
        found
    }
}

} // verus!
