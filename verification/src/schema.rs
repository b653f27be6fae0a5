//! The records of a schema source: kinds, mappings between kinds and their
//! parameters, and what loading one source can fail with.

use crate::names::MappingName;
use vstd::prelude::*;

verus! {

/// The identifier of a kind.
#[derive(Debug, Clone, PartialEq, Eq, PartialOrd, Ord)]
pub struct KindId(pub String);

impl View for KindId {
    type V = Seq<char>;

    open spec fn view(&self) -> Seq<char> {
        self.0@
    }
}

/// What a source knows about a kind beyond its description.
#[derive(Debug)]
pub struct KnownKindMetadata {
    pub is_root: bool,
    pub template_name: Option<String>,
    pub source_plugin: Option<String>,
}

impl Default for KnownKindMetadata {
    fn default() -> (r: KnownKindMetadata)
        ensures
            !r.is_root,
            r.template_name is None,
            r.source_plugin is None,
    {
        KnownKindMetadata { is_root: false, template_name: None, source_plugin: None }
    }
}

/// The description of one kind.
#[derive(Debug)]
pub struct KindDef {
    pub help: String,
    pub can_display: bool,
    pub metadata: KnownKindMetadata,
}

/// What a source knows about a mapping beyond its description.
#[derive(Debug)]
pub struct KnownMappingMetadata {
    pub source_plugin: Option<String>,
    pub alias_of: Option<String>,
}

impl Default for KnownMappingMetadata {
    fn default() -> (r: KnownMappingMetadata)
        ensures
            r.source_plugin is None,
            r.alias_of is None,
    {
        KnownMappingMetadata { source_plugin: None, alias_of: None }
    }
}

/// The name of a parameter of a mapping.
#[derive(Debug)]
pub struct ParamName(pub String);

/// One parameter of a mapping.
#[derive(Debug)]
pub struct ParamDef {
    pub name: ParamName,
    pub kind: KindId,
    pub multi: bool,
    pub optional: bool,
}

/// A mapping: a named, directed edge from one kind to another.
#[derive(Debug)]
pub struct MappingDef {
    pub source_kind: KindId,
    pub target_kind: KindId,
    pub name: MappingName,
    pub is_implicit: bool,
    pub parameters: Vec<ParamDef>,
    pub mutable: bool,
    pub help: String,
    pub metadata: KnownMappingMetadata,
}

impl MappingDef {
    /// The key under which a catalog files the mapping: its origin kind and
    /// its name.
    pub open spec fn key(&self) -> (Seq<char>, Seq<char>) {
        (self.source_kind@, self.name@)
    }
}

/// What one source contributes: its kinds in document order, and its
/// mappings.
pub struct SourceSchema {
    pub kinds: Vec<(KindId, KindDef)>,
    pub mappings: Vec<MappingDef>,
}

impl SourceSchema {
    /// A schema of the given kinds and mappings.
    pub fn new(kinds: Vec<(KindId, KindDef)>, mappings: Vec<MappingDef>) -> (r: SourceSchema)
        ensures
            r.kinds == kinds,
            r.mappings == mappings,
    {
        SourceSchema { kinds, mappings }
    }
}

/// Why one source gave no schema.
#[derive(Debug)]
pub enum SourceError {
    /// The source could not be retrieved.
    Fetch { locator: String, detail: String },
    /// The source was retrieved but is no schema document.
    Parse { locator: String, detail: String },
}

/// The kinds of a list as pairs of key and description.
pub open spec fn kind_pairs(kinds: Seq<(KindId, KindDef)>) -> Seq<(Seq<char>, KindDef)> {
    Seq::new(kinds.len(), |i: int| (kinds[i].0@, kinds[i].1))
}

/// The mappings of a list as pairs of key and mapping.
pub open spec fn mapping_pairs(mappings: Seq<MappingDef>) -> Seq<
    ((Seq<char>, Seq<char>), MappingDef),
> {
    Seq::new(mappings.len(), |i: int| (mappings[i].key(), mappings[i]))
}

/// The plugin tags that the mappings of a list declare.
pub open spec fn plugin_tags(mappings: Seq<MappingDef>) -> Set<Seq<char>>
    decreases mappings.len(),
{
    if mappings.len() == 0 {
        Set::empty()
    } else {
        match mappings.last().metadata.source_plugin {
            Some(tag) => plugin_tags(mappings.drop_last()).insert(tag@),
            None => plugin_tags(mappings.drop_last()),
        }
    }
}

} // verus!
