//! The catalog that the schemas of all sources are folded into, and the
//! fold itself.

use crate::filter::{lemma_push_to_set, tag_position};
use crate::manifest::ManifestError;
use crate::names::{minified, name_views, MappingName};
use crate::schema::{
    kind_pairs, mapping_pairs, plugin_tags, KindDef, KindId, MappingDef, SourceError,
    SourceSchema,
};
use crate::tables::{
    distinct_keys, has_key, lemma_pair_map_at, lemma_pair_map_dom, lemma_pair_map_len,
    lemma_pair_map_push, lemma_pair_map_replace, lemma_pair_map_value,
    pair_map,
};
use crate::text::string_views;
use std::rc::Rc;
use vstd::prelude::*;

verus! {

/// What a catalog holds, as mathematical values: the kinds by identifier,
/// the mappings by origin kind and name, the plugin tags seen, and the
/// failures in the order they were recorded.
pub struct CatalogView {
    pub kinds: Map<Seq<char>, KindDef>,
    pub mappings: Map<(Seq<char>, Seq<char>), MappingDef>,
    pub plugins: Set<Seq<char>>,
    pub errors: Seq<SourceError>,
}

/// The catalog that nothing has been folded into.
pub open spec fn empty_catalog() -> CatalogView {
    CatalogView {
        kinds: Map::empty(),
        mappings: Map::empty(),
        plugins: Set::empty(),
        errors: Seq::empty(),
    }
}

/// The catalog after one more schema: its kinds and mappings are added,
/// replacing what stood under the same key, and its plugin tags join the
/// known ones.
pub open spec fn with_schema(c: CatalogView, schema: SourceSchema) -> CatalogView {
    CatalogView {
        kinds: c.kinds.union_prefer_right(pair_map(kind_pairs(schema.kinds@))),
        mappings: c.mappings.union_prefer_right(pair_map(mapping_pairs(schema.mappings@))),
        plugins: c.plugins.union(plugin_tags(schema.mappings@)),
        errors: c.errors,
    }
}

/// The catalog after one more failure: it is appended to the failures.
pub open spec fn with_failure(c: CatalogView, error: SourceError) -> CatalogView {
    CatalogView {
        kinds: c.kinds,
        mappings: c.mappings,
        plugins: c.plugins,
        errors: c.errors.push(error),
    }
}

/// The catalog after the outcome of one source.
pub open spec fn absorbed(c: CatalogView, outcome: Result<SourceSchema, SourceError>)
    -> CatalogView {
    match outcome {
        Ok(schema) => with_schema(c, schema),
        Err(error) => with_failure(c, error),
    }
}

/// The catalog after the outcomes of a list of sources, taken in order.
pub open spec fn folded(c: CatalogView, outcomes: Seq<Result<SourceSchema, SourceError>>)
    -> CatalogView
    decreases outcomes.len(),
{
    if outcomes.len() == 0 {
        c
    } else {
        absorbed(folded(c, outcomes.drop_last()), outcomes.last())
    }
}

/// The mappings behind a list of shared handles.
pub open spec fn shared_defs(handles: Seq<Rc<MappingDef>>) -> Seq<MappingDef> {
    Seq::new(handles.len(), |i: int| *handles[i])
}

/// The names of those mappings of a list that start at the kind, in order.
pub open spec fn names_from(defs: Seq<MappingDef>, source_kind: Seq<char>) -> Seq<Seq<char>>
    decreases defs.len(),
{
    if defs.len() == 0 {
        Seq::<Seq<char>>::empty()
    } else if defs.last().source_kind@ == source_kind {
        names_from(defs.drop_last(), source_kind).push(defs.last().name@)
    } else {
        names_from(defs.drop_last(), source_kind)
    }
}

/// The names of the mappings that start at a kind are the names filed
/// under that kind.
pub proof fn lemma_names_from(defs: Seq<MappingDef>, source_kind: Seq<char>, name: Seq<char>)
    ensures
        names_from(defs, source_kind).contains(name) <==> has_key(
            mapping_pairs(defs),
            (source_kind, name),
        ),
    decreases defs.len(),
{
    let key = (source_kind, name);
    let pairs = mapping_pairs(defs);
    let names = names_from(defs, source_kind);
    if defs.len() > 0 {
        let init = defs.drop_last();
        let before = names_from(init, source_kind);
        lemma_names_from(init, source_kind, name);
        if names.contains(name) {
            let j = choose|j: int| 0 <= j < names.len() && names[j] == name;
            if j < before.len() {
                assert(before[j] == name);
                let i = choose|i: int|
                    0 <= i < init.len() && (#[trigger] mapping_pairs(init)[i]).0 == key;
                assert(pairs[i].0 == key);
            } else {
                assert(pairs[defs.len() - 1].0 == key);
            }
        }
        if has_key(pairs, key) {
            let i = choose|i: int| 0 <= i < pairs.len() && (#[trigger] pairs[i]).0 == key;
            if i < init.len() {
                assert(mapping_pairs(init)[i].0 == key);
                let j = choose|j: int| 0 <= j < before.len() && before[j] == name;
                assert(names[j] == name);
            } else {
                assert(names[names.len() - 1] == name);
            }
        }
    }
}

/// The merged catalog. Each kind stands once, each mapping once under its
/// own origin kind and name, each plugin tag once.
pub struct All {
    pub kinds: Vec<(KindId, KindDef)>,
    pub mappings: Vec<Rc<MappingDef>>,
    pub known_plugins: Vec<String>,
    pub errors: Vec<SourceError>,
}

impl View for All {
    type V = CatalogView;

    open spec fn view(&self) -> CatalogView {
        CatalogView {
            kinds: pair_map(kind_pairs(self.kinds@)),
            mappings: pair_map(mapping_pairs(shared_defs(self.mappings@))),
            plugins: string_views(self.known_plugins@).to_set(),
            errors: self.errors@,
        }
    }
}

impl All {
    /// No identifier, no pair of origin kind and name, and no plugin tag
    /// stands twice.
    pub open spec fn wf(&self) -> bool {
        &&& distinct_keys(kind_pairs(self.kinds@))
        &&& distinct_keys(mapping_pairs(shared_defs(self.mappings@)))
        &&& string_views(self.known_plugins@).no_duplicates()
    }

    /// The empty catalog.
    pub fn new() -> (r: All)
        ensures
            r.wf(),
            r@ == empty_catalog(),
    {
        let r = All {
            kinds: Vec::new(),
            mappings: Vec::new(),
            known_plugins: Vec::new(),
            errors: Vec::new(),
        };
        proof {
            assert(r@.plugins =~= Set::<Seq<char>>::empty());
            assert(r@.errors =~= Seq::<SourceError>::empty());
        }
        r
    }

    /// Where the kind stands in the list, if it does.
    pub fn kind_position(&self, id: &KindId) -> (r: Option<usize>)
        ensures
            match r {
                Some(i) => {
                    &&& i < self.kinds@.len()
                    &&& self.kinds@[i as int].0@ == id@
                    &&& forall|j: int|
                        0 <= j < i ==> (#[trigger] kind_pairs(self.kinds@)[j]).0 != id@
                },
                None => !has_key(kind_pairs(self.kinds@), id@),
            },
    {
        let mut i: usize = 0;
        while i < self.kinds.len()
            invariant
                i <= self.kinds@.len(),
                forall|j: int| 0 <= j < i ==> (#[trigger] kind_pairs(self.kinds@)[j]).0 != id@,
            decreases self.kinds@.len() - i,
        {
            if self.kinds[i].0.0 == id.0 {
                return Some(i);
            }
            proof {
                assert(kind_pairs(self.kinds@)[i as int].0 == self.kinds@[i as int].0@);
            }
            i = i + 1;
        }
        None
    }

    /// Files a kind under its identifier, in place of the kind that stood
    /// there.
    pub fn put_kind(&mut self, id: KindId, def: KindDef)
        requires
            old(self).wf(),
        ensures
            final(self).wf(),
            final(self)@ == (CatalogView {
                kinds: old(self)@.kinds.insert(id@, def),
                mappings: old(self)@.mappings,
                plugins: old(self)@.plugins,
                errors: old(self)@.errors,
            }),
    {
        let ghost before = kind_pairs(self.kinds@);
        match self.kind_position(&id) {
            Some(i) => {
                proof {
                    lemma_pair_map_replace(before, i as int, def);
                }
                self.kinds.set(i, (id, def));
                proof {
                    assert(kind_pairs(self.kinds@) =~= before.update(
                        i as int,
                        (before[i as int].0, def),
                    ));
                }
            },
            None => {
                proof {
                    lemma_pair_map_push(before, id@, def);
                }
                self.kinds.push((id, def));
                proof {
                    assert(kind_pairs(self.kinds@) =~= before.push((id@, def)));
                }
            },
        }
    }

    /// Whether the plugin tag is known.
    pub fn knows_plugin(&self, tag: &String) -> (r: bool)
        ensures
            r == self@.plugins.contains(tag@),
    {
        tag_position(&self.known_plugins, tag).is_some()
    }

    /// Adds the plugin tag to the known ones.
    pub fn note_plugin(&mut self, tag: &String)
        requires
            old(self).wf(),
        ensures
            final(self).wf(),
            final(self)@ == (CatalogView {
                kinds: old(self)@.kinds,
                mappings: old(self)@.mappings,
                plugins: old(self)@.plugins.insert(tag@),
                errors: old(self)@.errors,
            }),
    {
        let ghost before = string_views(self.known_plugins@);
        if !self.knows_plugin(tag) {
            self.known_plugins.push(tag.clone());
            proof {
                assert(string_views(self.known_plugins@) =~= before.push(tag@));
                lemma_push_to_set(before, tag@);
            }
        } else {
            proof {
                assert(before.to_set() =~= before.to_set().insert(tag@));
            }
        }
    }

    /// Where the mapping of that origin kind and name stands in the list, if
    /// it does.
    pub fn mapping_position(&self, source_kind: &KindId, name: &MappingName) -> (r: Option<usize>)
        ensures
            match r {
                Some(i) => {
                    &&& i < self.mappings@.len()
                    &&& self.mappings@[i as int].key() == (source_kind@, name@)
                    &&& forall|j: int|
                        0 <= j < i ==> (#[trigger] mapping_pairs(shared_defs(self.mappings@))[j]).0
                            != (source_kind@, name@)
                },
                None => !has_key(
                    mapping_pairs(shared_defs(self.mappings@)),
                    (source_kind@, name@),
                ),
            },
    {
        let mut i: usize = 0;
        while i < self.mappings.len()
            invariant
                i <= self.mappings@.len(),
                forall|j: int|
                    0 <= j < i ==> (#[trigger] mapping_pairs(shared_defs(self.mappings@))[j]).0
                        != (source_kind@, name@),
            decreases self.mappings@.len() - i,
        {
            if self.mappings[i].source_kind.0 == source_kind.0 && self.mappings[i].name.0
                == name.0 {
                return Some(i);
            }
            proof {
                assert(mapping_pairs(shared_defs(self.mappings@))[i as int].0
                    == self.mappings@[i as int].key());
            }
            i = i + 1;
        }
        None
    }

    /// Files a mapping under its own origin kind and name, in place of the
    /// mapping that stood there, and notes the plugin tag it declares.
    pub fn put_mapping(&mut self, def: MappingDef)
        requires
            old(self).wf(),
        ensures
            final(self).wf(),
            final(self)@ == (CatalogView {
                kinds: old(self)@.kinds,
                mappings: old(self)@.mappings.insert(def.key(), def),
                plugins: match def.metadata.source_plugin {
                    Some(tag) => old(self)@.plugins.insert(tag@),
                    None => old(self)@.plugins,
                },
                errors: old(self)@.errors,
            }),
    {
        match &def.metadata.source_plugin {
            Some(tag) => {
                self.note_plugin(tag);
            },
            None => {},
        }
        let ghost before = mapping_pairs(shared_defs(self.mappings@));
        match self.mapping_position(&def.source_kind, &def.name) {
            Some(i) => {
                proof {
                    lemma_pair_map_replace(before, i as int, def);
                }
                self.mappings.set(i, Rc::new(def));
                proof {
                    assert(mapping_pairs(shared_defs(self.mappings@)) =~= before.update(
                        i as int,
                        (before[i as int].0, def),
                    ));
                }
            },
            None => {
                proof {
                    lemma_pair_map_push(before, def.key(), def);
                }
                self.mappings.push(Rc::new(def));
                proof {
                    assert(mapping_pairs(shared_defs(self.mappings@)) =~= before.push(
                        (def.key(), def),
                    ));
                }
            },
        }
    }

    /// The description of a kind, if the catalog has it.
    pub fn kind(&self, id: &KindId) -> (r: Option<&KindDef>)
        requires
            self.wf(),
        ensures
            match r {
                Some(def) => self@.kinds.dom().contains(id@) && *def == self@.kinds[id@],
                None => !self@.kinds.dom().contains(id@),
            },
    {
        proof {
            lemma_pair_map_dom(kind_pairs(self.kinds@), id@);
        }
        match self.kind_position(id) {
            Some(i) => {
                proof {
                    lemma_pair_map_at(kind_pairs(self.kinds@), i as int);
                }
                Some(&self.kinds[i].1)
            },
            None => None,
        }
    }

    /// The mapping of that origin kind and name, if the catalog has it.
    pub fn mapping(&self, source_kind: &KindId, name: &MappingName) -> (r: Option<
        Rc<MappingDef>,
    >)
        requires
            self.wf(),
        ensures
            match r {
                Some(def) => self@.mappings.dom().contains((source_kind@, name@)) && *def
                    == self@.mappings[(source_kind@, name@)],
                None => !self@.mappings.dom().contains((source_kind@, name@)),
            },
    {
        proof {
            lemma_pair_map_dom(
                mapping_pairs(shared_defs(self.mappings@)),
                (source_kind@, name@),
            );
        }
        match self.mapping_position(source_kind, name) {
            Some(i) => {
                proof {
                    lemma_pair_map_at(mapping_pairs(shared_defs(self.mappings@)), i as int);
                }
                Some(self.mappings[i].clone())
            },
            None => None,
        }
    }

    /// The names of all mappings that start at the kind, in the order in
    /// which the catalog holds them.
    pub fn sibling_names(&self, source_kind: &KindId) -> (names: Vec<MappingName>)
        ensures
            name_views(names@) == names_from(shared_defs(self.mappings@), source_kind@),
            forall|name: Seq<char>|
                name_views(names@).contains(name) <==> self@.mappings.dom().contains(
                    (source_kind@, name),
                ),
    {
        let ghost defs = shared_defs(self.mappings@);
        proof {
            assert forall|name: Seq<char>|
                names_from(defs, source_kind@).contains(name) <==> self@.mappings.dom().contains(
                    (source_kind@, name),
                ) by {
                lemma_names_from(defs, source_kind@, name);
                lemma_pair_map_dom(mapping_pairs(defs), (source_kind@, name));
            }
        }
        let mut names: Vec<MappingName> = Vec::new();
        let mut i: usize = 0;
        proof {
            assert(defs.take(0) =~= Seq::<MappingDef>::empty());
            assert(name_views(names@) =~= Seq::<Seq<char>>::empty());
        }
        while i < self.mappings.len()
            invariant
                i <= self.mappings@.len(),
                defs == shared_defs(self.mappings@),
                name_views(names@) == names_from(defs.take(i as int), source_kind@),
            decreases self.mappings@.len() - i,
        {
            proof {
                let upto = defs.take(i + 1);
                assert(upto.drop_last() =~= defs.take(i as int));
                assert(upto.last() == *self.mappings@[i as int]);
            }
            if self.mappings[i].source_kind.0 == source_kind.0 {
                let ghost before = names@;
                names.push(MappingName(self.mappings[i].name.0.clone()));
                proof {
                    assert(name_views(names@) =~= name_views(before).push(
                        self.mappings@[i as int].name@,
                    ));
                }
            }
            i = i + 1;
        }
        proof {
            assert(defs.take(defs.len() as int) =~= defs);
        }
        names
    }

    /// The short form of a mapping name among the mappings that start at
    /// the same kind.
    pub fn short_name(&self, source_kind: &KindId, name: &MappingName) -> (out: String)
        ensures
            out@ == minified(name@, names_from(shared_defs(self.mappings@), source_kind@)),
    {
        let siblings = self.sibling_names(source_kind);
        name.minify(&siblings)
    }

    /// Folds one schema into the catalog: its kinds, then its mappings.
    pub fn merge(&mut self, schema: SourceSchema)
        requires
            old(self).wf(),
        ensures
            final(self).wf(),
            final(self)@ == with_schema(old(self)@, schema),
    {
        let ghost start = self@;
        let ghost ks = schema.kinds@;
        let ghost ms = schema.mappings@;
        let SourceSchema { kinds, mappings } = schema;
        proof {
            assert(ks.take(0) =~= Seq::<(KindId, KindDef)>::empty());
            assert(start.kinds.union_prefer_right(pair_map(kind_pairs(ks.take(0))))
                =~= start.kinds);
        }
        for entry in it: kinds.into_iter()
            invariant
                it.seq() == ks,
                self.wf(),
                self@.kinds == start.kinds.union_prefer_right(
                    pair_map(kind_pairs(ks.take(it.index() as int))),
                ),
                self@.mappings == start.mappings,
                self@.plugins == start.plugins,
                self@.errors == start.errors,
        {
            let ghost done = kind_pairs(ks.take(it.index() as int));
            let (id, def) = entry;
            proof {
                assert(kind_pairs(ks.take(it.index() + 1)) =~= done.push((id@, def)));
                lemma_pair_map_push(done, id@, def);
                assert(start.kinds.union_prefer_right(pair_map(done).insert(id@, def))
                    =~= start.kinds.union_prefer_right(pair_map(done)).insert(id@, def));
            }
            self.put_kind(id, def);
        }
        proof {
            assert(ks.take(ks.len() as int) =~= ks);
            assert(ms.take(0) =~= Seq::<MappingDef>::empty());
            assert(start.mappings.union_prefer_right(pair_map(mapping_pairs(ms.take(0))))
                =~= start.mappings);
            assert(start.plugins.union(plugin_tags(ms.take(0))) =~= start.plugins);
        }
        for def in it: mappings.into_iter()
            invariant
                it.seq() == ms,
                self.wf(),
                self@.kinds == start.kinds.union_prefer_right(pair_map(kind_pairs(ks))),
                self@.mappings == start.mappings.union_prefer_right(
                    pair_map(mapping_pairs(ms.take(it.index() as int))),
                ),
                self@.plugins == start.plugins.union(plugin_tags(ms.take(it.index() as int))),
                self@.errors == start.errors,
        {
            let ghost done = mapping_pairs(ms.take(it.index() as int));
            proof {
                let upto = ms.take(it.index() + 1);
                assert(upto.drop_last() =~= ms.take(it.index() as int));
                assert(upto.last() == def);
                assert(mapping_pairs(upto) =~= done.push((def.key(), def)));
                lemma_pair_map_push(done, def.key(), def);
                assert(start.mappings.union_prefer_right(pair_map(done).insert(def.key(), def))
                    =~= start.mappings.union_prefer_right(pair_map(done)).insert(
                    def.key(),
                    def,
                ));
                if def.metadata.source_plugin is Some {
                    let tag = def.metadata.source_plugin->0@;
                    assert(start.plugins.union(
                        plugin_tags(ms.take(it.index() as int)).insert(tag),
                    ) =~= start.plugins.union(
                        plugin_tags(ms.take(it.index() as int)),
                    ).insert(tag));
                }
            }
            self.put_mapping(def);
        }
        proof {
            assert(ms.take(ms.len() as int) =~= ms);
        }
    }

    /// Freezes the catalog behind a shared handle, or refuses it where it
    /// has no kind.
    pub fn freeze(self) -> (r: Result<Data, AggregateError>)
        requires
            self.wf(),
        ensures
            match r {
                Ok(data) => data.all() == self && self@.kinds.dom().len() > 0,
                Err(e) => e is EmptyCatalog && self@.kinds == Map::<Seq<char>, KindDef>::empty(),
            },
    {
        proof {
            lemma_pair_map_len(kind_pairs(self.kinds@));
        }
        if self.kinds.len() == 0 {
            Err(AggregateError::EmptyCatalog)
        } else {
            Ok(Data::new(self))
        }
    }

    /// Records the failure of one source.
    pub fn record_failure(&mut self, error: SourceError)
        requires
            old(self).wf(),
        ensures
            final(self).wf(),
            final(self)@ == with_failure(old(self)@, error),
    {
        self.errors.push(error);
    }

    /// Folds the outcomes of a list of sources into the catalog, in order:
    /// each schema is merged, each failure recorded.
    pub fn extend(&mut self, outcomes: Vec<Result<SourceSchema, SourceError>>)
        requires
            old(self).wf(),
        ensures
            final(self).wf(),
            final(self)@ == folded(old(self)@, outcomes@),
    {
        let ghost start = self@;
        let ghost all = outcomes@;
        proof {
            assert(all.take(0) =~= Seq::<Result<SourceSchema, SourceError>>::empty());
        }
        for outcome in it: outcomes.into_iter()
            invariant
                it.seq() == all,
                self.wf(),
                self@ == folded(start, all.take(it.index() as int)),
        {
            proof {
                let upto = all.take(it.index() + 1);
                assert(upto.drop_last() =~= all.take(it.index() as int));
                assert(upto.last() == outcome);
            }
            match outcome {
                Ok(schema) => {
                    self.merge(schema);
                },
                Err(error) => {
                    self.record_failure(error);
                },
            }
        }
        proof {
            assert(all.take(all.len() as int) =~= all);
        }
    }
}

/// Why no catalog came of an aggregation.
#[derive(Debug)]
pub enum AggregateError {
    /// The list of sources could not be read.
    Manifest(ManifestError),
    /// No source gave a kind.
    EmptyCatalog,
}

/// A shared, read-only handle on a finished catalog.
#[derive(Clone)]
pub struct Data(pub Rc<All>);

/// `Rc::ptr_eq` of std: whether two handles point to one allocation. Two
/// that do hold one and the same catalog; of two that do not, nothing is
/// claimed.
#[verifier::external_body]
fn same_allocation(a: &Rc<All>, b: &Rc<All>) -> (r: bool)
    ensures
        r ==> *a == *b,
{
    Rc::ptr_eq(a, b)
}

impl Data {
    /// Whether the two handles are handles on one snapshot. Two snapshots
    /// with equal contents are still two.
    pub fn same_snapshot(&self, other: &Data) -> (r: bool)
        ensures
            r ==> self.all() == other.all(),
    {
        same_allocation(&self.0, &other.0)
    }

    /// The catalog behind the handle.
    pub open spec fn all(&self) -> All {
        *self.0
    }

    /// Freezes a catalog behind a handle.
    pub fn new(all: All) -> (r: Data)
        ensures
            r.all() == all,
    {
        Data(Rc::new(all))
    }

    /// The catalog behind the handle.
    pub fn catalog(&self) -> (r: &All)
        ensures
            *r == self.all(),
    {
        &self.0
    }
}

/// Builds the catalog of one aggregation from the outcomes of its sources.
/// A catalog without a kind is refused, whatever else was loaded.
pub fn aggregate(outcomes: Vec<Result<SourceSchema, SourceError>>) -> (r: Result<
    Data,
    AggregateError,
>)
    ensures
        match r {
            Ok(data) => {
                &&& data.all().wf()
                &&& data.all()@ == folded(empty_catalog(), outcomes@)
                &&& data.all()@.kinds.dom().len() > 0
            },
            Err(e) => {
                &&& e is EmptyCatalog
                &&& folded(empty_catalog(), outcomes@).kinds == Map::<Seq<char>, KindDef>::empty()
            },
        },
        r is Ok ==> r->Ok_0.all()@.errors.len() == failures(outcomes@),
        all_failed(outcomes@) ==> r is Err,
        some_source_gave_kinds(outcomes@) ==> r is Ok,
{
    let mut all = All::new();
    let ghost given = outcomes@;
    all.extend(outcomes);
    proof {
        lemma_folded_errors(empty_catalog(), given);
        if all_failed(given) {
            lemma_all_failed(empty_catalog(), given);
        }
        if some_source_gave_kinds(given) {
            let i = choose|i: int| gave_kinds(given, i);
            lemma_success_gives_kinds(empty_catalog(), given, i);
        }
    }
    all.freeze()
}

/// How many of the outcomes are failures.
pub open spec fn failures(outcomes: Seq<Result<SourceSchema, SourceError>>) -> nat
    decreases outcomes.len(),
{
    if outcomes.len() == 0 {
        0
    } else if outcomes.last() is Err {
        failures(outcomes.drop_last()) + 1
    } else {
        failures(outcomes.drop_last())
    }
}

/// Whether every outcome is a failure.
pub open spec fn all_failed(outcomes: Seq<Result<SourceSchema, SourceError>>) -> bool {
    forall|i: int| 0 <= i < outcomes.len() ==> #[trigger] outcomes[i] is Err
}

/// Whether the outcome at `i` is a schema with at least one kind.
pub open spec fn gave_kinds(outcomes: Seq<Result<SourceSchema, SourceError>>, i: int) -> bool {
    &&& 0 <= i < outcomes.len()
    &&& outcomes[i] is Ok
    &&& outcomes[i]->Ok_0.kinds@.len() > 0
}

/// Whether some outcome is a schema with at least one kind.
pub open spec fn some_source_gave_kinds(outcomes: Seq<Result<SourceSchema, SourceError>>)
    -> bool {
    exists|i: int| gave_kinds(outcomes, i)
}

/// A fold adds one recorded failure for each failed outcome, and no other.
pub proof fn lemma_folded_errors(c: CatalogView, outcomes: Seq<Result<SourceSchema, SourceError>>)
    ensures
        folded(c, outcomes).errors.len() == c.errors.len() + failures(outcomes),
    decreases outcomes.len(),
{
    if outcomes.len() > 0 {
        lemma_folded_errors(c, outcomes.drop_last());
    }
}

/// Where every source failed, the fold leaves kinds, mappings and plugin
/// tags as they were.
pub proof fn lemma_all_failed(c: CatalogView, outcomes: Seq<Result<SourceSchema, SourceError>>)
    requires
        all_failed(outcomes),
    ensures
        folded(c, outcomes).kinds == c.kinds,
        folded(c, outcomes).mappings == c.mappings,
        folded(c, outcomes).plugins == c.plugins,
    decreases outcomes.len(),
{
    if outcomes.len() > 0 {
        let init = outcomes.drop_last();
        assert forall|i: int| 0 <= i < init.len() implies #[trigger] init[i] is Err by {
            assert(outcomes[i] is Err);
        }
        lemma_all_failed(c, init);
        assert(outcomes[outcomes.len() - 1] is Err);
    }
}

/// Folding two lists of outcomes one after the other is folding them as one
/// list.
pub proof fn lemma_folded_in_batches(
    c: CatalogView,
    first: Seq<Result<SourceSchema, SourceError>>,
    second: Seq<Result<SourceSchema, SourceError>>,
)
    ensures
        folded(folded(c, first), second) == folded(c, first + second),
    decreases second.len(),
{
    if second.len() == 0 {
        assert(first + second =~= first);
    } else {
        lemma_folded_in_batches(c, first, second.drop_last());
        assert((first + second).drop_last() =~= first + second.drop_last());
        assert((first + second).last() == second.last());
    }
}

/// A fold never drops a kind.
pub proof fn lemma_kinds_kept(
    c: CatalogView,
    outcomes: Seq<Result<SourceSchema, SourceError>>,
    id: Seq<char>,
)
    requires
        c.kinds.dom().contains(id),
    ensures
        folded(c, outcomes).kinds.dom().contains(id),
    decreases outcomes.len(),
{
    if outcomes.len() > 0 {
        lemma_kinds_kept(c, outcomes.drop_last(), id);
    }
}

/// Where the source at `i` gave a schema with a kind, the folded catalog
/// has a kind.
pub proof fn lemma_success_gives_kinds(
    c: CatalogView,
    outcomes: Seq<Result<SourceSchema, SourceError>>,
    i: int,
)
    requires
        gave_kinds(outcomes, i),
    ensures
        folded(c, outcomes).kinds.dom().contains(outcomes[i]->Ok_0.kinds@[0].0@),
        folded(c, outcomes).kinds != Map::<Seq<char>, KindDef>::empty(),
    decreases outcomes.len(),
{
    let id = outcomes[i]->Ok_0.kinds@[0].0@;
    let init = outcomes.drop_last();
    if i == outcomes.len() - 1 {
        let pairs = kind_pairs(outcomes[i]->Ok_0.kinds@);
        assert(pairs[0].0 == id);
        lemma_pair_map_dom(pairs, id);
    } else {
        assert(init[i] == outcomes[i]);
        lemma_success_gives_kinds(c, init, i);
    }
    assert(!Map::<Seq<char>, KindDef>::empty().dom().contains(id));
}

/// Two schemas that agree wherever both define a kind or a mapping can be
/// merged in either order: the catalog is the same.
pub proof fn lemma_merge_order(c: CatalogView, a: SourceSchema, b: SourceSchema)
    requires
        forall|id: Seq<char>|
            pair_map(kind_pairs(a.kinds@)).dom().contains(id) && pair_map(
                kind_pairs(b.kinds@),
            ).dom().contains(id) ==> pair_map(kind_pairs(a.kinds@))[id] == pair_map(
                kind_pairs(b.kinds@),
            )[id],
        forall|key: (Seq<char>, Seq<char>)|
            pair_map(mapping_pairs(a.mappings@)).dom().contains(key) && pair_map(
                mapping_pairs(b.mappings@),
            ).dom().contains(key) ==> pair_map(mapping_pairs(a.mappings@))[key] == pair_map(
                mapping_pairs(b.mappings@),
            )[key],
    ensures
        with_schema(with_schema(c, a), b) == with_schema(with_schema(c, b), a),
{
    let ab = with_schema(with_schema(c, a), b);
    let ba = with_schema(with_schema(c, b), a);
    assert(ab.kinds =~= ba.kinds);
    assert(ab.mappings =~= ba.mappings);
    assert(ab.plugins =~= ba.plugins);
}

/// Of two schemas merged one after the other, the later one decides each
/// kind and each mapping that it defines; what it leaves out stays as the
/// earlier merge left it.
pub proof fn lemma_last_schema_wins(c: CatalogView, a: SourceSchema, b: SourceSchema)
    ensures
        forall|id: Seq<char>| #[trigger]
            pair_map(kind_pairs(b.kinds@)).dom().contains(id) ==> with_schema(
                with_schema(c, a),
                b,
            ).kinds[id] == pair_map(kind_pairs(b.kinds@))[id],
        forall|id: Seq<char>|
            !(#[trigger] pair_map(kind_pairs(b.kinds@)).dom().contains(id)) && with_schema(
                c,
                a,
            ).kinds.dom().contains(id) ==> with_schema(with_schema(c, a), b).kinds[id]
                == with_schema(c, a).kinds[id],
        forall|key: (Seq<char>, Seq<char>)| #[trigger]
            pair_map(mapping_pairs(b.mappings@)).dom().contains(key) ==> with_schema(
                with_schema(c, a),
                b,
            ).mappings[key] == pair_map(mapping_pairs(b.mappings@))[key],
{
}

/// Every mapping of a catalog stands under its own origin kind and its own
/// name.
pub proof fn lemma_keyed_by_own_name(all: All, key: (Seq<char>, Seq<char>))
    requires
        all@.mappings.dom().contains(key),
    ensures
        all@.mappings[key].key() == key,
{
    let pairs = mapping_pairs(shared_defs(all.mappings@));
    lemma_pair_map_value(pairs, key);
    let i = choose|i: int|
        0 <= i < pairs.len() && #[trigger] pairs[i] == (key, pair_map(pairs)[key]);
    assert(pairs[i].0 == pairs[i].1.key());
}

/// Every mapping that a fold from the empty catalog holds stands under its
/// own origin kind and its own name.
pub proof fn lemma_folded_keyed_by_own_name(
    outcomes: Seq<Result<SourceSchema, SourceError>>,
    key: (Seq<char>, Seq<char>),
)
    requires
        folded(empty_catalog(), outcomes).mappings.dom().contains(key),
    ensures
        folded(empty_catalog(), outcomes).mappings[key].key() == key,
    decreases outcomes.len(),
{
    if outcomes.len() > 0 {
        let init = outcomes.drop_last();
        match outcomes.last() {
            Ok(schema) => {
                let pairs = mapping_pairs(schema.mappings@);
                if pair_map(pairs).dom().contains(key) {
                    lemma_pair_map_value(pairs, key);
                    let i = choose|i: int|
                        0 <= i < pairs.len() && #[trigger] pairs[i] == (
                            key,
                            pair_map(pairs)[key],
                        );
                    assert(pairs[i].0 == pairs[i].1.key());
                } else {
                    lemma_folded_keyed_by_own_name(init, key);
                }
            },
            Err(_) => {
                lemma_folded_keyed_by_own_name(init, key);
            },
        }
    }
}

} // verus!
