//! One aggregation from start to finish: the source list names the sources
//! to fetch, each fetched source is folded into the catalog as it arrives,
//! and the catalog is frozen once every source has answered.

use crate::catalog::{absorbed, empty_catalog, AggregateError, All, Data};
use crate::manifest::{manifest_locators, parse_manifest, ManifestError};
use crate::schema::{KindDef, SourceError, SourceSchema};
use crate::text::string_views;
use vstd::prelude::*;

verus! {

/// What fetching one source came to.
pub enum Fetched {
    /// The source was retrieved and is a schema document.
    Schema(SourceSchema),
    /// The source could not be retrieved.
    Unreachable(String),
    /// The source was retrieved but is no schema document.
    Malformed(String),
}

/// The outcome of one source: its schema, or its failure tagged with the
/// locator it was fetched from.
pub open spec fn outcome(locator: String, fetched: Fetched) -> Result<SourceSchema, SourceError> {
    match fetched {
        Fetched::Schema(schema) => Ok(schema),
        Fetched::Unreachable(detail) => Err(SourceError::Fetch { locator, detail }),
        Fetched::Malformed(detail) => Err(SourceError::Parse { locator, detail }),
    }
}

/// The outcome of one source: its schema, or its failure tagged with the
/// locator it was fetched from.
pub fn outcome_of(locator: &String, fetched: Fetched) -> (r: Result<SourceSchema, SourceError>)
    ensures
        r == outcome(*locator, fetched),
{
    match fetched {
        Fetched::Schema(schema) => Ok(schema),
        Fetched::Unreachable(detail) => Err(SourceError::Fetch { locator: locator.clone(), detail }),
        Fetched::Malformed(detail) => Err(SourceError::Parse { locator: locator.clone(), detail }),
    }
}

/// An aggregation under way: the sources to fetch, which of them have
/// answered, and the catalog folded from the answers so far.
pub struct Aggregation {
    pub locators: Vec<String>,
    pub done: Vec<bool>,
    pub catalog: All,
}

impl Aggregation {
    /// Each source has its mark, and the catalog is well formed.
    pub open spec fn wf(&self) -> bool {
        &&& self.done@.len() == self.locators@.len()
        &&& self.catalog.wf()
    }

    /// Whether every source has answered.
    pub open spec fn complete(&self) -> bool {
        forall|i: int| 0 <= i < self.done@.len() ==> #[trigger] self.done@[i]
    }

    /// Starts an aggregation from the text of the source list. A text that
    /// is no source list ends it at once; otherwise every locator of the
    /// list awaits its fetch and the catalog is empty.
    pub fn start(manifest: &str) -> (r: Result<Aggregation, AggregateError>)
        ensures
            match r {
                Ok(agg) => {
                    &&& agg.wf()
                    &&& manifest_locators(manifest@) == Ok::<Seq<Seq<char>>, ManifestError>(
                        string_views(agg.locators@),
                    )
                    &&& forall|i: int| 0 <= i < agg.done@.len() ==> !#[trigger] agg.done@[i]
                    &&& agg.catalog@ == empty_catalog()
                },
                Err(e) => manifest_locators(manifest@) is Err && e == AggregateError::Manifest(
                    manifest_locators(manifest@)->Err_0,
                ),
            },
    {
        match parse_manifest(manifest) {
            Ok(locators) => {
                let mut done: Vec<bool> = Vec::new();
                let mut i: usize = 0;
                while i < locators.len()
                    invariant
                        i <= locators@.len(),
                        done@.len() == i,
                        forall|j: int| 0 <= j < i ==> !#[trigger] done@[j],
                    decreases locators@.len() - i,
                {
                    done.push(false);
                    i = i + 1;
                }
                Ok(Aggregation { locators, done, catalog: All::new() })
            },
            Err(e) => Err(AggregateError::Manifest(e)),
        }
    }

    /// Whether every source has answered.
    pub fn is_complete(&self) -> (r: bool)
        ensures
            r == self.complete(),
    {
        let mut i: usize = 0;
        while i < self.done.len()
            invariant
                i <= self.done@.len(),
                forall|j: int| 0 <= j < i ==> #[trigger] self.done@[j],
            decreases self.done@.len() - i,
        {
            if !self.done[i] {
                return false;
            }
            i = i + 1;
        }
        true
    }

    /// Takes the answer of one source that has not answered yet: marks the
    /// source, and folds its schema or its failure into the catalog.
    pub fn absorb(&mut self, source: usize, fetched: Fetched)
        requires
            old(self).wf(),
            source < old(self).locators@.len(),
            !old(self).done@[source as int],
        ensures
            final(self).wf(),
            final(self).locators == old(self).locators,
            final(self).done@ == old(self).done@.update(source as int, true),
            final(self).catalog@ == absorbed(
                old(self).catalog@,
                outcome(old(self).locators@[source as int], fetched),
            ),
    {
        let result = outcome_of(&self.locators[source], fetched);
        self.done.set(source, true);
        match result {
            Ok(schema) => {
                self.catalog.merge(schema);
            },
            Err(error) => {
                self.catalog.record_failure(error);
            },
        }
    }

    /// Ends the aggregation once every source has answered: freezes the
    /// catalog, or refuses it where it has no kind.
    pub fn finish(self) -> (r: Result<Data, AggregateError>)
        requires
            self.wf(),
            self.complete(),
        ensures
            match r {
                Ok(data) => data.all() == self.catalog && self.catalog@.kinds.dom().len() > 0,
                Err(e) => e is EmptyCatalog && self.catalog@.kinds == Map::<
                    Seq<char>,
                    KindDef,
                >::empty(),
            },
    {
        self.catalog.freeze()
    }
}

} // verus!
