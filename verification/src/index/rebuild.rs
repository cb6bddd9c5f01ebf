//! Rebuilding physical indexes from canonical nodes and vectors.

use crate::algorithms::traversal::marked;
use crate::error::{fails_with, Error, ErrorCode, Result};
use crate::index::ann::{kept_positions, remapped, IvfPqIndex};
use crate::index::catalog::{
    build_diagnostic, build_scalar_runtime, corrupt, create_fault, created, distinct_rows, entry_added,
    is_vector,
    lemma_shared_key, new_entry, shared_key, unavailable, unbuildable, IndexCatalog, IndexEntry,
    RuntimeIndex,
};
use crate::index::maintenance::lemma_one_entry;
use crate::index::nodes::{validate_unique, NodeRecord};
use crate::index::plan::{
    ivf_config_for_shape, spec_config_for_shape, IvfPqConfig, IVF_PQ_MIN_RECALL_BASIS_POINTS,
};
use crate::index::profile::{
    same_digest, DerivedIndexState, GraphIndexDefinition, GraphIndexKind, SchemaNames,
};
use crate::index::vectors::{filtered_rows, VectorIndex};
use crate::persistent::radix::PersistentMap;
use crate::shared::{clone_faithful, lemma_handle_faithful, Handle};
use crate::values::PropertyId;
use vstd::prelude::*;

verus! {

/// A definition that an index can be built by.
pub open spec fn sound_definition(definition: GraphIndexDefinition) -> bool {
    &&& definition.kind == GraphIndexKind::Text || definition.kind == GraphIndexKind::Vector
        ==> definition.properties@.len() == 1
    &&& definition.unique ==> definition.kind == GraphIndexKind::Equality
}

/// The builder takes every matrix.
pub open spec fn builds<F: FnMut(&VectorIndex, IvfPqConfig) -> Result<IvfPqIndex>>(
    builder: F,
) -> bool {
    forall|source: &VectorIndex, config: IvfPqConfig| #[trigger]
        call_requires(builder, (source, config))
}

/// The parameters of the pages of a matrix.
pub open spec fn matrix_config(source: VectorIndex) -> IvfPqConfig {
    spec_config_for_shape(marked(source.active@) as int, source.dimension as int)
}

/// The pages were validated: enough recall on at least one query, and a generation.
pub open spec fn validated(pages: IvfPqIndex) -> bool {
    &&& pages.recall_basis_points >= IVF_PQ_MIN_RECALL_BASIS_POINTS
    &&& pages.validation_queries > 0
    &&& pages.build_generation@ != Seq::new(32, |i: int| 0u8)
}

/// What a builder gave is published only where it was validated.
pub open spec fn gated(built: Result<IvfPqIndex>, candidate: Result<Option<IvfPqIndex>>) -> bool {
    match built {
        Ok(pages) => if validated(pages) {
            candidate == Ok::<Option<IvfPqIndex>, Error>(Some(pages))
        } else {
            fails_with(
                candidate,
                ErrorCode::IndexUnavailable,
                "IVF-PQ builder returned an unvalidated generation"@,
            )
        },
        Err(error) => candidate == Err::<Option<IvfPqIndex>, Error>(error),
    }
}

/// Holds what a builder gave against the publication gate.
pub fn gate_pages(built: Result<IvfPqIndex>) -> (candidate: Result<Option<IvfPqIndex>>)
    ensures
        gated(built, candidate),
{
    match built {
        Ok(pages) => {
            let zero: [u8; 32] = [0u8; 32];
            assert(zero@ =~= Seq::new(32, |i: int| 0u8));
            if pages.recall_basis_points < IVF_PQ_MIN_RECALL_BASIS_POINTS
                || pages.validation_queries == 0 || same_digest(&pages.build_generation, &zero) {
                return unavailable("IVF-PQ builder returned an unvalidated generation");
            }
            Ok(Some(pages))
        },
        Err(error) => Err(error),
    }
}

/// The runtime is that of a vector index with these pages.
pub open spec fn is_vector_runtime(
    runtime: Option<RuntimeIndex>,
    property: PropertyId,
    pages: Option<IvfPqIndex>,
) -> bool {
    runtime matches Some(RuntimeIndex::Vector { property: held, approximate }) && held == property
        && match (approximate, pages) {
        (Some(handle), Some(pages)) => handle.spec_value() == pages,
        (None, None) => true,
        _ => false,
    }
}

/// A vector index after a build: new pages take the place of the old ones; after a failure the earlier
/// runtime stays online, and an index without one has failed.
pub open spec fn settled(
    before: IndexEntry,
    after: IndexEntry,
    property: PropertyId,
    candidate: Result<Option<IvfPqIndex>>,
) -> bool {
    &&& after.definition == before.definition
    &&& match candidate {
        Ok(pages) => {
            &&& after.state == DerivedIndexState::Online
            &&& after.diagnostic is None
            &&& is_vector_runtime(after.runtime, property, pages)
        },
        Err(error) => {
            &&& after.runtime == before.runtime
            &&& after.state == if before.runtime is None {
                DerivedIndexState::Failed
            } else {
                DerivedIndexState::Online
            }
            &&& after.diagnostic matches Some(text) && text@ == error.message@
        },
    }
}

impl IndexEntry {
    /// Takes the outcome of a build over.
    pub fn settle(&mut self, property: PropertyId, candidate: Result<Option<IvfPqIndex>>)
        requires
            old(self).wf(),
        ensures
            final(self).wf(),
            settled(*old(self), *final(self), property, candidate),
    {
        match candidate {
            Ok(pages) => {
                let approximate = match pages {
                    Some(pages) => Some(Handle::new(pages)),
                    None => None,
                };
                self.runtime = Some(RuntimeIndex::Vector { property, approximate });
                self.state = DerivedIndexState::Online;
                self.diagnostic = None;
            },
            Err(error) => {
                self.state = match &self.runtime {
                    Some(_) => DerivedIndexState::Online,
                    None => DerivedIndexState::Failed,
                };
                self.diagnostic = Some(error.message);
            },
        }
    }

    /// Builds a scalar index anew. A constraint that the nodes break stays as it was.
    #[verifier::rlimit(40)]
    #[verifier::spinoff_prover]
    pub fn rebuild_scalar(&mut self, nodes: &[NodeRecord]) -> (result: Result<()>)
        requires
            old(self).definition.kind != GraphIndexKind::Vector,
            sound_definition(old(self).definition),
            distinct_rows(nodes@),
        ensures
            match result {
                Ok(_) => {
                    &&& final(self).wf()
                    &&& new_entry(*final(self), old(self).definition, nodes@)
                },
                Err(error) => {
                    &&& *final(self) == *old(self)
                    &&& old(self).definition.unique
                    &&& broken_constraint(old(self).definition, nodes@, error)
                },
            },
    {
        let runtime = build_scalar_runtime(nodes, &self.definition);
        if self.definition.unique {
            match runtime {
                Ok(runtime) => {
                    match &runtime {
                        RuntimeIndex::Equality(index) => {
                            match validate_unique(&index.postings) {
                                Ok(_) => {},
                                Err(error) => {
                                    proof {
                                        lemma_shared_key(self.definition, nodes@, index.postings);
                                    }
                                    return Err(error);
                                },
                            }
                        },
                        _ => {
                            assert(false);
                        },
                    }
                    self.runtime = Some(runtime);
                    self.state = DerivedIndexState::Online;
                    self.diagnostic = None;
                    return Ok(());
                },
                Err(error) => {
                    return Err(error);
                },
            }
        }
        match runtime {
            Ok(runtime) => {
                self.runtime = Some(runtime);
                self.state = DerivedIndexState::Online;
                self.diagnostic = None;
            },
            Err(error) => {
                self.runtime = None;
                self.state = DerivedIndexState::Failed;
                self.diagnostic = Some(error.message);
            },
        }
        Ok(())
    }
}

/// Why a constraint cannot be built.
pub open spec fn broken_constraint(
    definition: GraphIndexDefinition,
    nodes: Seq<NodeRecord>,
    error: Error,
) -> bool {
    match error.code {
        ErrorCode::QueryType => unbuildable(definition, nodes) && error.message@
            == build_diagnostic(definition),
        ErrorCode::TransactionConflict => shared_key(definition, nodes) && error.message@
            == "existing data violates the requested uniqueness constraint"@,
        _ => false,
    }
}

/// A vector index that waits for its pages.
pub open spec fn pending(entry: IndexEntry) -> bool {
    entry.definition.kind == GraphIndexKind::Vector && entry.state == DerivedIndexState::Populating
}

/// What keeps a vector index from having a matrix.
pub open spec fn source_fault(catalog: IndexCatalog, entry: IndexEntry) -> Option<Seq<char>> {
    if entry.definition.properties@.len() == 0 {
        Some("vector index has no source property"@)
    } else if !catalog.vector_columns@.dom().contains(entry.definition.properties@[0].0 as u128) {
        Some("vector index has no canonical vector column"@)
    } else {
        None
    }
}

/// The matrix of a vector index.
pub open spec fn matrix_of(catalog: IndexCatalog, entry: IndexEntry) -> VectorIndex {
    catalog.vector_columns@[entry.definition.properties@[0].0 as u128].spec_value()
}

/// The outcome that a builder gives for a matrix; an empty matrix needs no pages.
pub open spec fn offered<F: FnMut(&VectorIndex, IvfPqConfig) -> Result<IvfPqIndex>>(
    builder: F,
    source: VectorIndex,
    candidate: Result<Option<IvfPqIndex>>,
) -> bool {
    if marked(source.active@) == 0 {
        candidate == Ok::<Option<IvfPqIndex>, Error>(None)
    } else {
        exists|built: Result<IvfPqIndex>| #[trigger]
            call_ensures(builder, (&source, matrix_config(source)), built) && gated(
                built,
                candidate,
            )
    }
}

/// The index after its build, or as it was where it waits for none.
pub open spec fn published<F: FnMut(&VectorIndex, IvfPqConfig) -> Result<IvfPqIndex>>(
    builder: F,
    catalog: IndexCatalog,
    before: IndexEntry,
    after: IndexEntry,
) -> bool {
    if pending(before) {
        exists|candidate: Result<Option<IvfPqIndex>>| #[trigger]
            offered(builder, matrix_of(catalog, before), candidate) && settled(
                before,
                after,
                before.definition.properties@[0],
                candidate,
            )
    } else {
        after == before
    }
}

impl IndexCatalog {
    /// The first waiting index without a matrix is at the place, and this is said of it.
    pub open spec fn first_source_fault(&self, place: int, message: Seq<char>) -> bool {
        &&& 0 <= place < self.entries@.len()
        &&& pending(self.entries@[place])
        &&& source_fault(*self, self.entries@[place]) == Some(message)
        &&& forall|i: int|
            0 <= i < place && pending(#[trigger] self.entries@[i]) ==> source_fault(
                *self,
                self.entries@[i],
            ) is None
    }

    /// Builds every waiting vector generation with a builder, and replaces each runtime only after the
    /// pages are found to be validated.
    #[verifier::rlimit(40)]
    #[verifier::spinoff_prover]
    pub fn rebuild_vectors_with<F: FnMut(&VectorIndex, IvfPqConfig) -> Result<IvfPqIndex>>(
        &mut self,
        builder: F,
    ) -> (result: Result<()>)
        requires
            old(self).wf(),
            builds(builder),
        ensures
            final(self).wf(),
            *final(self) == (IndexCatalog { entries: final(self).entries, ..*old(self) }),
            final(self).entries@.len() == old(self).entries@.len(),
            match result {
                Ok(_) => forall|i: int|
                    0 <= i < old(self).entries@.len() ==> published(
                        builder,
                        *old(self),
                        old(self).entries@[i],
                        #[trigger] final(self).entries@[i],
                    ) && (pending(old(self).entries@[i]) ==> source_fault(
                        *old(self),
                        old(self).entries@[i],
                    ) is None),
                Err(error) => exists|place: int|
                    {
                        &&& #[trigger] old(self).first_source_fault(place, error.message@)
                        &&& error.code == ErrorCode::CorruptStorage
                        &&& published_before(builder, *old(self), *final(self), place)
                    },
            },
    {
        let mut build = builder;
        let ghost before = *self;
        let total: usize = self.entries.len();
        for index in 0..total
            invariant
                before == *old(self),
                before.wf(),
                build == builder,
                builds(builder),
                total == before.entries@.len(),
                self.wf(),
                *self == (IndexCatalog { entries: self.entries, ..before }),
                self.entries@.len() == before.entries@.len(),
                forall|i: int|
                    0 <= i < index ==> published(
                        builder,
                        before,
                        before.entries@[i],
                        #[trigger] self.entries@[i],
                    ),
                forall|i: int|
                    0 <= i < index && pending(#[trigger] before.entries@[i]) ==> source_fault(
                        before,
                        before.entries@[i],
                    ) is None,
                forall|i: int|
                    index <= i < before.entries@.len() ==> #[trigger] self.entries@[i]
                        == before.entries@[i],
        {
            let ghost middle = *self;
            assert(self.entries@[index as int] == before.entries@[index as int]);
            assert(self.entries@[index as int].wf());
            let waits = match self.entries[index].state {
                DerivedIndexState::Populating => is_vector(self.entries[index].definition.kind),
                _ => false,
            };
            if waits {
                if self.entries[index].definition.properties.len() == 0 {
                    assert(before.first_source_fault(
                        index as int,
                        "vector index has no source property"@,
                    ));
                    assert(published_before(builder, before, *self, index as int));
                    return corrupt("vector index has no source property");
                }
                let property: PropertyId = self.entries[index].definition.properties[0];
                let candidate = match self.vector_columns.get(property.0 as u128) {
                    Some(column) => {
                        let source = column.value();
                        assert(before.vector_columns@.dom().contains(property.0 as u128));
                        assert(*source == matrix_of(before, before.entries@[index as int]));
                        assert(source.wf());
                        let rows: usize = source.len();
                        if rows == 0 {
                            Ok(None)
                        } else {
                            let config = ivf_config_for_shape(rows, source.dimension());
                            assert(call_requires(builder, (source, config)));
                            let built = build(source, config);
                            assert(call_ensures(builder, (source, config), built));
                            assert(config == matrix_config(*source));
                            gate_pages(built)
                        }
                    },
                    None => {
                        assert(before.first_source_fault(
                            index as int,
                            "vector index has no canonical vector column"@,
                        ));
                        assert(published_before(builder, before, *self, index as int));
                        return corrupt("vector index has no canonical vector column");
                    },
                };
                assert(offered(
                    builder,
                    matrix_of(before, before.entries@[index as int]),
                    candidate,
                ));
                self.entries[index].settle(property, candidate);
                proof {
                    lemma_one_entry(middle, *self, index as int);
                    assert(published(
                        builder,
                        before,
                        before.entries@[index as int],
                        self.entries@[index as int],
                    ));
                }
            }
        }
        Ok(())
    }

    /// Asks for a vector index to be built anew. Its runtime stays until the new pages are ready. An
    /// index of another kind is built at once.
    #[verifier::spinoff_prover]
    pub fn rebuild_deferred(&mut self, nodes: &[NodeRecord], name: &str) -> (result: Result<()>)
        requires
            old(self).wf(),
            distinct_rows(nodes@),
            forall|i: int| #[trigger]
                old(self).named(i, name@) ==> sound_definition(old(self).entries@[i].definition),
        ensures
            final(self).wf(),
            *final(self) == (IndexCatalog { entries: final(self).entries, ..*old(self) }),
            if !old(self).has(name@) {
                fails_with(result, ErrorCode::IndexUnavailable, "index does not exist"@) && *final(
                    self) == *old(self)
            } else {
                exists|place: int| #[trigger]
                    old(self).named(place, name@) && requested(
                        *old(self),
                        *final(self),
                        place,
                        nodes@,
                        result,
                    )
            },
    {
        match self.position(name) {
            Some(place) => {
                let ghost before = *self;
                assert(before.named(place as int, name@));
                assert(self.entries@[place as int].wf());
                if is_vector(self.entries[place].definition.kind) {
                    self.entries[place].state = DerivedIndexState::Populating;
                    self.entries[place].diagnostic = None;
                    proof {
                        assert(self.entries@ =~= before.entries@.update(
                            place as int,
                            self.entries@[place as int],
                        ));
                        lemma_one_entry(before, *self, place as int);
                        assert(requested(before, *self, place as int, nodes@, Ok(())));
                    }
                    return Ok(());
                }
                let result = self.entries[place].rebuild_scalar(nodes);
                proof {
                    assert(self.entries@ =~= before.entries@.update(
                        place as int,
                        self.entries@[place as int],
                    ));
                    lemma_one_entry(before, *self, place as int);
                    if result is Err {
                        assert(self.entries@ =~= before.entries@);
                    }
                    assert(requested(before, *self, place as int, nodes@, result));
                }
                result
            },
            None => unavailable("index does not exist"),
        }
    }
}

/// What a build at once gives for a vector index: no pages for an empty matrix, else what the builder
/// gives.
pub open spec fn built_at_once<F: FnMut(&VectorIndex, IvfPqConfig) -> Result<IvfPqIndex>>(
    builder: F,
    catalog: IndexCatalog,
    entry: IndexEntry,
    candidate: Result<Option<IvfPqIndex>>,
) -> bool {
    let property = entry.definition.properties@[0];
    if !catalog.vector_columns@.dom().contains(property.0 as u128) {
        fails_with(
            candidate,
            ErrorCode::EmbeddingProfileMismatch,
            "vector property has no canonical matrix"@,
        )
    } else {
        let source = matrix_of(catalog, entry);
        if marked(source.active@) == 0 {
            candidate == Ok::<Option<IvfPqIndex>, Error>(None)
        } else {
            exists|built: Result<IvfPqIndex>| #[trigger]
                call_ensures(builder, (&source, matrix_config(source)), built) && candidate
                    == match built {
                    Ok(pages) => Ok(Some(pages)),
                    Err(error) => Err(error),
                }
        }
    }
}

/// The index after it was built anew.
pub open spec fn entry_rebuilt<F: FnMut(&VectorIndex, IvfPqConfig) -> Result<IvfPqIndex>>(
    builder: F,
    catalog: IndexCatalog,
    before: IndexEntry,
    after: IndexEntry,
    nodes: Seq<NodeRecord>,
) -> bool {
    if before.definition.kind == GraphIndexKind::Vector {
        exists|candidate: Result<Option<IvfPqIndex>>| #[trigger]
            built_at_once(builder, catalog, before, candidate) && settled(
                IndexEntry { runtime: None, ..before },
                after,
                before.definition.properties@[0],
                candidate,
            )
    } else {
        new_entry(after, before.definition, nodes)
    }
}

/// The catalog after an attempt to build the index at a place anew.
pub open spec fn rebuilt<F: FnMut(&VectorIndex, IvfPqConfig) -> Result<IvfPqIndex>>(
    builder: F,
    before: IndexCatalog,
    after: IndexCatalog,
    place: int,
    nodes: Seq<NodeRecord>,
    result: Result<()>,
) -> bool {
    let entry = before.entries@[place];
    match result {
        Ok(_) => {
            &&& after.entries@ == before.entries@.update(place, after.entries@[place])
            &&& entry_rebuilt(builder, before, entry, after.entries@[place], nodes)
        },
        Err(error) => {
            &&& after.entries@ == before.entries@
            &&& entry.definition.unique
            &&& broken_constraint(entry.definition, nodes, error)
        },
    }
}

/// The indexes before a place were built anew, the others are as they were.
pub open spec fn rebuilt_before<F: FnMut(&VectorIndex, IvfPqConfig) -> Result<IvfPqIndex>>(
    builder: F,
    before: IndexCatalog,
    after: IndexCatalog,
    place: int,
    nodes: Seq<NodeRecord>,
) -> bool {
    &&& forall|i: int|
        0 <= i < place ==> entry_rebuilt(
            builder,
            before,
            before.entries@[i],
            #[trigger] after.entries@[i],
            nodes,
        )
    &&& forall|i: int|
        place <= i < before.entries@.len() ==> #[trigger] after.entries@[i] == before.entries@[i]
}

/// The waiting indexes before a place got their pages, the others are as they were.
pub open spec fn published_before<F: FnMut(&VectorIndex, IvfPqConfig) -> Result<IvfPqIndex>>(
    builder: F,
    before: IndexCatalog,
    after: IndexCatalog,
    place: int,
) -> bool {
    &&& forall|i: int|
        0 <= i < place ==> published(
            builder,
            before,
            before.entries@[i],
            #[trigger] after.entries@[i],
        )
    &&& forall|i: int|
        place <= i < before.entries@.len() ==> #[trigger] after.entries@[i] == before.entries@[i]
}

impl IndexCatalog {
    #[verifier::rlimit(40)]
    #[verifier::spinoff_prover]
    fn rebuild_at<F: FnMut(&VectorIndex, IvfPqConfig) -> Result<IvfPqIndex>>(
        &mut self,
        nodes: &[NodeRecord],
        place: usize,
        builder: &mut F,
    ) -> (result: Result<()>)
        requires
            old(self).wf(),
            builds(*old(builder)),
            distinct_rows(nodes@),
            place < old(self).entries@.len(),
            sound_definition(old(self).entries@[place as int].definition),
        ensures
            *final(builder) == *old(builder),
            final(self).wf(),
            *final(self) == (IndexCatalog { entries: final(self).entries, ..*old(self) }),
            rebuilt(*old(builder), *old(self), *final(self), place as int, nodes@, result),
    {
        let ghost before = *self;
        assert(self.entries@[place as int].wf());
        if !is_vector(self.entries[place].definition.kind) {
            let result = self.entries[place].rebuild_scalar(nodes);
            proof {
                assert(self.entries@ =~= before.entries@.update(
                    place as int,
                    self.entries@[place as int],
                ));
                lemma_one_entry(before, *self, place as int);
                if result is Err {
                    assert(self.entries@ =~= before.entries@);
                }
            }
            return result;
        }
        let property: PropertyId = self.entries[place].definition.properties[0];
        let candidate = match self.vector_columns.get(property.0 as u128) {
            Some(column) => {
                let source = column.value();
                assert(before.vector_columns@.dom().contains(property.0 as u128));
                let rows: usize = source.len();
                if rows == 0 {
                    Ok(None)
                } else {
                    let config = ivf_config_for_shape(rows, source.dimension());
                    assert(call_requires(*builder, (source, config)));
                    let built = builder(source, config);
                    assert(call_ensures(*old(builder), (source, config), built));
                    match built {
                        Ok(pages) => Ok(Some(pages)),
                        Err(error) => Err(error),
                    }
                }
            },
            None => Err(
                Error::new(
                    ErrorCode::EmbeddingProfileMismatch,
                    "vector property has no canonical matrix",
                ),
            ),
        };
        assert(built_at_once(*old(builder), before, before.entries@[place as int], candidate));
        self.entries[place].runtime = None;
        self.entries[place].settle(property, candidate);
        proof {
            assert(self.entries@ =~= before.entries@.update(
                place as int,
                self.entries@[place as int],
            ));
            lemma_one_entry(before, *self, place as int);
        }
        Ok(())
    }

    /// Builds one index anew, a vector index with a builder. Canonical data stays valid where that
    /// fails.
    pub fn rebuild<F: FnMut(&VectorIndex, IvfPqConfig) -> Result<IvfPqIndex>>(
        &mut self,
        nodes: &[NodeRecord],
        name: &str,
        builder: F,
    ) -> (result: Result<()>)
        requires
            old(self).wf(),
            builds(builder),
            distinct_rows(nodes@),
            forall|i: int| #[trigger]
                old(self).named(i, name@) ==> sound_definition(old(self).entries@[i].definition),
        ensures
            final(self).wf(),
            *final(self) == (IndexCatalog { entries: final(self).entries, ..*old(self) }),
            if !old(self).has(name@) {
                fails_with(result, ErrorCode::IndexUnavailable, "index does not exist"@) && *final(
                    self) == *old(self)
            } else {
                exists|place: int| #[trigger]
                    old(self).named(place, name@) && rebuilt(
                        builder,
                        *old(self),
                        *final(self),
                        place,
                        nodes@,
                        result,
                    )
            },
    {
        let mut build = builder;
        match self.position(name) {
            Some(place) => {
                assert(self.named(place as int, name@));
                self.rebuild_at(nodes, place, &mut build)
            },
            None => unavailable("index does not exist"),
        }
    }

    /// Builds every index anew. A broken constraint ends it.
    pub fn rebuild_all<F: FnMut(&VectorIndex, IvfPqConfig) -> Result<IvfPqIndex>>(
        &mut self,
        nodes: &[NodeRecord],
        builder: F,
    ) -> (result: Result<()>)
        requires
            old(self).wf(),
            builds(builder),
            distinct_rows(nodes@),
            forall|i: int|
                0 <= i < old(self).entries@.len() ==> sound_definition(
                    (#[trigger] old(self).entries@[i]).definition,
                ),
        ensures
            final(self).wf(),
            *final(self) == (IndexCatalog { entries: final(self).entries, ..*old(self) }),
            final(self).entries@.len() == old(self).entries@.len(),
            match result {
                Ok(_) => forall|i: int|
                    0 <= i < old(self).entries@.len() ==> entry_rebuilt(
                        builder,
                        *old(self),
                        old(self).entries@[i],
                        #[trigger] final(self).entries@[i],
                        nodes@,
                    ),
                Err(error) => exists|place: int|
                    {
                        &&& 0 <= place < old(self).entries@.len()
                        &&& old(self).entries@[place].definition.unique
                        &&& broken_constraint(
                            old(self).entries@[place].definition,
                            nodes@,
                            error,
                        )
                        &&& #[trigger] rebuilt_before(
                            builder,
                            *old(self),
                            *final(self),
                            place,
                            nodes@,
                        )
                    },
            },
    {
        let mut build = builder;
        let ghost before = *self;
        let total: usize = self.entries.len();
        for index in 0..total
            invariant
                before == *old(self),
                total == before.entries@.len(),
                build == builder,
                builds(builder),
                distinct_rows(nodes@),
                forall|i: int|
                    0 <= i < before.entries@.len() ==> sound_definition(
                        (#[trigger] before.entries@[i]).definition,
                    ),
                self.wf(),
                *self == (IndexCatalog { entries: self.entries, ..before }),
                self.entries@.len() == before.entries@.len(),
                forall|i: int|
                    0 <= i < index ==> entry_rebuilt(
                        builder,
                        before,
                        before.entries@[i],
                        #[trigger] self.entries@[i],
                        nodes@,
                    ),
                forall|i: int|
                    index <= i < before.entries@.len() ==> #[trigger] self.entries@[i]
                        == before.entries@[i],
        {
            let ghost middle = *self;
            assert(middle.entries@[index as int] == before.entries@[index as int]);
            let result = self.rebuild_at(nodes, index, &mut build);
            if let Err(error) = result {
                assert(before.entries@[index as int].definition.unique);
                assert(self.entries@ == middle.entries@);
                assert(rebuilt_before(builder, before, *self, index as int, nodes@));
                return Err(error);
            }
            proof {
                lemma_other_entries(builder, before, middle, before.entries@[index as int],
                    self.entries@[index as int], nodes@);
                assert(self.entries@.len() == middle.entries@.len());
                assert forall|i: int| 0 <= i < index + 1 implies entry_rebuilt(
                    builder,
                    before,
                    before.entries@[i],
                    #[trigger] self.entries@[i],
                    nodes@,
                ) by {
                    if i < index {
                        assert(self.entries@[i] == middle.entries@[i]);
                    }
                }
                assert forall|i: int|
                    index + 1 <= i < before.entries@.len() implies #[trigger] self.entries@[i]
                    == before.entries@[i] by {
                    assert(self.entries@[i] == middle.entries@[i]);
                }
            }
        }
        Ok(())
    }

    /// Creates an index and builds it at once, a vector index with a builder.
    #[verifier::spinoff_prover]
    pub fn create<F: FnMut(&VectorIndex, IvfPqConfig) -> Result<IvfPqIndex>>(
        &mut self,
        schema: &SchemaNames,
        nodes: &[NodeRecord],
        definition: GraphIndexDefinition,
        builder: F,
    ) -> (result: Result<()>)
        requires
            old(self).wf(),
            builds(builder),
            schema.properties.wf(),
            distinct_rows(nodes@),
        ensures
            final(self).wf(),
            match create_fault(*old(self), *schema, definition) {
                Some(fault) => fails_with(result, fault.0, fault.1) && *final(self) == *old(self),
                None => match result {
                    Ok(_) => exists|middle: IndexCatalog, place: int|
                        created(*old(self), middle, definition, nodes@) && #[trigger] middle.named(
                            place,
                            definition.name@,
                        ) && if definition.kind == GraphIndexKind::Vector {
                            rebuilt(builder, middle, *final(self), place, nodes@, Ok(()))
                        } else {
                            *final(self) == middle
                        },
                    Err(error) => {
                        &&& *final(self) == *old(self)
                        &&& match error.code {
                            ErrorCode::ResultBudgetExceeded => definition.kind
                                == GraphIndexKind::Vector
                                && old(self).vector_columns@.dom().len() == usize::MAX
                                && error.message@ == "vector column count exhausted"@,
                            _ => definition.unique && broken_constraint(
                                definition,
                                nodes@,
                                error,
                            ),
                        }
                    },
                },
            },
    {
        let mut build = builder;
        let name = definition.name.clone();
        let vector = is_vector(definition.kind);
        let ghost before = *self;
        let ghost wanted = definition;
        match self.create_deferred(schema, nodes, definition) {
            Ok(_) => {},
            Err(error) => {
                return Err(error);
            },
        }
        let ghost middle = *self;
        assert(name@ == wanted.name@);
        match self.position(name.as_str()) {
            Some(place) => {
                proof {
                    lemma_created_entry(before, middle, wanted, nodes@, place as int);
                }
                if vector {
                    return self.rebuild_at(nodes, place, &mut build);
                }
                Ok(())
            },
            None => {
                proof {
                    let place = lemma_created_named(before, middle, wanted, nodes@);
                    assert(middle.named(place, name@));
                }
                Ok(())
            },
        }
    }
}

proof fn lemma_created_named(
    before: IndexCatalog,
    after: IndexCatalog,
    definition: GraphIndexDefinition,
    nodes: Seq<NodeRecord>,
) -> (place: int)
    requires
        created(before, after, definition, nodes),
    ensures
        after.named(place, definition.name@),
        new_entry(after.entries@[place], definition, nodes),
{
    let entry = choose|entry: IndexEntry| #[trigger]
        entry_added(before.entries@, after.entries@, entry) && new_entry(entry, definition, nodes);
    let place = choose|place: int|
        0 <= place <= before.entries@.len() && after.entries@ == #[trigger] before.entries@.insert(
            place,
            entry,
        );
    assert(after.entries@[place] == entry);
    place
}

proof fn lemma_created_entry(
    before: IndexCatalog,
    after: IndexCatalog,
    definition: GraphIndexDefinition,
    nodes: Seq<NodeRecord>,
    place: int,
)
    requires
        after.wf(),
        created(before, after, definition, nodes),
        after.named(place, definition.name@),
    ensures
        new_entry(after.entries@[place], definition, nodes),
{
    let other = lemma_created_named(before, after, definition, nodes);
    after.lemma_one_name(place, other, definition.name@);
}

/// What a build gives depends on the vector columns alone, not on other indexes.
proof fn lemma_other_entries<F: FnMut(&VectorIndex, IvfPqConfig) -> Result<IvfPqIndex>>(
    builder: F,
    left: IndexCatalog,
    right: IndexCatalog,
    before: IndexEntry,
    after: IndexEntry,
    nodes: Seq<NodeRecord>,
)
    requires
        left.vector_columns == right.vector_columns,
        entry_rebuilt(builder, right, before, after, nodes),
    ensures
        entry_rebuilt(builder, left, before, after, nodes),
{
    if before.definition.kind == GraphIndexKind::Vector {
        let candidate = choose|candidate: Result<Option<IvfPqIndex>>| #[trigger]
            built_at_once(builder, right, before, candidate) && settled(
                IndexEntry { runtime: None, ..before },
                after,
                before.definition.properties@[0],
                candidate,
            );
        assert(built_at_once(builder, left, before, candidate));
    }
}

/// The catalog after a request to build the index at a place anew.
pub open spec fn requested(
    before: IndexCatalog,
    after: IndexCatalog,
    place: int,
    nodes: Seq<NodeRecord>,
    result: Result<()>,
) -> bool {
    let entry = before.entries@[place];
    if entry.definition.kind == GraphIndexKind::Vector {
        &&& result is Ok
        &&& after.entries@ == before.entries@.update(
            place,
            IndexEntry { state: DerivedIndexState::Populating, diagnostic: None, ..entry },
        )
    } else {
        match result {
            Ok(_) => {
                &&& after.entries@ == before.entries@.update(place, after.entries@[place])
                &&& new_entry(after.entries@[place], entry.definition, nodes)
            },
            Err(error) => {
                &&& after.entries@ == before.entries@
                &&& entry.definition.unique
                &&& broken_constraint(entry.definition, nodes, error)
            },
        }
    }
}

/// A failed build never takes a validated generation offline.
pub proof fn law_failed_build_keeps_generation<
    F: FnMut(&VectorIndex, IvfPqConfig) -> Result<IvfPqIndex>,
>(builder: F, catalog: IndexCatalog, before: IndexEntry, after: IndexEntry)
    requires
        published(builder, catalog, before, after),
        pending(before),
        before.runtime is Some,
    ensures
        after.state == DerivedIndexState::Online,
        after.runtime is Some,
        after.diagnostic is Some ==> after.runtime == before.runtime,
{
}

/// Pages that a build brings online were validated.
pub proof fn law_only_validated_pages_go_online<
    F: FnMut(&VectorIndex, IvfPqConfig) -> Result<IvfPqIndex>,
>(builder: F, catalog: IndexCatalog, before: IndexEntry, after: IndexEntry)
    requires
        published(builder, catalog, before, after),
        pending(before),
        after.diagnostic is None,
    ensures
        match after.runtime {
            Some(RuntimeIndex::Vector { property, approximate: Some(pages) }) => validated(
                pages.spec_value(),
            ),
            Some(RuntimeIndex::Vector { property, approximate: None }) => marked(
                matrix_of(catalog, before).active@,
            ) == 0,
            _ => false,
        },
{
}

/// The encoder takes all pages.
pub open spec fn encodes<E: FnMut(&IvfPqIndex) -> Result<Vec<u8>>>(encoder: E) -> bool {
    forall|pages: &IvfPqIndex| #[trigger] call_requires(encoder, (pages,))
}

/// Pages whose generation is the digest of their encoding. The encoding is made while the generation
/// is still zero.
pub open spec fn stamped<E: FnMut(&IvfPqIndex) -> Result<Vec<u8>>>(
    encoder: E,
    blank: IvfPqIndex,
    pages: IvfPqIndex,
) -> bool {
    exists|encoded: Vec<u8>| #[trigger]
        call_ensures(encoder, (&blank,), Ok::<Vec<u8>, Error>(encoded)) && pages == (IvfPqIndex {
            build_generation: pages.build_generation,
            ..blank
        }) && pages.build_generation@ == crate::digest::blake3_digest(encoded@)
}

/// The pages that a filter of the matrix leaves.
pub open spec fn pages_filtered<E: FnMut(&IvfPqIndex) -> Result<Vec<u8>>>(
    encoder: E,
    before: Option<Handle<IvfPqIndex>>,
    remap: Map<u128, u32>,
    after: Option<Handle<IvfPqIndex>>,
) -> bool {
    match (before, after) {
        (Some(before), Some(after)) => exists|blank: IvfPqIndex| #[trigger]
            remapped(before.spec_value(), remap, blank) && stamped(
                encoder,
                blank,
                after.spec_value(),
            ),
        (Some(before), None) => kept_positions(
            before.spec_value().rows@,
            remap,
            before.spec_value().rows@.len() as int,
        ).len() == 0,
        (None, after) => after is None,
    }
}

/// Why pages cannot follow a filter.
pub open spec fn pages_refused(pages: IvfPqIndex, remap: Map<u128, u32>, error: Error) -> bool {
    pages.remap_fault(remap) matches Some(fault) && error.is(fault.0, fault.1)
}

/// Why pages do not follow a filter: they cannot be moved, or the encoder fails on what they become.
pub open spec fn pages_unfiltered<E: FnMut(&IvfPqIndex) -> Result<Vec<u8>>>(
    encoder: E,
    before: Option<Handle<IvfPqIndex>>,
    remap: Map<u128, u32>,
    error: Error,
) -> bool {
    before matches Some(handle) && (pages_refused(handle.spec_value(), remap, error) || exists|
        blank: IvfPqIndex,
    | #[trigger]
        remapped(handle.spec_value(), remap, blank) && call_ensures(
            encoder,
            (&blank,),
            Err::<Vec<u8>, Error>(error),
        ))
}

/// Moves pages to the rows that a filter left, with a new generation.
pub fn filter_pages<E: FnMut(&IvfPqIndex) -> Result<Vec<u8>>>(
    pages: &Option<Handle<IvfPqIndex>>,
    remap: &PersistentMap<u32>,
    encoder: &mut E,
) -> (result: Result<Option<Handle<IvfPqIndex>>>)
    requires
        remap.wf(),
        encodes(*old(encoder)),
    ensures
        *final(encoder) == *old(encoder),
        match result {
            Ok(after) => pages_filtered(*old(encoder), *pages, remap@, after),
            Err(error) => pages_unfiltered(*old(encoder), *pages, remap@, error),
        },
{
    let index = match pages {
        Some(handle) => handle.value(),
        None => {
            return Ok(None);
        },
    };
    match index.remap_rows(remap) {
        Ok(Some(blank)) => {
            let ghost bare = blank;
            let mut stamped_pages = blank;
            assert(call_requires(*encoder, (&stamped_pages,)));
            match encoder(&stamped_pages) {
                Ok(encoded) => {
                    assert(call_ensures(
                        *old(encoder),
                        (&bare,),
                        Ok::<Vec<u8>, Error>(encoded),
                    ));
                    stamped_pages.set_generation(encoded.as_slice());
                    assert(stamped(*old(encoder), bare, stamped_pages));
                    Ok(Some(Handle::new(stamped_pages)))
                },
                Err(error) => {
                    assert(call_ensures(*old(encoder), (&bare,), Err::<Vec<u8>, Error>(error)));
                    assert(remapped(*index, remap@, bare));
                    Err(error)
                },
            }
        },
        Ok(None) => Ok(None),
        Err(error) => Err(error),
    }
}

/// The identities of nodes.
pub open spec fn identities(nodes: Seq<NodeRecord>, count: int) -> Map<u128, ()> {
    Map::new(
        |key: u128| exists|i: int| 0 <= i < count && (#[trigger] nodes[i]).id as u128 == key,
        |key: u128| (),
    )
}

fn collect_identities(nodes: &[NodeRecord]) -> (ids: PersistentMap<()>)
    ensures
        ids.wf(),
        ids@ == identities(nodes@, nodes@.len() as int),
{
    let mut ids: PersistentMap<()> = PersistentMap::default();
    assert(ids@ =~= identities(nodes@, 0));
    for index in 0..nodes.len()
        invariant
            ids.wf(),
            ids@ == identities(nodes@, index as int),
            ids@.dom().len() <= index,
    {
        let ghost before = ids@;
        let _ = ids.len();
        let key: u128 = nodes[index].id as u128;
        let _ = ids.insert(key, ());
        proof {
            assert forall|other: u128| #[trigger]
                identities(nodes@, index + 1).dom().contains(other) == before.insert(
                    key,
                    (),
                ).dom().contains(other) by {
                if identities(nodes@, index + 1).dom().contains(other) {
                    let i = choose|i: int|
                        0 <= i < index + 1 && (#[trigger] nodes@[i]).id as u128 == other;
                    if i < index {
                        assert(identities(nodes@, index as int).dom().contains(other));
                    }
                }
                if before.dom().contains(other) {
                    let i = choose|i: int|
                        0 <= i < index && (#[trigger] nodes@[i]).id as u128 == other;
                    assert(nodes@[i].id as u128 == other);
                }
                if other == key {
                    assert(nodes@[index as int].id as u128 == other);
                }
            }
            assert(ids@ =~= identities(nodes@, index + 1));
            assert(ids@.dom() =~= before.dom().insert(key));
        }
    }
    ids
}

/// Where the rows of each column went.
pub open spec fn remap_of(remaps: Seq<(u128, PersistentMap<u32>)>, key: u128) -> Map<u128, u32> {
    remaps[choose|i: int| 0 <= i < remaps.len() && (#[trigger] remaps[i]).0 == key].1@
}

/// Every column holds the vectors that count and whose node is there.
pub open spec fn columns_filtered(
    before: IndexCatalog,
    after: IndexCatalog,
    ids: Map<u128, ()>,
    remaps: Map<u128, Map<u128, u32>>,
) -> bool {
    &&& after.vector_columns@.dom() == before.vector_columns@.dom()
    &&& forall|key: u128| #[trigger]
        before.vector_columns@.dom().contains(key) ==> filtered_rows(
            before.vector_columns@[key].spec_value(),
            ids,
            before.vector_columns@[key].spec_value().row_total(),
            after.vector_columns@[key].spec_value(),
            remaps[key],
        )
}

/// The columns below a key were filtered, the others are as they were.
pub open spec fn columns_filtered_before(
    before: IndexCatalog,
    after: IndexCatalog,
    ids: Map<u128, ()>,
    key: u128,
) -> bool {
    &&& before.vector_columns@.dom().contains(key)
    &&& after.vector_columns@.dom() == before.vector_columns@.dom()
    &&& forall|other: u128| #[trigger]
        before.vector_columns@.dom().contains(other) ==> if other < key {
            exists|remap: Map<u128, u32>| #[trigger]
                filtered_rows(
                    before.vector_columns@[other].spec_value(),
                    ids,
                    before.vector_columns@[other].spec_value().row_total(),
                    after.vector_columns@[other].spec_value(),
                    remap,
                )
        } else {
            after.vector_columns@[other].spec_value() == before.vector_columns@[other].spec_value()
        }
}

/// The columns where they are listed by key.
pub open spec fn remap_map(remaps: Seq<(u128, PersistentMap<u32>)>) -> Map<u128, Map<u128, u32>> {
    Map::new(
        |key: u128| exists|i: int| 0 <= i < remaps.len() && (#[trigger] remaps[i]).0 == key,
        |key: u128| remap_of(remaps, key),
    )
}

pub open spec fn ascending_keys(remaps: Seq<(u128, PersistentMap<u32>)>) -> bool {
    forall|i: int, j: int|
        0 <= i < j < remaps.len() ==> (#[trigger] remaps[i]).0 < (#[trigger] remaps[j]).0
}

/// A matrix with more rows than 32 bits can number was met, and the columns before it were filtered.
pub open spec fn filter_stopped(
    before: IndexCatalog,
    after: IndexCatalog,
    ids: Map<u128, ()>,
    error: Error,
) -> bool {
    &&& error.is(
        ErrorCode::ResultBudgetExceeded,
        "filtered vector row exceeds device index width"@,
    )
    &&& exists|key: u128|
        before.vector_columns@[key].spec_value().row_total() > u32::MAX
            && #[trigger] columns_filtered_before(before, after, ids, key)
}

impl IndexCatalog {
    /// Keeps the vectors of the wanted identities in every column.
    #[verifier::rlimit(40)]
    #[verifier::spinoff_prover]
    fn filter_columns(&mut self, ids: &PersistentMap<()>) -> (result: Result<
        Vec<(u128, PersistentMap<u32>)>,
    >)
        requires
            old(self).wf(),
            ids.wf(),
        ensures
            final(self).wf(),
            *final(self) == (IndexCatalog {
                vector_columns: final(self).vector_columns,
                ..*old(self)
            }),
            match result {
                Ok(remaps) => {
                    &&& columns_filtered(*old(self), *final(self), ids@, remap_map(remaps@))
                    &&& remap_map(remaps@).dom() == old(self).vector_columns@.dom()
                    &&& ascending_keys(remaps@)
                    &&& forall|i: int| 0 <= i < remaps@.len() ==> (#[trigger] remaps@[i]).1.wf()
                },
                Err(error) => filter_stopped(*old(self), *final(self), ids@, error),
            },
    {
        let entries = self.vector_columns.iter();
        let mut keys: Vec<u128> = Vec::new();
        for index in 0..entries.len()
            invariant
                keys@.len() == index,
                forall|i: int| 0 <= i < index ==> #[trigger] keys@[i] == entries@[i].0,
        {
            keys.push(entries[index].0);
        }
        proof {
            lemma_handle_faithful::<VectorIndex>();
            assert forall|key: u128| #[trigger] old(self).vector_columns@.dom().contains(
                key,
            ) implies keys@.contains(key) by {
                let i = choose|i: int| 0 <= i < entries@.len() && (#[trigger] entries@[i]).0 == key;
                assert(keys@[i] == key);
            }
            assert forall|i: int| 0 <= i < keys@.len() implies old(
                self).vector_columns@.dom().contains(#[trigger] keys@[i]) by {
                assert(old(self).vector_columns@.dom().contains(entries@[i].0));
            }
            assert forall|i: int, j: int| 0 <= i < j < keys@.len() implies #[trigger] keys@[i]
                < #[trigger] keys@[j] by {
                assert(entries@[i].0 < entries@[j].0);
            }
        }
        let ghost before = *self;
        let mut remaps: Vec<(u128, PersistentMap<u32>)> = Vec::new();
        for index in 0..keys.len()
            invariant
                before == *old(self),
                before.wf(),
                ids.wf(),
                clone_faithful::<Handle<VectorIndex>>(),
                self.wf(),
                *self == (IndexCatalog { vector_columns: self.vector_columns, ..before }),
                self.vector_columns@.dom() == before.vector_columns@.dom(),
                forall|i: int|
                    0 <= i < keys@.len() ==> before.vector_columns@.dom().contains(
                        #[trigger] keys@[i],
                    ),
                forall|key: u128| #[trigger]
                    before.vector_columns@.dom().contains(key) ==> keys@.contains(key),
                forall|i: int, j: int|
                    0 <= i < j < keys@.len() ==> #[trigger] keys@[i] < #[trigger] keys@[j],
                remaps@.len() == index,
                forall|i: int|
                    0 <= i < index ==> (#[trigger] remaps@[i]).0 == keys@[i] && remaps@[i].1.wf()
                        && filtered_rows(
                        before.vector_columns@[keys@[i]].spec_value(),
                        ids@,
                        before.vector_columns@[keys@[i]].spec_value().row_total(),
                        self.vector_columns@[keys@[i]].spec_value(),
                        remaps@[i].1@,
                    ),
                forall|i: int|
                    index <= i < keys@.len() ==> self.vector_columns@[#[trigger] keys@[i]]
                        == before.vector_columns@[keys@[i]],
        {
            let key: u128 = keys[index];
            let ghost middle = *self;
            assert(before.vector_columns@.dom().contains(keys@[index as int]));
            let filtered = match self.vector_columns.get_mut(key) {
                Some(handle) => handle.value_mut().retain_entities(ids),
                None => {
                    assert(false);
                    Ok(PersistentMap::default())
                },
            };
            proof {
                assert(self.vector_columns@.dom() =~= before.vector_columns@.dom());
                assert forall|other: u128| #[trigger]
                    self.vector_columns@.dom().contains(other) implies other <= u32::MAX
                    && self.vector_columns@[other].spec_value().wf() by {
                    assert(middle.vector_columns@.dom().contains(other));
                }
            }
            match filtered {
                Ok(remap) => {
                    remaps.push((key, remap));
                    proof {
                        assert forall|i: int| 0 <= i < index implies (#[trigger] remaps@[i]).0
                            == keys@[i] && remaps@[i].1.wf() && filtered_rows(
                            before.vector_columns@[keys@[i]].spec_value(),
                            ids@,
                            before.vector_columns@[keys@[i]].spec_value().row_total(),
                            self.vector_columns@[keys@[i]].spec_value(),
                            remaps@[i].1@,
                        ) by {
                            assert(keys@[i] < keys@[index as int]);
                        }
                        assert forall|i: int|
                            index
                                + 1 <= i < keys@.len() implies self.vector_columns@[#[trigger] keys@[i]]
                            == before.vector_columns@[keys@[i]] by {
                            assert(keys@[index as int] < keys@[i]);
                        }
                    }
                },
                Err(error) => {
                    proof {
                        assert forall|i: int| index <= i < keys@.len() implies self.vector_columns@[
                        #[trigger] keys@[i]].spec_value()
                            == before.vector_columns@[keys@[i]].spec_value() by {
                            if index < i {
                                assert(keys@[index as int] < keys@[i]);
                            }
                        }
                        lemma_filter_stopped(before, *self, ids@, keys@, remaps@, index as int);
                    }
                    return Err(error);
                },
            }
        }
        proof {
            let map = remap_map(remaps@);
            assert forall|key: u128| #[trigger] before.vector_columns@.dom().contains(
                key,
            ) implies map.dom().contains(key) && filtered_rows(
                before.vector_columns@[key].spec_value(),
                ids@,
                before.vector_columns@[key].spec_value().row_total(),
                self.vector_columns@[key].spec_value(),
                map[key],
            ) by {
                let i = choose|i: int| 0 <= i < keys@.len() && keys@[i] == key;
                assert(remaps@[i].0 == key);
                assert(map.dom().contains(key));
            }
            assert forall|key: u128| #[trigger] map.dom().contains(
                key,
            ) implies before.vector_columns@.dom().contains(key) by {
                let i = choose|i: int|
                    0 <= i < remaps@.len() && (#[trigger] remaps@[i]).0 == key;
                assert(before.vector_columns@.dom().contains(keys@[i]));
            }
            assert(map.dom() =~= before.vector_columns@.dom());
        }
        Ok(remaps)
    }
}

proof fn lemma_filter_stopped(
    before: IndexCatalog,
    after: IndexCatalog,
    ids: Map<u128, ()>,
    keys: Seq<u128>,
    remaps: Seq<(u128, PersistentMap<u32>)>,
    index: int,
)
    requires
        0 <= index < keys.len(),
        remaps.len() == index,
        after.vector_columns@.dom() == before.vector_columns@.dom(),
        forall|i: int|
            0 <= i < keys.len() ==> before.vector_columns@.dom().contains(#[trigger] keys[i]),
        forall|key: u128| #[trigger]
            before.vector_columns@.dom().contains(key) ==> keys.contains(key),
        forall|i: int, j: int| 0 <= i < j < keys.len() ==> #[trigger] keys[i] < #[trigger] keys[j],
        forall|i: int|
            0 <= i < index ==> filtered_rows(
                before.vector_columns@[keys[i]].spec_value(),
                ids,
                before.vector_columns@[keys[i]].spec_value().row_total(),
                after.vector_columns@[keys[i]].spec_value(),
                (#[trigger] remaps[i]).1@,
            ),
        forall|i: int|
            index <= i < keys.len() ==> after.vector_columns@[#[trigger] keys[i]].spec_value()
                == before.vector_columns@[keys[i]].spec_value(),
    ensures
        columns_filtered_before(before, after, ids, keys[index]),
{
    let key = keys[index];
    assert(before.vector_columns@.dom().contains(keys[index]));
    assert forall|other: u128| #[trigger] before.vector_columns@.dom().contains(other) implies if other
        < key {
        exists|remap: Map<u128, u32>| #[trigger]
            filtered_rows(
                before.vector_columns@[other].spec_value(),
                ids,
                before.vector_columns@[other].spec_value().row_total(),
                after.vector_columns@[other].spec_value(),
                remap,
            )
    } else {
        after.vector_columns@[other].spec_value() == before.vector_columns@[other].spec_value()
    } by {
        let i = choose|i: int| 0 <= i < keys.len() && keys[i] == other;
        assert(keys[i] == other);
        if other < key {
            if index < i {
                assert(keys[index] < keys[i]);
            }
            assert(filtered_rows(
                before.vector_columns@[other].spec_value(),
                ids,
                before.vector_columns@[other].spec_value().row_total(),
                after.vector_columns@[other].spec_value(),
                remaps[i].1@,
            ));
        } else if i < index {
            assert(keys[i] < keys[index]);
        }
    }
}

fn find_remap<'a>(remaps: &'a Vec<(u128, PersistentMap<u32>)>, key: u128) -> (remap: Option<
    &'a PersistentMap<u32>,
>)
    requires
        forall|i: int| 0 <= i < remaps@.len() ==> (#[trigger] remaps@[i]).1.wf(),
        ascending_keys(remaps@),
    ensures
        match remap {
            Some(remap) => remap.wf() && remap_map(remaps@).dom().contains(key) && remap@
                == remap_map(remaps@)[key],
            None => !remap_map(remaps@).dom().contains(key),
        },
{
    for index in 0..remaps.len()
        invariant
            ascending_keys(remaps@),
            forall|i: int| 0 <= i < remaps@.len() ==> (#[trigger] remaps@[i]).1.wf(),
            forall|i: int| 0 <= i < index ==> (#[trigger] remaps@[i]).0 != key,
    {
        if remaps[index].0 == key {
            proof {
                assert(remaps@[index as int].0 == key);
                let i = choose|i: int|
                    0 <= i < remaps@.len() && (#[trigger] remaps@[i]).0 == key;
                if i < index {
                    assert(remaps@[i].0 < remaps@[index as int].0);
                }
                if index < i {
                    assert(remaps@[index as int].0 < remaps@[i].0);
                }
            }
            return Some(&remaps[index].1);
        }
    }
    None
}

/// What keeps a vector index from following a filter.
pub open spec fn filter_fault(catalog: IndexCatalog, entry: IndexEntry) -> Option<Seq<char>> {
    if entry.definition.properties@.len() == 0 {
        Some("vector index has no property"@)
    } else if !catalog.vector_columns@.dom().contains(entry.definition.properties@[0].0 as u128) {
        Some("vector index has no canonical vector column"@)
    } else {
        match entry.runtime {
            Some(RuntimeIndex::Vector { property, approximate }) => if property
                != entry.definition.properties@[0] {
                Some("vector runtime property does not match its definition"@)
            } else {
                None
            },
            Some(_) => Some("vector definition has a non-vector runtime"@),
            None => None,
        }
    }
}

/// The pages that a vector index has.
pub open spec fn held_pages(entry: IndexEntry) -> Option<Handle<IvfPqIndex>> {
    match entry.runtime {
        Some(RuntimeIndex::Vector { property, approximate }) => approximate,
        _ => None,
    }
}

/// The index after the rows were compacted: a scalar index is built anew, and a vector index keeps what
/// is left of its pages.
pub open spec fn row_rebuilt<E: FnMut(&IvfPqIndex) -> Result<Vec<u8>>>(
    encoder: E,
    before: IndexEntry,
    after: IndexEntry,
    nodes: Seq<NodeRecord>,
    remaps: Map<u128, Map<u128, u32>>,
) -> bool {
    if before.definition.kind == GraphIndexKind::Vector {
        let property = before.definition.properties@[0];
        &&& after.definition == before.definition
        &&& after.state == DerivedIndexState::Online
        &&& after.diagnostic is None
        &&& after.runtime matches Some(RuntimeIndex::Vector { property: held, approximate })
            && held == property && pages_filtered(
            encoder,
            held_pages(before),
            remaps[property.0 as u128],
            approximate,
        )
    } else {
        new_entry(after, before.definition, nodes)
    }
}

/// Why an index does not follow a compaction of rows.
pub open spec fn entry_unfiltered<E: FnMut(&IvfPqIndex) -> Result<Vec<u8>>>(
    encoder: E,
    catalog: IndexCatalog,
    entry: IndexEntry,
    nodes: Seq<NodeRecord>,
    remaps: Map<u128, Map<u128, u32>>,
    error: Error,
) -> bool {
    if entry.definition.kind == GraphIndexKind::Vector {
        match filter_fault(catalog, entry) {
            Some(message) => error.is(ErrorCode::CorruptStorage, message),
            None => pages_unfiltered(
                encoder,
                held_pages(entry),
                remaps[entry.definition.properties@[0].0 as u128],
                error,
            ),
        }
    } else {
        entry.definition.unique && broken_constraint(entry.definition, nodes, error)
    }
}

/// The columns were filtered and the indexes before a place built anew, the others are as they were.
pub open spec fn row_rebuilt_before<E: FnMut(&IvfPqIndex) -> Result<Vec<u8>>>(
    encoder: E,
    before: IndexCatalog,
    after: IndexCatalog,
    nodes: Seq<NodeRecord>,
    remaps: Map<u128, Map<u128, u32>>,
    place: int,
) -> bool {
    &&& 0 <= place < before.entries@.len()
    &&& columns_filtered(before, after, identities(nodes, nodes.len() as int), remaps)
    &&& forall|i: int|
        0 <= i < place ==> row_rebuilt(
            encoder,
            before.entries@[i],
            #[trigger] after.entries@[i],
            nodes,
            remaps,
        )
    &&& forall|i: int|
        place <= i < before.entries@.len() ==> #[trigger] after.entries@[i] == before.entries@[i]
}

/// Where the catalog stands after a compaction of rows that failed: a column could not be filtered, and
/// the indexes are as they were; or an index could not follow.
pub open spec fn row_rebuild_fault<E: FnMut(&IvfPqIndex) -> Result<Vec<u8>>>(
    encoder: E,
    before: IndexCatalog,
    after: IndexCatalog,
    nodes: Seq<NodeRecord>,
    error: Error,
) -> bool {
    ||| after.entries == before.entries && filter_stopped(
        before,
        after,
        identities(nodes, nodes.len() as int),
        error,
    )
    ||| exists|remaps: Map<u128, Map<u128, u32>>, place: int|
        entry_unfiltered(encoder, before, before.entries@[place], nodes, remaps, error)
            && #[trigger] row_rebuilt_before(encoder, before, after, nodes, remaps, place)
}

impl IndexCatalog {
    /// What keeps the vector index at a place from following a filter, if anything does.
    fn check_filter(&self, place: usize) -> (result: Result<()>)
        requires
            self.wf(),
            place < self.entries@.len(),
        ensures
            match filter_fault(*self, self.entries@[place as int]) {
                Some(message) => fails_with(result, ErrorCode::CorruptStorage, message),
                None => result is Ok,
            },
    {
        let entry = &self.entries[place];
        if entry.definition.properties.len() == 0 {
            return corrupt("vector index has no property");
        }
        let target: PropertyId = entry.definition.properties[0];
        if !self.vector_columns.contains_key(target.0 as u128) {
            return corrupt("vector index has no canonical vector column");
        }
        match &entry.runtime {
            Some(RuntimeIndex::Vector { property, .. }) => if property.0 != target.0 {
                corrupt("vector runtime property does not match its definition")
            } else {
                Ok(())
            },
            Some(_) => corrupt("vector definition has a non-vector runtime"),
            None => Ok(()),
        }
    }

    /// Builds every index anew after the nodes of a graph were filtered and compacted. Vector columns
    /// first lose the identities that are gone. Pages keep what is left of them, without training, and
    /// get a generation from what the encoder gives.
    #[verifier::rlimit(60)]
    #[verifier::spinoff_prover]
    pub fn rebuild_row_indexes<E: FnMut(&IvfPqIndex) -> Result<Vec<u8>>>(
        &mut self,
        nodes: &[NodeRecord],
        encoder: E,
    ) -> (result: Result<()>)
        requires
            old(self).wf(),
            encodes(encoder),
            distinct_rows(nodes@),
            forall|i: int|
                0 <= i < old(self).entries@.len() && (#[trigger] old(
                    self).entries@[i]).definition.kind != GraphIndexKind::Vector
                    ==> sound_definition(old(self).entries@[i].definition),
        ensures
            final(self).wf(),
            final(self).embeddings == old(self).embeddings,
            final(self).profile == old(self).profile,
            final(self).entries@.len() == old(self).entries@.len(),
            match result {
                Ok(_) => exists|remaps: Map<u128, Map<u128, u32>>| #[trigger]
                    columns_filtered(
                        *old(self),
                        *final(self),
                        identities(nodes@, nodes@.len() as int),
                        remaps,
                    ) && (forall|i: int|
                        0 <= i < old(self).entries@.len() ==> row_rebuilt(
                            encoder,
                            old(self).entries@[i],
                            #[trigger] final(self).entries@[i],
                            nodes@,
                            remaps,
                        )),
                Err(error) => row_rebuild_fault(encoder, *old(self), *final(self), nodes@, error),
            },
    {
        let mut encode = encoder;
        let ghost before = *self;
        let ids = collect_identities(nodes);
        let remaps = match self.filter_columns(&ids) {
            Ok(remaps) => remaps,
            Err(error) => {
                return Err(error);
            },
        };
        let ghost map = remap_map(remaps@);
        let ghost filtered = *self;
        let total: usize = self.entries.len();
        for index in 0..total
            invariant
                before == *old(self),
                before.wf(),
                total == before.entries@.len(),
                encode == encoder,
                encodes(encoder),
                distinct_rows(nodes@),
                forall|i: int|
                    0 <= i < before.entries@.len() && (#[trigger] before.entries@[i]).definition.kind
                        != GraphIndexKind::Vector ==> sound_definition(
                        before.entries@[i].definition,
                    ),
                map == remap_map(remaps@),
                map.dom() == before.vector_columns@.dom(),
                ascending_keys(remaps@),
                forall|i: int| 0 <= i < remaps@.len() ==> (#[trigger] remaps@[i]).1.wf(),
                filtered.vector_columns@.dom() == before.vector_columns@.dom(),
                filtered == (IndexCatalog { vector_columns: filtered.vector_columns, ..before }),
                columns_filtered(
                    before,
                    filtered,
                    identities(nodes@, nodes@.len() as int),
                    map,
                ),
                self.wf(),
                *self == (IndexCatalog { entries: self.entries, ..filtered }),
                self.entries@.len() == before.entries@.len(),
                forall|i: int|
                    0 <= i < index ==> row_rebuilt(
                        encoder,
                        before.entries@[i],
                        #[trigger] self.entries@[i],
                        nodes@,
                        map,
                    ),
                forall|i: int|
                    index <= i < before.entries@.len() ==> #[trigger] self.entries@[i]
                        == before.entries@[i],
        {
            let ghost middle = *self;
            assert(self.entries@[index as int] == before.entries@[index as int]);
            assert(self.entries@[index as int].wf());
            if is_vector(self.entries[index].definition.kind) {
                assert(filter_fault(*self, self.entries@[index as int]) == filter_fault(
                    before,
                    before.entries@[index as int],
                ));
                match self.check_filter(index) {
                    Ok(_) => {},
                    Err(error) => {
                        assert(entry_unfiltered(
                            encoder,
                            before,
                            before.entries@[index as int],
                            nodes@,
                            map,
                            error,
                        ));
                        assert(row_rebuilt_before(
                            encoder,
                            before,
                            *self,
                            nodes@,
                            map,
                            index as int,
                        ));
                        return Err(error);
                    },
                }
                let property: PropertyId = self.entries[index].definition.properties[0];
                let approximate = match find_remap(&remaps, property.0 as u128) {
                    Some(remap) => {
                        let none: Option<Handle<IvfPqIndex>> = None;
                        let held = match &self.entries[index].runtime {
                            Some(RuntimeIndex::Vector { approximate, .. }) => approximate,
                            _ => &none,
                        };
                        assert(*held == held_pages(before.entries@[index as int]));
                        match filter_pages(held, remap, &mut encode) {
                            Ok(approximate) => approximate,
                            Err(error) => {
                                assert(entry_unfiltered(
                                    encoder,
                                    before,
                                    before.entries@[index as int],
                                    nodes@,
                                    map,
                                    error,
                                ));
                                assert(row_rebuilt_before(
                                    encoder,
                                    before,
                                    *self,
                                    nodes@,
                                    map,
                                    index as int,
                                ));
                                return Err(error);
                            },
                        }
                    },
                    None => {
                        assert(false);
                        None
                    },
                };
                self.entries[index].runtime = Some(RuntimeIndex::Vector { property, approximate });
                self.entries[index].state = DerivedIndexState::Online;
                self.entries[index].diagnostic = None;
            } else {
                match self.entries[index].rebuild_scalar(nodes) {
                    Ok(_) => {},
                    Err(error) => {
                        proof {
                            lemma_one_entry(middle, *self, index as int);
                            assert(self.entries@ =~= middle.entries@);
                            assert(entry_unfiltered(
                                encoder,
                                before,
                                before.entries@[index as int],
                                nodes@,
                                map,
                                error,
                            ));
                            assert(row_rebuilt_before(
                                encoder,
                                before,
                                *self,
                                nodes@,
                                map,
                                index as int,
                            ));
                        }
                        return Err(error);
                    },
                }
            }
            proof {
                assert(self.entries@ =~= middle.entries@.update(
                    index as int,
                    self.entries@[index as int],
                ));
                lemma_one_entry(middle, *self, index as int);
                assert(row_rebuilt(
                    encoder,
                    before.entries@[index as int],
                    self.entries@[index as int],
                    nodes@,
                    map,
                ));
            }
        }
        assert(columns_filtered(
            before,
            *self,
            identities(nodes@, nodes@.len() as int),
            map,
        ));
        Ok(())
    }
}

/// Pages that a build brings online find at least nine of ten neighbors, and were tried on a query.
pub proof fn law_pages_online_find_most_neighbors<
    F: FnMut(&VectorIndex, IvfPqConfig) -> Result<IvfPqIndex>,
>(builder: F, catalog: IndexCatalog, before: IndexEntry, after: IndexEntry)
    requires
        published(builder, catalog, before, after),
        pending(before),
        after.diagnostic is None,
    ensures
        after.runtime matches Some(
            RuntimeIndex::Vector { property, approximate: Some(pages) },
        ) ==> pages.spec_value().recall_basis_points * 10 >= 9 * 10000
            && pages.spec_value().validation_queries > 0,
{
    law_only_validated_pages_go_online(builder, catalog, before, after);
}

} // verus!
