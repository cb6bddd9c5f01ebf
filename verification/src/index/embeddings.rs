//! Canonical vectors of a catalog: embeddings, resolved vector changes and search sources.

use crate::error::{fails_with, Error, ErrorCode, Result};
use crate::index::ann::IvfPqIndex;
use crate::index::catalog::{
    conflict, corrupt, embedding_names, entry_added, is_online, lemma_names_ordered, name_less,
    owns_property, same_text, starting_column, IndexCatalog, IndexEntry, RuntimeIndex,
};
use crate::index::keys::{key_less, Key};
use crate::index::nodes::NodeRecord;
use crate::index::plan::IvfPqConfig;
use crate::index::profile::{
    profile_fault, DerivedIndexState, EmbeddingIndexDefinition, EmbeddingProfile,
    GraphIndexDefinition, GraphIndexKind, SchemaNames,
};
use crate::index::rebuild::{builds, rebuilt};
use crate::index::vectors::{coordinates_fit, same_profile, StoredVector, VectorIndex};
use crate::shared::lemma_handle_faithful;
use crate::text::{equal_but_case, same_but_case};
use crate::values::{LabelId, PropertyId};
use vstd::prelude::*;

verus! {

/// A vector change whose coordinates are already quantized.
pub enum ResolvedVectorMutation {
    Upsert { property: PropertyId, entity_id: u64, coordinates: Vec<u16>, revision: u64 },
    Remove { property: PropertyId, entity_id: u64, revision: u64 },
}

/// The matrix has no room for one more row.
pub open spec fn is_full(column: VectorIndex, entity: u64) -> bool {
    !column.rows@.dom().contains(entity as u128) && ((column.row_total() + 1) * column.dimension
        > usize::MAX || column.row_total() == usize::MAX)
}

/// The vector of an identity is this one; other vectors are as they were.
pub open spec fn vector_stored(
    before: VectorIndex,
    after: VectorIndex,
    entity: u64,
    coordinates: Seq<u16>,
    revision: u64,
) -> bool {
    &&& after.wf()
    &&& same_profile(before, after)
    &&& after.vector(entity) == Some(StoredVector { coordinates, revision, active: true })
    &&& forall|other: u64|
        other != entity ==> #[trigger] after.vector(other) == before.vector(other)
    &&& after.row_total() <= before.row_total() + 1
}

/// What keeps a vector out of a column.
pub open spec fn store_fault(
    column: VectorIndex,
    entity: u64,
    coordinates: Seq<u16>,
) -> Option<(ErrorCode, Seq<char>)> {
    if !coordinates_fit(column.dimension as int, column.dtype, coordinates) {
        Some(
            (
                ErrorCode::EmbeddingProfileMismatch,
                "quantized vector is incompatible with the embedding profile"@,
            ),
        )
    } else if is_full(column, entity) {
        Some((ErrorCode::ResultBudgetExceeded, "vector matrix exceeds addressable memory"@))
    } else {
        None
    }
}

fn store_vector(column: &mut VectorIndex, entity: u64, coordinates: &[u16], revision: u64) -> (
    result: Result<()>)
    requires
        old(column).wf(),
    ensures
        match store_fault(*old(column), entity, coordinates@) {
            Some(fault) => fails_with(result, fault.0, fault.1) && *final(column) == *old(column),
            None => result is Ok && vector_stored(
                *old(column),
                *final(column),
                entity,
                coordinates@,
                revision,
            ),
        },
{
    let known = column.rows.contains_key(entity as u128);
    let rows: usize = column.entity_ids.len();
    let room = if known {
        true
    } else if rows == usize::MAX {
        false
    } else {
        (rows + 1).checked_mul(column.dimension).is_some()
    };
    if !room {
        if crate::index::vectors::check_coordinates(column.dimension, column.dtype, coordinates) {
            return Err(
                Error::new(
                    ErrorCode::ResultBudgetExceeded,
                    "vector matrix exceeds addressable memory",
                ),
            );
        }
        return Err(
            Error::new(
                ErrorCode::EmbeddingProfileMismatch,
                "quantized vector is incompatible with the embedding profile",
            ),
        );
    }
    column.upsert_quantized(entity, coordinates, revision)
}

/// A vector is dropped: it counts no more, under a new revision.
pub open spec fn vector_removed(
    before: VectorIndex,
    after: VectorIndex,
    entity: u64,
    revision: u64,
) -> bool {
    &&& after.wf()
    &&& same_profile(before, after)
    &&& after.vector(entity) == match before.vector(entity) {
        Some(vector) => Some(
            StoredVector { coordinates: vector.coordinates, revision, active: false },
        ),
        None => None,
    }
    &&& forall|other: u64|
        other != entity ==> #[trigger] after.vector(other) == before.vector(other)
}

/// The catalog with one vector column changed.
pub open spec fn column_changed(before: IndexCatalog, after: IndexCatalog, key: u128) -> bool {
    &&& after == IndexCatalog { vector_columns: after.vector_columns, ..before }
    &&& after.vector_columns@ == before.vector_columns@.insert(key, after.vector_columns@[key])
}

impl ResolvedVectorMutation {
    pub open spec fn target(&self) -> PropertyId {
        match self {
            ResolvedVectorMutation::Upsert { property, .. } => *property,
            ResolvedVectorMutation::Remove { property, .. } => *property,
        }
    }

    /// The column after the change.
    pub open spec fn changes(&self, before: VectorIndex, after: VectorIndex) -> bool {
        match self {
            ResolvedVectorMutation::Upsert { entity_id, coordinates, revision, .. } =>
            vector_stored(before, after, *entity_id, coordinates@, *revision),
            ResolvedVectorMutation::Remove { entity_id, revision, .. } => vector_removed(
                before,
                after,
                *entity_id,
                *revision,
            ),
        }
    }

    /// What keeps the change out of the column.
    pub open spec fn fault(&self, column: VectorIndex) -> Option<(ErrorCode, Seq<char>)> {
        match self {
            ResolvedVectorMutation::Upsert { entity_id, coordinates, .. } => store_fault(
                column,
                *entity_id,
                coordinates@,
            ),
            ResolvedVectorMutation::Remove { .. } => None,
        }
    }

    fn apply(&self, column: &mut VectorIndex) -> (result: Result<()>)
        requires
            old(column).wf(),
        ensures
            match self.fault(*old(column)) {
                Some(fault) => fails_with(result, fault.0, fault.1) && *final(column) == *old(
                    column),
                None => result is Ok && self.changes(*old(column), *final(column)),
            },
    {
        match self {
            ResolvedVectorMutation::Upsert { entity_id, coordinates, revision, .. } => store_vector(
                column,
                *entity_id,
                coordinates.as_slice(),
                *revision,
            ),
            ResolvedVectorMutation::Remove { entity_id, revision, .. } => {
                column.remove(*entity_id, *revision);
                Ok(())
            },
        }
    }
}

impl IndexCatalog {
    /// Applies a resolved vector change to its column.
    pub fn apply_vector_mutation(&mut self, mutation: &ResolvedVectorMutation) -> (result: Result<
        (),
    >)
        requires
            old(self).wf(),
        ensures
            final(self).wf(),
            ({
                let key = mutation.target().0 as u128;
                let before = old(self).vector_columns@[key].spec_value();
                if !old(self).vector_columns@.dom().contains(key) {
                    fails_with(
                        result,
                        ErrorCode::EmbeddingProfileMismatch,
                        "resolved vector targets an undeclared vector property"@,
                    ) && same_catalog(*old(self), *final(self))
                } else {
                    match mutation.fault(before) {
                        Some(fault) => fails_with(result, fault.0, fault.1) && column_changed(
                            *old(self),
                            *final(self),
                            key,
                        ) && final(self).vector_columns@[key].spec_value() == before,
                        None => result is Ok && column_changed(*old(self), *final(self), key)
                            && mutation.changes(
                            before,
                            final(self).vector_columns@[key].spec_value(),
                        ),
                    }
                }
            }),
    {
        let property: PropertyId = match mutation {
            ResolvedVectorMutation::Upsert { property, .. } => *property,
            ResolvedVectorMutation::Remove { property, .. } => *property,
        };
        let key: u128 = property.0 as u128;
        proof {
            lemma_handle_faithful::<VectorIndex>();
        }
        let ghost before = *self;
        let result = match self.vector_columns.get_mut(key) {
            Some(handle) => {
                assert(before.vector_columns@.dom().contains(key));
                mutation.apply(handle.value_mut())
            },
            None => Err(
                Error::new(
                    ErrorCode::EmbeddingProfileMismatch,
                    "resolved vector targets an undeclared vector property",
                ),
            ),
        };
        proof {
            if before.vector_columns@.dom().contains(key) {
                lemma_column_changed(before, *self, key);
            }
        }
        result
    }

    /// An online vector matrix and its pages.
    pub fn vector_search_source(&self, name: &str) -> (source: Option<
        (&VectorIndex, Option<&IvfPqIndex>),
    >)
        requires
            self.wf(),
        ensures
            match source {
                Some((matrix, pages)) => exists|place: int| #[trigger]
                    self.named(place, name@) && self.searches(place, *matrix, pages),
                None => forall|place: int| #[trigger]
                    self.named(place, name@) ==> !self.searchable(place),
            },
    {
        match self.position(name) {
            Some(place) => {
                let entry = &self.entries[place];
                let mut source = None;
                if is_online(entry.state) {
                    match &entry.runtime {
                        Some(RuntimeIndex::Vector { property, approximate }) => {
                            let pages = match approximate {
                                Some(handle) => Some(handle.value()),
                                None => None,
                            };
                            match self.vector_columns.get(property.0 as u128) {
                                Some(column) => {
                                    assert(self.searches(
                                        place as int,
                                        column.spec_value(),
                                        pages,
                                    ));
                                    source = Some((column.value(), pages));
                                },
                                None => {},
                            }
                        },
                        _ => {},
                    }
                }
                proof {
                    assert(self.named(place as int, name@));
                    if source is None {
                        assert forall|other: int| #[trigger]
                            self.named(other, name@) implies !self.searchable(other) by {
                            self.lemma_one_name(place as int, other, name@);
                        }
                    }
                }
                source
            },
            None => None,
        }
    }

    /// The index at the place is online and has a matrix.
    pub open spec fn searchable(&self, place: int) -> bool {
        &&& self.entries@[place].state == DerivedIndexState::Online
        &&& self.entries@[place].runtime matches Some(
            RuntimeIndex::Vector { property, approximate },
        ) && self.vector_columns@.dom().contains(property.0 as u128)
    }

    /// A search of the index at the place reads this matrix and these pages.
    pub open spec fn searches(
        &self,
        place: int,
        matrix: VectorIndex,
        pages: Option<&IvfPqIndex>,
    ) -> bool {
        &&& self.searchable(place)
        &&& self.entries@[place].runtime matches Some(
            RuntimeIndex::Vector { property, approximate },
        ) && matrix == self.vector_columns@[property.0 as u128].spec_value() && match (
            approximate,
            pages,
        ) {
            (Some(handle), Some(pages)) => handle.spec_value() == *pages,
            (None, None) => true,
            _ => false,
        }
    }

    /// The definition of an embedding.
    pub fn embedding_definition(&self, name: &str) -> (definition: Option<&EmbeddingIndexDefinition>)
        ensures
            match definition {
                Some(definition) => definition.name@ == name@ && self.embeddings@.contains(
                    *definition,
                ),
                None => forall|i: int|
                    0 <= i < self.embeddings@.len() ==> (#[trigger] self.embeddings@[i]).name@
                        != name@,
            },
    {
        for index in 0..self.embeddings.len()
            invariant
                forall|i: int|
                    0 <= i < index ==> (#[trigger] self.embeddings@[i]).name@ != name@,
        {
            if same_text(self.embeddings[index].name.as_str(), name) {
                assert(self.embeddings@[index as int].name@ == name@);
                return Some(&self.embeddings[index]);
            }
        }
        None
    }

    /// All embeddings have one target.
    pub open spec fn one_target(&self) -> bool {
        forall|i: int|
            0 <= i < self.embeddings@.len() ==> (#[trigger] self.embeddings@[i]).target_property
                == self.embeddings@[0].target_property
    }

    /// The single embedding column of the project, if one is declared.
    pub fn canonical_embedding_column(&self) -> (result: Result<
        Option<(PropertyId, &VectorIndex)>,
    >)
        requires
            self.wf(),
        ensures
            if self.embeddings@.len() == 0 {
                result == Ok::<Option<(PropertyId, &VectorIndex)>, Error>(None)
            } else if !self.one_target() {
                fails_with(
                    result,
                    ErrorCode::EmbeddingProfileMismatch,
                    "project has more than one canonical embedding target"@,
                )
            } else {
                let target = self.embeddings@[0].target_property;
                if self.vector_columns@.dom().contains(target.0 as u128) {
                    result matches Ok(Some((property, column))) && property == target && *column
                        == self.vector_columns@[target.0 as u128].spec_value()
                } else {
                    fails_with(
                        result,
                        ErrorCode::CorruptStorage,
                        "embedding definition has no canonical vector column"@,
                    )
                }
            },
    {
        if self.embeddings.len() == 0 {
            return Ok(None);
        }
        let target: PropertyId = self.embeddings[0].target_property;
        for index in 0..self.embeddings.len()
            invariant
                self.embeddings@.len() > 0,
                target == self.embeddings@[0].target_property,
                forall|i: int|
                    0 <= i < index ==> (#[trigger] self.embeddings@[i]).target_property == target,
        {
            if self.embeddings[index].target_property.0 != target.0 {
                assert(self.embeddings@[index as int].target_property
                    != self.embeddings@[0].target_property);
                return Err(
                    Error::new(
                        ErrorCode::EmbeddingProfileMismatch,
                        "project has more than one canonical embedding target",
                    ),
                );
            }
        }
        match self.vector_columns.get(target.0 as u128) {
            Some(column) => Ok(Some((target, column.value()))),
            None => corrupt("embedding definition has no canonical vector column"),
        }
    }
}

/// The catalogs hold the same.
pub open spec fn same_catalog(before: IndexCatalog, after: IndexCatalog) -> bool {
    &&& after == IndexCatalog { vector_columns: after.vector_columns, ..before }
    &&& after.vector_columns@ == before.vector_columns@
}

proof fn lemma_column_changed(before: IndexCatalog, after: IndexCatalog, key: u128)
    requires
        before.wf(),
        before.vector_columns@.dom().contains(key),
        after == (IndexCatalog { vector_columns: after.vector_columns, ..before }),
        after.vector_columns.wf(),
        after.vector_columns@ == before.vector_columns@.insert(key, after.vector_columns@[key]),
        after.vector_columns@[key].spec_value().wf(),
    ensures
        after.wf(),
        column_changed(before, after, key),
{
    assert forall|other: u128| #[trigger] after.vector_columns@.dom().contains(other) implies other
        <= u32::MAX && after.vector_columns@[other].spec_value().wf() by {
        assert(before.vector_columns@.dom().contains(other));
    }
}

/// A stored vector can be read back, and one that was dropped cannot.
pub proof fn law_vector_changes(
    mutation: ResolvedVectorMutation,
    before: VectorIndex,
    after: VectorIndex,
)
    requires
        mutation.changes(before, after),
    ensures
        match mutation {
            ResolvedVectorMutation::Upsert { entity_id, coordinates, revision, .. } =>
            after.vector(entity_id) matches Some(vector) && vector.active && vector.coordinates
                == coordinates@ && vector.revision == revision,
            ResolvedVectorMutation::Remove { entity_id, .. } => !(after.vector(
                entity_id,
            ) matches Some(vector) && vector.active),
        },
{
}

/// Applying one change twice gives the vectors that applying it once gives.
pub proof fn law_vector_change_replays(
    mutation: ResolvedVectorMutation,
    before: VectorIndex,
    once: VectorIndex,
    twice: VectorIndex,
    entity: u64,
)
    requires
        mutation.changes(before, once),
        mutation.changes(once, twice),
    ensures
        twice.vector(entity) == once.vector(entity),
{
    match mutation {
        ResolvedVectorMutation::Upsert { entity_id, coordinates, revision, .. } => {
            if entity != entity_id {
                assert(twice.vector(entity) == once.vector(entity));
            }
        },
        ResolvedVectorMutation::Remove { entity_id, revision, .. } => {
            if entity != entity_id {
                assert(twice.vector(entity) == once.vector(entity));
            }
        },
    }
}

/// The first node with an identity.
pub open spec fn is_node(nodes: Seq<NodeRecord>, id: u64, place: int) -> bool {
    &&& 0 <= place < nodes.len()
    &&& nodes[place].id == id
    &&& forall|i: int| 0 <= i < place ==> (#[trigger] nodes[i]).id != id
}

/// Some node has the identity.
pub open spec fn has_node(nodes: Seq<NodeRecord>, id: u64) -> bool {
    exists|place: int| #[trigger] is_node(nodes, id, place)
}

fn find_node<'a>(nodes: &'a [NodeRecord], id: u64) -> (node: Option<&'a NodeRecord>)
    ensures
        match node {
            Some(node) => exists|place: int| #[trigger]
                is_node(nodes@, id, place) && nodes@[place] == *node,
            None => !has_node(nodes@, id),
        },
{
    for index in 0..nodes.len()
        invariant
            forall|i: int| 0 <= i < index ==> (#[trigger] nodes@[i]).id != id,
    {
        if nodes[index].id == id {
            assert(is_node(nodes@, id, index as int));
            return Some(&nodes[index]);
        }
    }
    None
}

/// What keeps a row of an embedding out of its column.
pub open spec fn row_fault(
    nodes: Seq<NodeRecord>,
    label: LabelId,
    column: VectorIndex,
    row: (u64, Vec<u16>, u64),
) -> Option<(ErrorCode, Seq<char>)> {
    if !has_node(nodes, row.0) {
        Some((ErrorCode::QueryType, "embedding row references a missing node"@))
    } else if !nodes[choose|place: int| #[trigger] is_node(nodes, row.0, place)].has_label(label) {
        Some((ErrorCode::QueryType, "embedding row does not match the declared label"@))
    } else if !coordinates_fit(column.dimension as int, column.dtype, row.1@) {
        Some(
            (
                ErrorCode::EmbeddingProfileMismatch,
                "quantized vector is incompatible with the embedding profile"@,
            ),
        )
    } else {
        None
    }
}

/// The first row with a fault, and the fault.
pub open spec fn first_row_fault(
    nodes: Seq<NodeRecord>,
    label: LabelId,
    column: VectorIndex,
    rows: Seq<(u64, Vec<u16>, u64)>,
    place: int,
    error: Error,
) -> bool {
    &&& 0 <= place < rows.len()
    &&& row_fault(nodes, label, column, rows[place]) == Some((error.code, error.message@))
    &&& forall|i: int| 0 <= i < place ==> row_fault(nodes, label, column, #[trigger] rows[i]) is None
}

/// The vector of an identity after the first rows were stored: that of the last of them that is its own.
pub open spec fn after_rows(
    before: Option<StoredVector>,
    rows: Seq<(u64, Vec<u16>, u64)>,
    entity: u64,
    count: int,
) -> Option<StoredVector>
    decreases count,
{
    if count <= 0 {
        before
    } else if rows[count - 1].0 == entity {
        Some(
            StoredVector {
                coordinates: rows[count - 1].1@,
                revision: rows[count - 1].2,
                active: true,
            },
        )
    } else {
        after_rows(before, rows, entity, count - 1)
    }
}

/// The matrix cannot take this many more rows.
pub open spec fn too_many_rows(column: VectorIndex, more: int) -> bool {
    (column.row_total() + more) * column.dimension > usize::MAX || column.row_total() + more
        > usize::MAX
}

/// The rows before a place were stored, and the error says why the one there was not.
pub open spec fn rows_stopped(
    nodes: Seq<NodeRecord>,
    label: LabelId,
    rows: Seq<(u64, Vec<u16>, u64)>,
    before: VectorIndex,
    after: VectorIndex,
    place: int,
    error: Error,
) -> bool {
    &&& 0 <= place < rows.len()
    &&& same_profile(before, after)
    &&& forall|entity: u64| #[trigger]
        after.vector(entity) == after_rows(before.vector(entity), rows, entity, place)
    &&& first_row_fault(nodes, label, before, rows, place, error) || (error.is(
        ErrorCode::ResultBudgetExceeded,
        "vector matrix exceeds addressable memory"@,
    ) && too_many_rows(before, rows.len() as int))
}

/// Stores the rows of an embedding, in their order, up to the first that does not fit.
fn store_rows(
    column: &mut VectorIndex,
    nodes: &[NodeRecord],
    label: LabelId,
    rows: &Vec<(u64, Vec<u16>, u64)>,
) -> (result: Result<()>)
    requires
        old(column).wf(),
    ensures
        final(column).wf(),
        same_profile(*old(column), *final(column)),
        match result {
            Ok(_) => {
                &&& forall|i: int|
                    0 <= i < rows@.len() ==> row_fault(
                        nodes@,
                        label,
                        *old(column),
                        #[trigger] rows@[i],
                    ) is None
                &&& forall|entity: u64| #[trigger]
                    final(column).vector(entity) == after_rows(
                        old(column).vector(entity),
                        rows@,
                        entity,
                        rows@.len() as int,
                    )
            },
            Err(error) => exists|place: int| #[trigger]
                rows_stopped(nodes@, label, rows@, *old(column), *final(column), place, error),
        },
{
    let ghost before = *column;
    for index in 0..rows.len()
        invariant
            before == *old(column),
            column.wf(),
            same_profile(before, *column),
            column.row_total() <= before.row_total() + index,
            forall|i: int|
                0 <= i < index ==> row_fault(nodes@, label, before, #[trigger] rows@[i]) is None,
            forall|entity: u64| #[trigger]
                column.vector(entity) == after_rows(
                    before.vector(entity),
                    rows@,
                    entity,
                    index as int,
                ),
    {
        let row = &rows[index];
        match find_node(nodes, row.0) {
            Some(node) => {
                proof {
                    let found = choose|place: int| #[trigger]
                        is_node(nodes@, row.0, place) && nodes@[place] == *node;
                    let chosen = choose|place: int| #[trigger] is_node(nodes@, row.0, place);
                    if found < chosen {
                        assert(nodes@[found].id != row.0);
                    }
                    if chosen < found {
                        assert(nodes@[chosen].id != row.0);
                    }
                }
                if !node.labelled(label) {
                    let error = Error::new(
                        ErrorCode::QueryType,
                        "embedding row does not match the declared label",
                    );
                    assert(first_row_fault(nodes@, label, before, rows@, index as int, error));
                    assert(rows_stopped(
                        nodes@,
                        label,
                        rows@,
                        before,
                        *column,
                        index as int,
                        error,
                    ));
                    return Err(error);
                }
            },
            None => {
                let error = Error::new(
                    ErrorCode::QueryType,
                    "embedding row references a missing node",
                );
                assert(first_row_fault(nodes@, label, before, rows@, index as int, error));
                assert(rows_stopped(
                    nodes@,
                    label,
                    rows@,
                    before,
                    *column,
                    index as int,
                    error,
                ));
                return Err(error);
            },
        }
        let ghost middle = *column;
        match store_vector(column, row.0, row.1.as_slice(), row.2) {
            Ok(_) => {
                assert forall|entity: u64| #[trigger]
                    column.vector(entity) == after_rows(
                        before.vector(entity),
                        rows@,
                        entity,
                        index + 1,
                    ) by {
                    if entity != row.0 {
                        assert(column.vector(entity) == middle.vector(entity));
                    }
                }
            },
            Err(error) => {
                proof {
                    if !coordinates_fit(before.dimension as int, before.dtype, row.1@) {
                        assert(first_row_fault(nodes@, label, before, rows@, index as int, error));
                    } else {
                        let low = middle.row_total() + 1;
                        let high = before.row_total() + rows@.len();
                        assert(low * before.dimension <= high * before.dimension)
                            by (nonlinear_arith)
                            requires
                                low <= high,
                                before.dimension >= 0,
                        ;
                    }
                    assert(rows_stopped(
                        nodes@,
                        label,
                        rows@,
                        before,
                        *column,
                        index as int,
                        error,
                    ));
                }
                return Err(error);
            },
        }
    }
    Ok(())
}

/// What keeps a profile from being that of the project.
pub open spec fn activation_fault(
    catalog: IndexCatalog,
    profile: EmbeddingProfile,
) -> Option<(ErrorCode, Seq<char>)> {
    if profile_fault(profile) is Some {
        profile_fault(profile)
    } else if catalog.profile matches Some(current) && !crate::index::profile::same_profile(
        current,
        profile,
    ) && !catalog.profile_free() {
        Some(
            (
                ErrorCode::EmbeddingProfileImmutable,
                "project embedding profile is fixed by vector data or an index"@,
            ),
        )
    } else {
        None
    }
}

/// The profile of the project once a profile was activated.
pub open spec fn active_profile(catalog: IndexCatalog, profile: EmbeddingProfile) -> EmbeddingProfile {
    match catalog.profile {
        Some(current) => if crate::index::profile::same_profile(current, profile) {
            current
        } else {
            profile
        },
        None => profile,
    }
}

/// What keeps an embedding from being declared.
pub open spec fn embedding_fault(
    catalog: IndexCatalog,
    schema: SchemaNames,
    definition: EmbeddingIndexDefinition,
) -> Option<(ErrorCode, Seq<char>)> {
    if catalog.has(definition.name@) {
        Some((ErrorCode::TransactionConflict, "index already exists"@))
    } else if !same_but_case(definition.model@, "default"@) {
        Some(
            (
                ErrorCode::EmbeddingProfileMismatch,
                "only the active project embedding model is supported"@,
            ),
        )
    } else if !schema.knows_label(definition.label) || !schema.knows_property(
        definition.source_property,
    ) || !schema.knows_property(definition.target_property) {
        Some((ErrorCode::QueryType, "embedding definition references unknown schema IDs"@))
    } else if catalog.owned(definition.target_property) {
        Some(
            (
                ErrorCode::TransactionConflict,
                "a vector index already owns this canonical vector property"@,
            ),
        )
    } else {
        None
    }
}

/// The index of an embedding, which waits for its pages.
pub open spec fn is_embedding_entry(
    entry: IndexEntry,
    definition: EmbeddingIndexDefinition,
) -> bool {
    &&& entry.definition.name@ == definition.name@
    &&& entry.definition.kind == GraphIndexKind::Vector
    &&& entry.definition.label == definition.label
    &&& entry.definition.properties@ == seq![definition.target_property]
    &&& !entry.definition.unique
    &&& entry.state == DerivedIndexState::Populating
    &&& entry.diagnostic is None
    &&& entry.runtime is None
}

/// One more embedding, in its place by name; one of the same name gives way.
pub open spec fn embedding_put(
    before: Seq<EmbeddingIndexDefinition>,
    after: Seq<EmbeddingIndexDefinition>,
    definition: EmbeddingIndexDefinition,
    place: int,
) -> bool {
    &&& 0 <= place <= before.len()
    &&& forall|i: int|
        0 <= i < place ==> key_less(
            Key::Text((#[trigger] before[i]).name@),
            Key::Text(definition.name@),
        )
    &&& if place < before.len() && before[place].name@ == definition.name@ {
        after == before.update(place, definition)
    } else {
        &&& after == before.insert(place, definition)
        &&& place < before.len() ==> key_less(
            Key::Text(definition.name@),
            Key::Text(before[place].name@),
        )
    }
}

/// The catalog once an embedding was declared and its rows were stored.
pub open spec fn embedding_created(
    before: IndexCatalog,
    after: IndexCatalog,
    nodes: Seq<NodeRecord>,
    definition: EmbeddingIndexDefinition,
    profile: EmbeddingProfile,
    rows: Seq<(u64, Vec<u16>, u64)>,
) -> bool {
    let key = definition.target_property.0 as u128;
    &&& after.profile == Some(active_profile(before, profile))
    &&& exists|entry: IndexEntry| #[trigger]
        entry_added(before.entries@, after.entries@, entry) && is_embedding_entry(entry, definition)
    &&& exists|place: int| #[trigger]
        embedding_put(before.embeddings@, after.embeddings@, definition, place)
    &&& after.vector_columns@.dom() == before.vector_columns@.dom().insert(key)
    &&& forall|other: u128|
        #![trigger after.vector_columns@[other]]
        other != key && before.vector_columns@.dom().contains(other)
            ==> after.vector_columns@[other] == before.vector_columns@[other]
    &&& exists|column: VectorIndex| #[trigger]
        starting_column(before, profile, definition.target_property, column) && rows_stored(
            nodes,
            definition.label,
            rows,
            column,
            after.vector_columns@[key].spec_value(),
        )
}

/// Every row fits, and the column holds them.
pub open spec fn rows_stored(
    nodes: Seq<NodeRecord>,
    label: LabelId,
    rows: Seq<(u64, Vec<u16>, u64)>,
    before: VectorIndex,
    after: VectorIndex,
) -> bool {
    &&& same_profile(before, after)
    &&& forall|i: int|
        0 <= i < rows.len() ==> row_fault(nodes, label, before, #[trigger] rows[i]) is None
    &&& forall|entity: u64| #[trigger]
        after.vector(entity) == after_rows(
            before.vector(entity),
            rows,
            entity,
            rows.len() as int,
        )
}

/// Why rows were refused after the embedding itself was found in order, and what was stored by then.
pub open spec fn rows_refused(
    before: IndexCatalog,
    after: IndexCatalog,
    nodes: Seq<NodeRecord>,
    definition: EmbeddingIndexDefinition,
    profile: EmbeddingProfile,
    rows: Seq<(u64, Vec<u16>, u64)>,
    error: Error,
) -> bool {
    let key = definition.target_property.0 as u128;
    ||| error.is(ErrorCode::ResultBudgetExceeded, "vector column count exhausted"@)
        && before.vector_columns@.dom().len() == usize::MAX && after.vector_columns
        == before.vector_columns
    ||| {
        &&& after.vector_columns@.dom() == before.vector_columns@.dom().insert(key)
        &&& forall|other: u128|
            #![trigger after.vector_columns@[other]]
            other != key && before.vector_columns@.dom().contains(other)
                ==> after.vector_columns@[other] == before.vector_columns@[other]
        &&& exists|column: VectorIndex, place: int|
            #![trigger rows_stopped(nodes, definition.label, rows, column,
                after.vector_columns@[key].spec_value(), place, error)]
            starting_column(before, profile, definition.target_property, column) && rows_stopped(
                nodes,
                definition.label,
                rows,
                column,
                after.vector_columns@[key].spec_value(),
                place,
                error,
            )
    }
}

impl IndexCatalog {
    /// Puts an embedding in its place by name.
    fn put_embedding(&mut self, definition: EmbeddingIndexDefinition)
        requires
            old(self).wf(),
        ensures
            final(self).wf(),
            *final(self) == (IndexCatalog { embeddings: final(self).embeddings, ..*old(self) }),
            exists|place: int| #[trigger]
                embedding_put(old(self).embeddings@, final(self).embeddings@, definition, place),
    {
        let ghost before = self.embeddings@;
        let ghost names = embedding_names(before);
        let ghost name = definition.name@;
        let ghost wanted = definition;
        let mut place: usize = 0;
        while place < self.embeddings.len() && name_less(
            &self.embeddings[place].name,
            &definition.name,
        )
            invariant
                self.embeddings@ == before,
                name == definition.name@,
                place <= before.len(),
                forall|i: int|
                    0 <= i < place ==> key_less(
                        Key::Text((#[trigger] before[i]).name@),
                        Key::Text(name),
                    ),
            decreases before.len() - place,
        {
            place = place + 1;
        }
        let ghost here = place as int;
        let same = place < self.embeddings.len() && same_text(
            self.embeddings[place].name.as_str(),
            definition.name.as_str(),
        );
        if same {
            self.embeddings.set(place, definition);
        } else {
            self.embeddings.insert(place, definition);
        }
        proof {
            let after = embedding_names(self.embeddings@);
            if here < before.len() {
                lemma_names_ordered(name, before[here].name@, name);
            }
            assert(embedding_put(before, self.embeddings@, wanted, here));
            assert forall|i: int, j: int| 0 <= i < j < after.len() implies key_less(
                Key::Text(#[trigger] after[i]),
                Key::Text(#[trigger] after[j]),
            ) by {
                if same {
                    assert(after[i] == names[i] && after[j] == names[j]);
                } else {
                    let a = if i < here {
                        i
                    } else {
                        i - 1
                    };
                    let b = if j < here {
                        j
                    } else {
                        j - 1
                    };
                    if i != here {
                        assert(after[i] == names[a]);
                    }
                    if j != here {
                        assert(after[j] == names[b]);
                    }
                    if i != here && j != here {
                        assert(key_less(Key::Text(names[a]), Key::Text(names[b])));
                    } else if i == here {
                        if b > here {
                            assert(key_less(Key::Text(names[here]), Key::Text(names[b])));
                            lemma_names_ordered(name, names[here], names[b]);
                        }
                    } else {
                        assert(names[i] == before[i].name@);
                    }
                }
            }
        }
    }

    /// Stores rows in the column of a property.
    fn store_column_rows(
        &mut self,
        nodes: &[NodeRecord],
        property: PropertyId,
        label: LabelId,
        rows: &Vec<(u64, Vec<u16>, u64)>,
    ) -> (result: Result<()>)
        requires
            old(self).wf(),
            old(self).vector_columns@.dom().contains(property.0 as u128),
        ensures
            final(self).wf(),
            column_changed(*old(self), *final(self), property.0 as u128),
            ({
                let before = old(self).vector_columns@[property.0 as u128].spec_value();
                let after = final(self).vector_columns@[property.0 as u128].spec_value();
                match result {
                    Ok(_) => rows_stored(nodes@, label, rows@, before, after),
                    Err(error) => exists|place: int| #[trigger]
                        rows_stopped(nodes@, label, rows@, before, after, place, error),
                }
            }),
    {
        let key: u128 = property.0 as u128;
        proof {
            lemma_handle_faithful::<VectorIndex>();
        }
        let ghost before = *self;
        assert(before.vector_columns@.dom().contains(key));
        let result = match self.vector_columns.get_mut(key) {
            Some(handle) => store_rows(handle.value_mut(), nodes, label, rows),
            None => {
                assert(false);
                Ok(())
            },
        };
        proof {
            lemma_column_changed(before, *self, key);
        }
        result
    }

    /// Declares an embedding with vectors that are already resolved. Its index waits for its pages.
    /// After a failure in a row the rows before it stay.
    #[verifier::rlimit(60)]
    #[verifier::spinoff_prover]
    pub fn create_embedding_deferred(
        &mut self,
        schema: &SchemaNames,
        nodes: &[NodeRecord],
        definition: EmbeddingIndexDefinition,
        profile: EmbeddingProfile,
        rows: Vec<(u64, Vec<u16>, u64)>,
    ) -> (result: Result<()>)
        requires
            old(self).wf(),
            schema.properties.wf(),
        ensures
            final(self).wf(),
            match activation_fault(*old(self), profile) {
                Some(fault) => fails_with(result, fault.0, fault.1) && *final(self) == *old(self),
                None => match embedding_fault(*old(self), *schema, definition) {
                    Some(fault) => fails_with(result, fault.0, fault.1) && *final(self)
                        == (IndexCatalog {
                        profile: Some(active_profile(*old(self), profile)),
                        ..*old(self)
                    }),
                    None => match result {
                        Ok(_) => embedding_created(
                            *old(self),
                            *final(self),
                            nodes@,
                            definition,
                            profile,
                            rows@,
                        ),
                        Err(error) => {
                            &&& final(self).profile == Some(active_profile(*old(self), profile))
                            &&& final(self).entries == old(self).entries
                            &&& final(self).embeddings == old(self).embeddings
                            &&& rows_refused(
                                *old(self),
                                *final(self),
                                nodes@,
                                definition,
                                profile,
                                rows@,
                                error,
                            )
                        },
                    },
                },
            },
    {
        match self.activate_profile(profile) {
            Ok(_) => {},
            Err(error) => {
                return Err(error);
            },
        }
        let ghost before = *old(self);
        let ghost active = *self;
        let ghost wanted = definition;
        assert(active == IndexCatalog {
            profile: Some(active_profile(before, profile)),
            ..before
        });
        assert(active.wf());
        proof {
            assert forall|place: int, name: Seq<char>| #[trigger]
                active.named(place, name) == before.named(place, name) by {}
            assert(active.has(definition.name@) == before.has(definition.name@)) by {
                if active.has(definition.name@) {
                    let place = choose|place: int| #[trigger]
                        active.named(place, definition.name@);
                    assert(before.named(place, definition.name@));
                }
                if before.has(definition.name@) {
                    let place = choose|place: int| #[trigger]
                        before.named(place, definition.name@);
                    assert(active.named(place, definition.name@));
                }
            }
            assert(active.owned(definition.target_property) == before.owned(
                definition.target_property,
            ));
        }
        if self.contains(definition.name.as_str()) {
            return conflict("index already exists");
        }
        if !equal_but_case(definition.model.as_str(), "default") {
            return Err(
                Error::new(
                    ErrorCode::EmbeddingProfileMismatch,
                    "only the active project embedding model is supported",
                ),
            );
        }
        if definition.label.0 >= schema.labels || schema.properties.property_name(
            definition.source_property,
        ).is_none() || schema.properties.property_name(definition.target_property).is_none() {
            return Err(
                Error::new(
                    ErrorCode::QueryType,
                    "embedding definition references unknown schema IDs",
                ),
            );
        }
        let property: PropertyId = definition.target_property;
        let label: LabelId = definition.label;
        if self.vector_property_owned(property) {
            return conflict("a vector index already owns this canonical vector property");
        }
        match self.ensure_column(property, profile) {
            Ok(_) => {},
            Err(error) => {
                return Err(error);
            },
        }
        let ghost key = property.0 as u128;
        let ghost ready = *self;
        let ghost start = self.vector_columns@[key].spec_value();
        assert(starting_column(before, profile, property, start)) by {
            if before.vector_columns@.dom().contains(key) {
                assert(active.vector_columns@.dom().contains(key));
            }
        }
        match self.store_column_rows(nodes, property, label, &rows) {
            Ok(_) => {},
            Err(error) => {
                proof {
                    let stored = self.vector_columns@[key].spec_value();
                    let place = choose|place: int| #[trigger]
                        rows_stopped(nodes@, label, rows@, start, stored, place, error);
                    assert(rows_stopped(
                        nodes@,
                        wanted.label,
                        rows@,
                        start,
                        stored,
                        place,
                        error,
                    ));
                    assert(self.vector_columns@.dom() =~= before.vector_columns@.dom().insert(key));
                    assert forall|other: u128|
                        #![trigger self.vector_columns@[other]]
                        other != key && before.vector_columns@.dom().contains(other) implies
                        self.vector_columns@[other] == before.vector_columns@[other] by {
                        assert(active.vector_columns@.dom().contains(other));
                        assert(ready.vector_columns@[other] == before.vector_columns@[other]);
                    }
                }
                return Err(error);
            },
        }
        let ghost filled = *self;
        let name = definition.name.clone();
        let entry = IndexEntry {
            definition: GraphIndexDefinition {
                name,
                kind: GraphIndexKind::Vector,
                label,
                properties: vec![property],
                unique: false,
            },
            state: DerivedIndexState::Populating,
            diagnostic: None,
            runtime: None,
        };
        let ghost fresh = entry;
        assert(fresh.definition.properties@ =~= seq![property]);
        assert(fresh.definition.name@ == wanted.name@);
        self.put_embedding(definition);
        assert(!self.has(entry.name())) by {
            if self.has(entry.name()) {
                let place = choose|place: int| #[trigger] self.named(place, entry.name());
                assert(before.named(place, entry.name()));
            }
        }
        self.add_entry(entry);
        proof {
            assert(is_embedding_entry(fresh, wanted));
            assert(entry_added(before.entries@, self.entries@, fresh));
            assert(self.vector_columns == filled.vector_columns);
            assert(self.vector_columns@.dom() =~= before.vector_columns@.dom().insert(key));
            assert forall|other: u128|
                #![trigger self.vector_columns@[other]]
                other != key && before.vector_columns@.dom().contains(other) implies
                self.vector_columns@[other] == before.vector_columns@[other] by {
                assert(active.vector_columns@.dom().contains(other));
                assert(ready.vector_columns@[other] == before.vector_columns@[other]);
            }
        }
        Ok(())
    }

    /// Declares an embedding and builds its index at once.
    #[verifier::rlimit(60)]
    #[verifier::spinoff_prover]
    pub fn create_embedding<F: FnMut(&VectorIndex, IvfPqConfig) -> Result<IvfPqIndex>>(
        &mut self,
        schema: &SchemaNames,
        nodes: &[NodeRecord],
        definition: EmbeddingIndexDefinition,
        profile: EmbeddingProfile,
        rows: Vec<(u64, Vec<u16>, u64)>,
        builder: F,
    ) -> (result: Result<()>)
        requires
            old(self).wf(),
            schema.properties.wf(),
            builds(builder),
            crate::index::catalog::distinct_rows(nodes@),
        ensures
            final(self).wf(),
            match activation_fault(*old(self), profile) {
                Some(fault) => fails_with(result, fault.0, fault.1) && *final(self) == *old(self),
                None => match embedding_fault(*old(self), *schema, definition) {
                    Some(fault) => fails_with(result, fault.0, fault.1) && *final(self)
                        == (IndexCatalog {
                        profile: Some(active_profile(*old(self), profile)),
                        ..*old(self)
                    }),
                    None => match result {
                        Ok(_) => exists|middle: IndexCatalog, place: int|
                            embedding_created(
                                *old(self),
                                middle,
                                nodes@,
                                definition,
                                profile,
                                rows@,
                            ) && #[trigger] middle.named(place, definition.name@) && rebuilt(
                                builder,
                                middle,
                                *final(self),
                                place,
                                nodes@,
                                Ok(()),
                            ),
                        Err(error) => {
                            &&& final(self).profile == Some(active_profile(*old(self), profile))
                            &&& final(self).entries == old(self).entries
                            &&& final(self).embeddings == old(self).embeddings
                            &&& rows_refused(
                                *old(self),
                                *final(self),
                                nodes@,
                                definition,
                                profile,
                                rows@,
                                error,
                            )
                        },
                    },
                },
            },
    {
        let name = definition.name.clone();
        let ghost before = *self;
        let ghost wanted = definition;
        match self.create_embedding_deferred(schema, nodes, definition, profile, rows) {
            Ok(_) => {},
            Err(error) => {
                return Err(error);
            },
        }
        let ghost middle = *self;
        proof {
            let entry = choose|entry: IndexEntry| #[trigger]
                entry_added(before.entries@, middle.entries@, entry) && is_embedding_entry(
                    entry,
                    wanted,
                );
            let place = choose|place: int|
                0 <= place <= before.entries@.len() && middle.entries@
                    == #[trigger] before.entries@.insert(place, entry);
            assert(middle.entries@[place] == entry);
            assert(middle.named(place, wanted.name@));
            assert forall|i: int| #[trigger] middle.named(
                i,
                name@,
            ) implies crate::index::rebuild::sound_definition(middle.entries@[i].definition)
                && middle.entries@[i] == entry by {
                middle.lemma_one_name(i, place, name@);
            }
        }
        self.rebuild(nodes, name.as_str(), builder)
    }
}

/// Of several rows of one identity the last counts, and an identity without a row keeps its vector.
pub proof fn law_last_row_counts(
    before: Option<StoredVector>,
    rows: Seq<(u64, Vec<u16>, u64)>,
    entity: u64,
    place: int,
    count: int,
)
    requires
        0 <= count <= rows.len(),
    ensures
        0 <= place < count && rows[place].0 == entity && (forall|i: int|
            place < i < count ==> (#[trigger] rows[i]).0 != entity) ==> after_rows(
            before,
            rows,
            entity,
            count,
        ) == Some(
            StoredVector {
                coordinates: rows[place].1@,
                revision: rows[place].2,
                active: true,
            },
        ),
        (forall|i: int| 0 <= i < count ==> (#[trigger] rows[i]).0 != entity) ==> after_rows(
            before,
            rows,
            entity,
            count,
        ) == before,
    decreases count,
{
    if count > 0 {
        law_last_row_counts(before, rows, entity, place, count - 1);
        if forall|i: int| 0 <= i < count ==> (#[trigger] rows[i]).0 != entity {
            assert(rows[count - 1].0 != entity);
        }
        if 0 <= place < count - 1 && (forall|i: int|
            place < i < count ==> (#[trigger] rows[i]).0 != entity) {
            assert(rows[count - 1].0 != entity);
        }
    }
}

/// A vector index is searched only where it is online, with the matrix of its own property.
pub proof fn law_searches_use_their_matrix(
    catalog: IndexCatalog,
    place: int,
    matrix: VectorIndex,
    pages: Option<&IvfPqIndex>,
)
    requires
        catalog.searches(place, matrix, pages),
    ensures
        catalog.entries@[place].state == DerivedIndexState::Online,
        catalog.entries@[place].runtime matches Some(RuntimeIndex::Vector { property, approximate })
            && catalog.vector_columns@.dom().contains(property.0 as u128)
            && catalog.vector_columns@[property.0 as u128].spec_value() == matrix && (
        approximate is Some <==> pages is Some),
{
}

/// An embedding that may be defined has a new name, known labels and properties, and a target that no
/// vector index holds already.
pub proof fn law_defined_embeddings_are_new(
    catalog: IndexCatalog,
    schema: SchemaNames,
    definition: EmbeddingIndexDefinition,
    place: int,
)
    requires
        embedding_fault(catalog, schema, definition) is None,
        0 <= place < catalog.entries@.len(),
    ensures
        catalog.entries@[place].definition.name@ != definition.name@,
        catalog.entries@[place].definition.kind == GraphIndexKind::Vector
            && catalog.entries@[place].definition.properties@.len() > 0
            ==> catalog.entries@[place].definition.properties@[0] != definition.target_property,
        definition.label.0 < schema.labels,
        definition.source_property.0 < schema.properties.names().len(),
        definition.target_property.0 < schema.properties.names().len(),
{
    assert(!catalog.named(place, definition.name@));
    assert(!owns_property(catalog.entries@[place], definition.target_property));
}

/// A profile that differs from the current one in anything is refused while the project holds an
/// embedding, a vector column or a vector index, and taken when it holds none.
pub proof fn law_profiles_are_fixed_by_vectors(
    catalog: IndexCatalog,
    current: EmbeddingProfile,
    profile: EmbeddingProfile,
    place: int,
)
    requires
        catalog.profile == Some(current),
        profile_fault(profile) is None,
        current.dimension != profile.dimension || current.similarity != profile.similarity
            || current.dtype != profile.dtype || current.normalized != profile.normalized
            || current.model_hash@ != profile.model_hash@ || current.tokenizer_hash@
            != profile.tokenizer_hash@,
    ensures
        catalog.embeddings@.len() > 0 ==> activation_fault(catalog, profile) is Some,
        catalog.vector_columns@.dom().len() > 0 ==> activation_fault(catalog, profile) is Some,
        0 <= place < catalog.entries@.len() && catalog.entries@[place].definition.kind
            == GraphIndexKind::Vector ==> activation_fault(catalog, profile) is Some,
        catalog.embeddings@.len() == 0 && catalog.vector_columns@.dom().len() == 0 && (forall|
            i: int,
        |
            0 <= i < catalog.entries@.len() ==> (#[trigger] catalog.entries@[i]).definition.kind
                != GraphIndexKind::Vector) ==> activation_fault(catalog, profile) is None,
{
}

} // verus!
