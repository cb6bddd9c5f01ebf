//! Keeping a catalog current: node changes, vector changes, rebuilds and publication.

use crate::error::{Error, ErrorCode, Result};
use crate::index::catalog::{
    conflict, is_online, new_entry, IndexCatalog, IndexEntry, RuntimeIndex,
};
use crate::index::fulltext::TextIndex;
use crate::index::keys::{plain_key, Key};
use crate::index::nodes::{
    composite_key, find_value, first_value, lookups_unique, violates_unique, NodeRecord,
};
use crate::index::profile::{DerivedIndexState, GraphIndexDefinition, GraphIndexKind};
use crate::index::scalar::{row_put, Postings};
use crate::index::terms::{folded, term_of};
use crate::index::vectors::{StoredVector, VectorIndex};
use crate::shared::{clone_faithful, lemma_handle_faithful, Handle};
use crate::values::{PropertyId, Scalar, ScalarValue};
use vstd::prelude::*;

verus! {

/// Postings after a row came to a key or left it; as they were where there is no key.
pub open spec fn row_moved(
    before: Postings,
    after: Postings,
    key: Option<Key>,
    row: u32,
    present: bool,
) -> bool {
    &&& after.wf()
    &&& match key {
        Some(key) => row_put(before, after, key, row, present),
        None => forall|other: Key| #[trigger] after.rows(other) == before.rows(other),
    }
}

/// The index follows changes of the node.
pub open spec fn follows(entry: IndexEntry, node: NodeRecord) -> bool {
    &&& entry.state == DerivedIndexState::Online
    &&& node.has_label(entry.definition.label)
    &&& entry.runtime is Some
}

/// The text that an index of text reads from a node.
pub open spec fn node_text(entry: IndexEntry, node: NodeRecord) -> Option<Seq<char>> {
    if entry.definition.properties@.len() == 0 {
        None
    } else {
        match first_value(node.properties@, entry.definition.properties@[0]) {
            Some(Scalar::Text(text)) => Some(text),
            _ => None,
        }
    }
}

/// The row has the terms of a text; other rows have what they had.
pub open spec fn text_written(
    before: TextIndex,
    after: TextIndex,
    row: u32,
    text: Option<Seq<char>>,
) -> bool {
    &&& after.wf()
    &&& forall|term: Seq<char>| #[trigger]
        after.has_term(row, term) <==> (text matches Some(text) && term_of(folded(text), term))
    &&& forall|other: u32, term: Seq<char>|
        other != row ==> #[trigger] after.has_term(other, term) == before.has_term(other, term)
}

/// The index after the node was added.
pub open spec fn node_added(before: IndexEntry, after: IndexEntry, node: NodeRecord) -> bool {
    &&& after.wf()
    &&& after.definition == before.definition
    &&& after.state == before.state
    &&& after.diagnostic == before.diagnostic
    &&& if !follows(before, node) {
        after == before
    } else {
        match (before.runtime->Some_0, after.runtime) {
            (RuntimeIndex::Equality(old), Some(RuntimeIndex::Equality(new))) => row_moved(
                old.postings,
                new.postings,
                node.node_key(before.definition.properties@),
                node.dense,
                true,
            ),
            (RuntimeIndex::Range(old), Some(RuntimeIndex::Range(new))) => row_moved(
                old.postings,
                new.postings,
                node.node_key(before.definition.properties@),
                node.dense,
                true,
            ),
            (RuntimeIndex::Text(old), Some(RuntimeIndex::Text(new))) => match node_text(
                before,
                node,
            ) {
                Some(text) => text_written(old, new, node.dense, Some(text)),
                None => new == old,
            },
            (RuntimeIndex::Vector { .. }, runtime) => after == before,
            _ => false,
        }
    }
}

/// The index after the node was taken away.
pub open spec fn node_removed(before: IndexEntry, after: IndexEntry, node: NodeRecord) -> bool {
    &&& after.wf()
    &&& after.definition == before.definition
    &&& after.state == before.state
    &&& after.diagnostic == before.diagnostic
    &&& if !follows(before, node) {
        after == before
    } else {
        match (before.runtime->Some_0, after.runtime) {
            (RuntimeIndex::Equality(old), Some(RuntimeIndex::Equality(new))) => row_moved(
                old.postings,
                new.postings,
                node.node_key(before.definition.properties@),
                node.dense,
                false,
            ),
            (RuntimeIndex::Range(old), Some(RuntimeIndex::Range(new))) => row_moved(
                old.postings,
                new.postings,
                node.node_key(before.definition.properties@),
                node.dense,
                false,
            ),
            (RuntimeIndex::Text(old), Some(RuntimeIndex::Text(new))) => text_written(
                old,
                new,
                node.dense,
                None,
            ),
            (RuntimeIndex::Vector { .. }, runtime) => after == before,
            _ => false,
        }
    }
}

/// Another row has the key of the node.
pub open spec fn clashes(entry: IndexEntry, node: NodeRecord) -> bool {
    &&& follows(entry, node)
    &&& entry.definition.unique
    &&& entry.runtime matches Some(RuntimeIndex::Equality(index)) && (node.node_key(
        entry.definition.properties@,
    ) matches Some(key) && exists|other: u32| #[trigger]
        index.postings.rows(key).contains(other) && other != node.dense)
}

/// A scalar index that follows the node meets a value that is not indexed.
pub open spec fn meets_document(entry: IndexEntry, node: NodeRecord) -> bool {
    &&& follows(entry, node)
    &&& entry.runtime->Some_0 is Equality || entry.runtime->Some_0 is Range
    &&& node.refused(entry.definition.properties@)
}

impl IndexEntry {
    fn is_following(&self, node: &NodeRecord) -> (result: bool)
        ensures
            result == follows(*self, *node),
    {
        is_online(self.state) && node.labelled(self.definition.label) && self.runtime.is_some()
    }

    /// Adds a node to the index.
    #[verifier::rlimit(40)]
    #[verifier::spinoff_prover]
    pub fn insert_node(&mut self, node: &NodeRecord) -> (result: Result<()>)
        requires
            old(self).wf(),
        ensures
            match result {
                Ok(_) => {
                    &&& node_added(*old(self), *final(self), *node)
                    &&& accepts(*old(self), *node)
                },
                Err(error) => *final(self) == *old(self) && turns_away(*old(self), *node, error),
            },
    {
        if !self.is_following(node) {
            return Ok(());
        }
        let unique = self.definition.unique;
        let row: u32 = node.dense;
        match &mut self.runtime {
            Some(RuntimeIndex::Equality(index)) => {
                match composite_key(node, self.definition.properties.as_slice()) {
                    Ok(Some(key)) => {
                        if unique && violates_unique(&index.postings, &key, row) {
                            return conflict("node property uniqueness constraint was violated");
                        }
                        index.postings.put(key, row, true);
                    },
                    Ok(None) => {},
                    Err(error) => {
                        return Err(error);
                    },
                }
            },
            Some(RuntimeIndex::Range(index)) => {
                match composite_key(node, self.definition.properties.as_slice()) {
                    Ok(Some(key)) => {
                        index.postings.put(key, row, true);
                    },
                    Ok(None) => {},
                    Err(error) => {
                        return Err(error);
                    },
                }
            },
            Some(RuntimeIndex::Text(index)) => {
                if self.definition.properties.len() > 0 {
                    match find_value(node.properties.as_slice(), self.definition.properties[0]) {
                        Some(ScalarValue::String(text)) => {
                            if index.len() == usize::MAX {
                                return Err(
                                    Error::new(
                                        ErrorCode::ResultBudgetExceeded,
                                        "text index rows exhausted",
                                    ),
                                );
                            }
                            index.upsert(row, text.as_str());
                        },
                        _ => {},
                    }
                }
            },
            _ => {},
        }
        Ok(())
    }

    /// Takes a node out of the index.
    #[verifier::rlimit(40)]
    #[verifier::spinoff_prover]
    pub fn remove_node(&mut self, node: &NodeRecord) -> (result: Result<()>)
        requires
            old(self).wf(),
        ensures
            match result {
                Ok(_) => node_removed(*old(self), *final(self), *node) && !meets_document(
                    *old(self),
                    *node,
                ),
                Err(error) => {
                    &&& *final(self) == *old(self)
                    &&& meets_document(*old(self), *node)
                    &&& error.is(ErrorCode::QueryType, refusal(ErrorCode::QueryType))
                },
            },
    {
        if !self.is_following(node) {
            return Ok(());
        }
        let row: u32 = node.dense;
        match &mut self.runtime {
            Some(RuntimeIndex::Equality(index)) => {
                match composite_key(node, self.definition.properties.as_slice()) {
                    Ok(Some(key)) => {
                        index.postings.put(key, row, false);
                    },
                    Ok(None) => {},
                    Err(error) => {
                        return Err(error);
                    },
                }
            },
            Some(RuntimeIndex::Range(index)) => {
                match composite_key(node, self.definition.properties.as_slice()) {
                    Ok(Some(key)) => {
                        index.postings.put(key, row, false);
                    },
                    Ok(None) => {},
                    Err(error) => {
                        return Err(error);
                    },
                }
            },
            Some(RuntimeIndex::Text(index)) => {
                index.remove(row);
            },
            _ => {},
        }
        Ok(())
    }
}

/// Every lookup of a constraint that was just built finds at most one row.
pub proof fn law_new_constraint_is_unique(
    entry: IndexEntry,
    definition: GraphIndexDefinition,
    nodes: Seq<NodeRecord>,
)
    requires
        definition.unique,
        definition.kind != GraphIndexKind::Vector,
        new_entry(entry, definition, nodes),
    ensures
        entry.runtime matches Some(RuntimeIndex::Equality(index)) && lookups_unique(index.postings),
{
    if let Some(RuntimeIndex::Equality(index)) = entry.runtime {
        assert forall|key: Key| (#[trigger] index.postings.rows(key)).len() <= 1 by {
            index.postings.lemma_sealed(key);
            assert(index.postings.sealed_rows(key).len() <= 1);
        }
    }
}

/// Every lookup of a constraint finds at most one row after a node was added, if that was so before.
pub proof fn law_insert_keeps_unique(before: IndexEntry, after: IndexEntry, node: NodeRecord)
    requires
        before.wf(),
        before.definition.unique,
        before.runtime matches Some(RuntimeIndex::Equality(index)) && lookups_unique(
            index.postings,
        ) && (node.node_key(before.definition.properties@) matches Some(key)
            ==> index.postings.has_room(key)),
        node_added(before, after, node),
        accepts(before, node),
    ensures
        after.runtime matches Some(RuntimeIndex::Equality(index)) && lookups_unique(index.postings),
{
    assert(!refuses(before, node, ErrorCode::TransactionConflict));
    if follows(before, node) {
        let old_rows = before.runtime->Some_0->Equality_0.postings;
        let new_rows = after.runtime->Some_0->Equality_0.postings;
        let own = node.node_key(before.definition.properties@);
        assert forall|key: Key| (#[trigger] new_rows.rows(key)).len() <= 1 by {
            if own is Some && old_rows.same_slot(own->Some_0, key) {
                let rows = new_rows.rows(key);
                old_rows.lemma_slot_rows(own->Some_0, key);
                assert(rows =~= Set::<u32>::empty().insert(node.dense)) by {
                    assert forall|row: u32| rows.contains(row) <==> row == node.dense by {
                        if old_rows.rows(key).contains(row) && row != node.dense {
                            assert(old_rows.rows(own->Some_0).contains(row));
                            assert(clashes(before, node));
                        }
                    }
                }
            } else {
                assert(new_rows.rows(key) == old_rows.rows(key));
            }
        }
    }
}

/// Adding a node and taking it away again leaves the rows of other nodes as they were.
pub proof fn law_insert_then_remove(
    before: IndexEntry,
    middle: IndexEntry,
    after: IndexEntry,
    node: NodeRecord,
    key: Key,
    row: u32,
)
    requires
        before.runtime matches Some(RuntimeIndex::Equality(_)),
        follows(before, node),
        node_added(before, middle, node),
        node_removed(middle, after, node),
        row != node.dense,
        plain_key(key) || (node.node_key(before.definition.properties@) matches Some(own)
            ==> before.runtime->Some_0->Equality_0.postings.has_room(own)
            && middle.runtime->Some_0->Equality_0.postings.has_room(own)),
    ensures
        after.runtime->Some_0->Equality_0.postings.rows(key).contains(row)
            == before.runtime->Some_0->Equality_0.postings.rows(key).contains(row),
{
    let first = before.runtime->Some_0->Equality_0.postings;
    let second = middle.runtime->Some_0->Equality_0.postings;
    let third = after.runtime->Some_0->Equality_0.postings;
    assert(second.rows(key).contains(row) == first.rows(key).contains(row));
    assert(third.rows(key).contains(row) == second.rows(key).contains(row));
}

impl IndexCatalog {
    /// Adds a node to every index that follows it. After a failure the indexes before the one that
    /// turns it away have the node.
    pub fn insert_node(&mut self, node: &NodeRecord) -> (result: Result<()>)
        requires
            old(self).wf(),
        ensures
            final(self).wf(),
            *final(self) == (IndexCatalog { entries: final(self).entries, ..*old(self) }),
            final(self).entries@.len() == old(self).entries@.len(),
            result is Ok ==> all_added(*old(self), *final(self), *node),
            result matches Err(error) ==> exists|place: int|
                turns_away(old(self).entries@[place], *node, error) && #[trigger] added_before(
                    *old(self),
                    *final(self),
                    *node,
                    place,
                ),
    {
        let ghost before = *self;
        let total: usize = self.entries.len();
        for index in 0..total
            invariant
                total == before.entries@.len(),
                before == *old(self),
                before.wf(),
                self.wf(),
                *self == (IndexCatalog { entries: self.entries, ..before }),
                self.entries@.len() == before.entries@.len(),
                forall|i: int|
                    0 <= i < index ==> node_added(
                        before.entries@[i],
                        #[trigger] self.entries@[i],
                        *node,
                    ) && accepts(before.entries@[i], *node),
                forall|i: int|
                    index <= i < before.entries@.len() ==> #[trigger] self.entries@[i]
                        == before.entries@[i],
        {
            let ghost middle = *self;
            assert(self.entries@[index as int].wf());
            let result = self.entries[index].insert_node(node);
            proof {
                lemma_one_entry(middle, *self, index as int);
                assert(self.entries@.len() == middle.entries@.len());
            }
            match result {
                Ok(_) => {},
                Err(error) => {
                    assert(turns_away(before.entries@[index as int], *node, error));
                    assert(self.entries@ =~= middle.entries@);
                    assert(added_before(before, *self, *node, index as int));
                    return Err(error);
                },
            }
        }
        Ok(())
    }

    /// Takes a node out of every index that follows it.
    pub fn remove_node(&mut self, node: &NodeRecord) -> (result: Result<()>)
        requires
            old(self).wf(),
        ensures
            final(self).wf(),
            *final(self) == (IndexCatalog { entries: final(self).entries, ..*old(self) }),
            final(self).entries@.len() == old(self).entries@.len(),
            result is Ok ==> forall|i: int|
                0 <= i < old(self).entries@.len() ==> node_removed(
                    old(self).entries@[i],
                    #[trigger] final(self).entries@[i],
                    *node,
                ),
            result matches Err(error) ==> error.is(
                ErrorCode::QueryType,
                refusal(ErrorCode::QueryType),
            ) && exists|place: int|
                meets_document(old(self).entries@[place], *node) && #[trigger] removed_before(
                    *old(self),
                    *final(self),
                    *node,
                    place,
                ),
    {
        let ghost before = *self;
        let total: usize = self.entries.len();
        for index in 0..total
            invariant
                total == before.entries@.len(),
                before == *old(self),
                before.wf(),
                self.wf(),
                *self == (IndexCatalog { entries: self.entries, ..before }),
                self.entries@.len() == before.entries@.len(),
                forall|i: int|
                    0 <= i < index ==> node_removed(
                        before.entries@[i],
                        #[trigger] self.entries@[i],
                        *node,
                    ) && !meets_document(before.entries@[i], *node),
                forall|i: int|
                    index <= i < before.entries@.len() ==> #[trigger] self.entries@[i]
                        == before.entries@[i],
        {
            let ghost middle = *self;
            assert(self.entries@[index as int].wf());
            let result = self.entries[index].remove_node(node);
            proof {
                lemma_one_entry(middle, *self, index as int);
            }
            match result {
                Ok(_) => {},
                Err(error) => {
                    assert(meets_document(before.entries@[index as int], *node));
                    assert(self.entries@ =~= middle.entries@);
                    assert(removed_before(before, *self, *node, index as int));
                    return Err(error);
                },
            }
        }
        Ok(())
    }

    /// Makes the vectors of a node count no more, in the column of every embedding of one of its labels.
    pub fn remove_node_vectors(&mut self, node: &NodeRecord)
        requires
            old(self).wf(),
        ensures
            final(self).wf(),
            *final(self) == (IndexCatalog {
                vector_columns: final(self).vector_columns,
                ..*old(self)
            }),
            final(self).vector_columns@.dom() == old(self).vector_columns@.dom(),
            forall|key: u128| #[trigger]
                old(self).vector_columns@.dom().contains(key) ==> vector_dropped(
                    old(self).vector_columns@[key].spec_value(),
                    final(self).vector_columns@[key].spec_value(),
                    node.id,
                    node.revision,
                    embedded(*old(self), *node, key, old(self).embeddings@.len() as int),
                ),
    {
        let ghost before = *self;
        proof {
            lemma_handle_faithful::<VectorIndex>();
        }
        let total: usize = self.embeddings.len();
        for index in 0..total
            invariant
                total == before.embeddings@.len(),
                before == *old(self),
                before.wf(),
                self.wf(),
                clone_faithful::<Handle<VectorIndex>>(),
                *self == (IndexCatalog { vector_columns: self.vector_columns, ..before }),
                self.vector_columns@.dom() == before.vector_columns@.dom(),
                forall|key: u128| #[trigger]
                    before.vector_columns@.dom().contains(key) ==> vector_dropped(
                        before.vector_columns@[key].spec_value(),
                        self.vector_columns@[key].spec_value(),
                        node.id,
                        node.revision,
                        embedded(before, *node, key, index as int),
                    ),
        {
            let definition = &self.embeddings[index];
            let property: PropertyId = definition.target_property;
            let labelled = node.labelled(definition.label);
            let ghost middle = *self;
            let key: u128 = property.0 as u128;
            if labelled {
                if let Some(handle) = self.vector_columns.get_mut(key) {
                    handle.value_mut().remove(node.id, node.revision);
                }
            }
            proof {
                assert(self.vector_columns@.dom() =~= before.vector_columns@.dom());
                assert forall|other: u128| #[trigger]
                    before.vector_columns@.dom().contains(other) implies vector_dropped(
                    before.vector_columns@[other].spec_value(),
                    self.vector_columns@[other].spec_value(),
                    node.id,
                    node.revision,
                    embedded(before, *node, other, index + 1),
                ) by {
                    assert(vector_dropped(
                        before.vector_columns@[other].spec_value(),
                        middle.vector_columns@[other].spec_value(),
                        node.id,
                        node.revision,
                        embedded(before, *node, other, index as int),
                    ));
                    lemma_embedded_step(before, *node, other, index as int);
                }
                assert forall|other: u128| #[trigger]
                    self.vector_columns@.dom().contains(other) implies other <= u32::MAX
                    && self.vector_columns@[other].spec_value().wf() by {
                    assert(middle.vector_columns@.dom().contains(other));
                }
            }
        }
    }
}

/// A vector of the node lies in the column: one of the first embeddings has its label and this target.
pub open spec fn embedded(catalog: IndexCatalog, node: NodeRecord, key: u128, count: int) -> bool {
    exists|i: int|
        0 <= i < count && node.has_label((#[trigger] catalog.embeddings@[i]).label)
            && catalog.embeddings@[i].target_property.0 as u128 == key
}

proof fn lemma_embedded_step(catalog: IndexCatalog, node: NodeRecord, key: u128, count: int)
    requires
        0 <= count < catalog.embeddings@.len(),
    ensures
        embedded(catalog, node, key, count + 1) <==> embedded(catalog, node, key, count) || (
        node.has_label(catalog.embeddings@[count].label)
            && catalog.embeddings@[count].target_property.0 as u128 == key),
{
    if embedded(catalog, node, key, count + 1) {
        let i = choose|i: int|
            0 <= i < count + 1 && node.has_label((#[trigger] catalog.embeddings@[i]).label)
                && catalog.embeddings@[i].target_property.0 as u128 == key;
        if i < count {
            assert(node.has_label(catalog.embeddings@[i].label));
        }
    }
    if embedded(catalog, node, key, count) {
        let i = choose|i: int|
            0 <= i < count && node.has_label((#[trigger] catalog.embeddings@[i]).label)
                && catalog.embeddings@[i].target_property.0 as u128 == key;
        assert(0 <= i < count + 1 && node.has_label(catalog.embeddings@[i].label));
    }
    if node.has_label(catalog.embeddings@[count].label)
        && catalog.embeddings@[count].target_property.0 as u128 == key {
        assert(0 <= count < count + 1 && node.has_label(catalog.embeddings@[count].label));
    }
}

/// The column with the vector of an identity dropped, or as it was.
pub open spec fn vector_dropped(
    before: VectorIndex,
    after: VectorIndex,
    entity: u64,
    revision: u64,
    done: bool,
) -> bool {
    if done {
        &&& after.wf()
        &&& after.vector(entity) == match before.vector(entity) {
            Some(vector) => Some(
                StoredVector { coordinates: vector.coordinates, revision, active: false },
            ),
            None => None,
        }
        &&& forall|other: u64|
            other != entity ==> #[trigger] after.vector(other) == before.vector(other)
    } else {
        after == before
    }
}

/// Why an index refuses a node: another row has its key, it has a value that is not indexed, or no more
/// rows of text can be counted.
pub open spec fn refuses(entry: IndexEntry, node: NodeRecord, code: ErrorCode) -> bool {
    match code {
        ErrorCode::TransactionConflict => clashes(entry, node),
        ErrorCode::QueryType => meets_document(entry, node),
        ErrorCode::ResultBudgetExceeded => follows(entry, node) && node_text(entry, node) is Some
            && (entry.runtime matches Some(RuntimeIndex::Text(index)) && index.row_count()
            == usize::MAX),
        _ => false,
    }
}

/// What is said where an index turns a node away.
pub open spec fn refusal(code: ErrorCode) -> Seq<char> {
    match code {
        ErrorCode::TransactionConflict => "node property uniqueness constraint was violated"@,
        ErrorCode::QueryType =>
            "document properties require an explicitly declared document-path index"@,
        _ => "text index rows exhausted"@,
    }
}

/// The index turns the node away with this error.
pub open spec fn turns_away(entry: IndexEntry, node: NodeRecord, error: Error) -> bool {
    refuses(entry, node, error.code) && error.message@ == refusal(error.code)
}

/// The indexes before a place took the node in, the others are as they were.
pub open spec fn added_before(
    before: IndexCatalog,
    after: IndexCatalog,
    node: NodeRecord,
    place: int,
) -> bool {
    &&& 0 <= place < before.entries@.len()
    &&& after.entries@.len() == before.entries@.len()
    &&& forall|i: int|
        0 <= i < place ==> node_added(before.entries@[i], #[trigger] after.entries@[i], node)
            && accepts(before.entries@[i], node)
    &&& forall|i: int|
        place <= i < before.entries@.len() ==> #[trigger] after.entries@[i] == before.entries@[i]
}

/// The indexes before a place gave the node up, the others are as they were.
pub open spec fn removed_before(
    before: IndexCatalog,
    after: IndexCatalog,
    node: NodeRecord,
    place: int,
) -> bool {
    &&& 0 <= place < before.entries@.len()
    &&& after.entries@.len() == before.entries@.len()
    &&& forall|i: int|
        0 <= i < place ==> node_removed(before.entries@[i], #[trigger] after.entries@[i], node)
            && !meets_document(before.entries@[i], node)
    &&& forall|i: int|
        place <= i < before.entries@.len() ==> #[trigger] after.entries@[i] == before.entries@[i]
}

/// Changing one entry without its definition keeps the catalog in order.
pub(crate) proof fn lemma_one_entry(before: IndexCatalog, after: IndexCatalog, place: int)
    requires
        before.wf(),
        0 <= place < before.entries@.len(),
        after.entries@ == before.entries@.update(place, after.entries@[place]),
        after.entries@[place].definition == before.entries@[place].definition,
        after.entries@[place].wf(),
        after.vector_columns == before.vector_columns,
        after.embeddings == before.embeddings,
    ensures
        after.wf(),
{
    assert(crate::index::catalog::entry_names(after.entries@)
        =~= crate::index::catalog::entry_names(before.entries@)) by {
        assert forall|i: int| 0 <= i < before.entries@.len() implies (
        #[trigger] after.entries@[i]).name() == before.entries@[i].name() by {}
    }
    assert forall|i: int| 0 <= i < after.entries@.len() implies (
    #[trigger] after.entries@[i]).wf() by {
        assert(before.entries@[i].wf());
    }
}

/// What a graph mutation does to a node.
#[derive(Clone, Copy, Debug, PartialEq, Eq, Structural)]
pub enum NodeChange {
    Insert,
    SetProperty,
    AddLabels,
    RemoveLabels,
    Delete,
    Other,
}

impl NodeChange {
    /// The node has postings before that it may not have after.
    pub open spec fn unposts(&self) -> bool {
        match self {
            NodeChange::Insert | NodeChange::Other => false,
            _ => true,
        }
    }

    /// The node has postings after that it may not have before.
    pub open spec fn reposts(&self) -> bool {
        match self {
            NodeChange::Delete | NodeChange::Other => false,
            _ => true,
        }
    }
}

/// Every index after the node was taken away.
pub open spec fn all_removed(before: IndexCatalog, after: IndexCatalog, node: NodeRecord) -> bool {
    after.entries@.len() == before.entries@.len() && forall|i: int|
        0 <= i < before.entries@.len() ==> node_removed(
            before.entries@[i],
            #[trigger] after.entries@[i],
            node,
        )
}

/// Every index after the node was added.
pub open spec fn all_added(before: IndexCatalog, after: IndexCatalog, node: NodeRecord) -> bool {
    after.entries@.len() == before.entries@.len() && forall|i: int|
        0 <= i < before.entries@.len() ==> node_added(
            before.entries@[i],
            #[trigger] after.entries@[i],
            node,
        ) && accepts(before.entries@[i], node)
}

/// Nothing keeps the node out of the index.
pub open spec fn accepts(entry: IndexEntry, node: NodeRecord) -> bool {
    forall|code: ErrorCode| !#[trigger] refuses(entry, node, code)
}

impl IndexCatalog {
    /// Takes old postings away before a canonical mutation changes or deletes a node. A node that is to
    /// be deleted loses its vectors too. There is nothing to do for a node that is not there.
    pub fn before_graph_apply(&mut self, node: Option<&NodeRecord>, change: NodeChange) -> (result:
        Result<()>)
        requires
            old(self).wf(),
        ensures
            final(self).wf(),
            match node {
                Some(node) => if change.unposts() {
                    match result {
                        Ok(_) => {
                            &&& all_removed(*old(self), *final(self), *node)
                            &&& final(self).embeddings == old(self).embeddings
                            &&& final(self).profile == old(self).profile
                            &&& final(self).vector_columns@.dom() == old(
                                self).vector_columns@.dom()
                            &&& forall|key: u128| #[trigger]
                                old(self).vector_columns@.dom().contains(key) ==> vector_dropped(
                                    old(self).vector_columns@[key].spec_value(),
                                    final(self).vector_columns@[key].spec_value(),
                                    node.id,
                                    node.revision,
                                    change == NodeChange::Delete && embedded(
                                        *old(self),
                                        *node,
                                        key,
                                        old(self).embeddings@.len() as int,
                                    ),
                                )
                        },
                        Err(error) => error.is(
                            ErrorCode::QueryType,
                            refusal(ErrorCode::QueryType),
                        ) && exists|place: int|
                            meets_document(old(self).entries@[place], *node)
                                && #[trigger] removed_before(
                                *old(self),
                                *final(self),
                                *node,
                                place,
                            ),
                    }
                } else {
                    result is Ok && *final(self) == *old(self)
                },
                None => result is Ok && *final(self) == *old(self),
            },
    {
        let removes = match change {
            NodeChange::Insert => false,
            NodeChange::Other => false,
            _ => true,
        };
        let deletes = match change {
            NodeChange::Delete => true,
            _ => false,
        };
        match node {
            Some(node) => {
                if removes {
                    let ghost before = *self;
                    match self.remove_node(node) {
                        Ok(_) => {},
                        Err(error) => {
                            return Err(error);
                        },
                    }
                    let ghost middle = *self;
                    assert(all_removed(before, middle, *node));
                    if deletes {
                        proof {
                            assert forall|key: u128| embedded(
                                middle,
                                *node,
                                key,
                                middle.embeddings@.len() as int,
                            ) == embedded(
                                before,
                                *node,
                                key,
                                before.embeddings@.len() as int,
                            ) by {}
                        }
                        self.remove_node_vectors(node);
                        assert(self.entries == middle.entries);
                    }
                }
            },
            None => {},
        }
        Ok(())
    }

    /// Adds current postings after a canonical mutation created or changed a node.
    pub fn after_graph_apply(&mut self, node: Option<&NodeRecord>, change: NodeChange) -> (result:
        Result<()>)
        requires
            old(self).wf(),
        ensures
            final(self).wf(),
            *final(self) == (IndexCatalog { entries: final(self).entries, ..*old(self) }),
            match node {
                Some(node) => if change.reposts() {
                    match result {
                        Ok(_) => all_added(*old(self), *final(self), *node),
                        Err(error) => exists|place: int|
                            turns_away(old(self).entries@[place], *node, error)
                                && #[trigger] added_before(
                                *old(self),
                                *final(self),
                                *node,
                                place,
                            ),
                    }
                } else {
                    result is Ok && *final(self) == *old(self)
                },
                None => result is Ok && *final(self) == *old(self),
            },
    {
        let adds = match change {
            NodeChange::Delete => false,
            NodeChange::Other => false,
            _ => true,
        };
        match node {
            Some(node) => if adds {
                self.insert_node(node)
            } else {
                Ok(())
            },
            None => Ok(()),
        }
    }
}

/// A node reaches an index only where the index is online and has one of its labels: every other index
/// stays as it is.
pub proof fn law_nodes_reach_their_indexes(before: IndexEntry, after: IndexEntry, node: NodeRecord)
    requires
        node_added(before, after, node) || node_removed(before, after, node),
        before.state != DerivedIndexState::Online || !node.labels@.contains(before.definition.label),
    ensures
        after == before,
{
}

/// An online equality or range index has a node of its label under its key once it was added, and no
/// longer once it was taken away. Without a key nothing is found that was not found before.
pub proof fn law_added_nodes_are_found(before: IndexEntry, after: IndexEntry, node: NodeRecord)
    requires
        before.state == DerivedIndexState::Online,
        node.labels@.contains(before.definition.label),
        before.runtime matches Some(runtime) && (runtime is Equality || runtime is Range),
    ensures
        ({
            let key = node.node_key(before.definition.properties@);
            let found = match after.runtime {
                Some(RuntimeIndex::Equality(index)) => index.postings,
                Some(RuntimeIndex::Range(index)) => index.postings,
                _ => arbitrary(),
            };
            &&& node_added(before, after, node) && key is Some ==> found.rows(
                key->Some_0,
            ).contains(node.dense)
            &&& node_removed(before, after, node) && key is Some ==> !found.rows(
                key->Some_0,
            ).contains(node.dense)
        }),
{
    let key = node.node_key(before.definition.properties@);
    assert(follows(before, node)) by {
        assert(node.has_label(before.definition.label));
    }
    if key is Some {
        let own = key->Some_0;
        match before.runtime {
            Some(RuntimeIndex::Equality(index)) => {
                assert(index.postings.same_slot(own, own));
            },
            Some(RuntimeIndex::Range(index)) => {
                assert(index.postings.same_slot(own, own));
            },
            _ => {},
        }
    }
}

/// An online constraint turns a node of its label away exactly where another row has its key.
pub proof fn law_duplicates_are_refused(entry: IndexEntry, node: NodeRecord)
    requires
        entry.state == DerivedIndexState::Online,
        entry.definition.unique,
        node.labels@.contains(entry.definition.label),
        entry.runtime matches Some(RuntimeIndex::Equality(_)),
        !node.refused(entry.definition.properties@),
    ensures
        accepts(entry, node) <==> match node.node_key(entry.definition.properties@) {
            Some(key) => forall|other: u32| #[trigger]
                entry.runtime->Some_0->Equality_0.postings.rows(key).contains(other) ==> other
                    == node.dense,
            None => true,
        },
        !accepts(entry, node) ==> refuses(entry, node, ErrorCode::TransactionConflict),
{
    assert(node.has_label(entry.definition.label));
    if accepts(entry, node) {
        assert(!refuses(entry, node, ErrorCode::TransactionConflict));
        if let Some(key) = node.node_key(entry.definition.properties@) {
            assert forall|other: u32| #[trigger]
                entry.runtime->Some_0->Equality_0.postings.rows(key).contains(other) implies other
                == node.dense by {
                if other != node.dense {
                    assert(clashes(entry, node));
                }
            }
        }
    } else {
        let code = choose|code: ErrorCode| #[trigger] refuses(entry, node, code);
        assert(refuses(entry, node, code));
    }
}

/// A node that is inserted is posted, one that is deleted is taken away, one whose properties or labels
/// change is first taken away and then posted, and other changes do neither.
pub proof fn law_changes_repost(change: NodeChange)
    ensures
        change.reposts() <==> change == NodeChange::Insert || change == NodeChange::SetProperty
            || change == NodeChange::AddLabels || change == NodeChange::RemoveLabels,
        change.unposts() <==> change == NodeChange::Delete || change == NodeChange::SetProperty
            || change == NodeChange::AddLabels || change == NodeChange::RemoveLabels,
{
}

} // verus!
