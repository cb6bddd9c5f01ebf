//! Durable index definitions, the lifecycle of their runtimes, and canonical vectors.

use crate::error::{fails_with, Error, ErrorCode, Result};
use crate::index::ann::IvfPqIndex;
use crate::index::bitmap::lemma_rows_finite;
use crate::index::fulltext::TextIndex;
use crate::index::keys::{key_less, IndexKey, Key};
use crate::index::nodes::{
    build_postings, build_text, keys_unique, not_text, posted, some_refused, text_posted,
    validate_unique, NodeRecord,
};
use crate::index::postings::PostingDomain;
use crate::index::profile::{
    definition_fault, profile_fault, same_profile, validate_definition,
    DerivedIndexState, EmbeddingIndexDefinition, EmbeddingProfile, GraphIndexDefinition,
    GraphIndexKind, SchemaNames,
};
use crate::index::scalar::{EqualityIndex, Postings, RangeIndex};
use crate::index::terms::ascending_terms;
use crate::index::vectors::VectorIndex;
use crate::persistent::radix::PersistentMap;
use crate::shared::{clone_faithful, lemma_handle_faithful, Handle};
use crate::values::{LabelId, PropertyId};
use vstd::prelude::*;
use vstd::utf8::encode_utf8;

verus! {

/// The physical state of one index.
pub enum RuntimeIndex {
    Equality(EqualityIndex),
    Range(RangeIndex),
    Text(TextIndex),
    Vector { property: PropertyId, approximate: Option<Handle<IvfPqIndex>> },
}

/// One index: what it is, and how far its physical state has come.
pub struct IndexEntry {
    pub definition: GraphIndexDefinition,
    pub state: DerivedIndexState,
    pub diagnostic: Option<String>,
    pub runtime: Option<RuntimeIndex>,
}

/// Project-scoped durable definitions plus rebuildable physical index state and canonical vectors.
pub struct IndexCatalog {
    /// By ascending name.
    pub entries: Vec<IndexEntry>,
    /// By ascending name.
    pub embeddings: Vec<EmbeddingIndexDefinition>,
    pub profile: Option<EmbeddingProfile>,
    pub vector_columns: PersistentMap<Handle<VectorIndex>>,
}

/// One row of a listing of indexes.
pub struct IndexStatus {
    pub name: String,
    pub kind: GraphIndexKind,
    pub state: DerivedIndexState,
    pub diagnostic: Option<String>,
}

impl RuntimeIndex {
    pub open spec fn wf(&self) -> bool {
        match self {
            RuntimeIndex::Equality(index) => index.postings.wf(),
            RuntimeIndex::Range(index) => index.postings.wf(),
            RuntimeIndex::Text(index) => index.wf(),
            RuntimeIndex::Vector { .. } => true,
        }
    }
}

impl IndexEntry {
    pub open spec fn wf(&self) -> bool {
        self.runtime matches Some(runtime) ==> runtime.wf()
    }

    pub open spec fn name(&self) -> Seq<char> {
        self.definition.name@
    }
}

/// The names of the entries.
pub open spec fn entry_names(entries: Seq<IndexEntry>) -> Seq<Seq<char>> {
    Seq::new(entries.len(), |i: int| entries[i].name())
}

/// The names of the embeddings.
pub open spec fn embedding_names(embeddings: Seq<EmbeddingIndexDefinition>) -> Seq<Seq<char>> {
    Seq::new(embeddings.len(), |i: int| embeddings[i].name@)
}

impl Default for IndexCatalog {
    fn default() -> (catalog: Self)
        ensures
            catalog.wf(),
            catalog.entries@.len() == 0,
            catalog.embeddings@.len() == 0,
            catalog.profile is None,
            catalog.vector_columns@ == Map::<u128, Handle<VectorIndex>>::empty(),
    {
        IndexCatalog {
            entries: Vec::new(),
            embeddings: Vec::new(),
            profile: None,
            vector_columns: PersistentMap::default(),
        }
    }
}

pub(crate) fn same_text(left: &str, right: &str) -> (same: bool)
    ensures
        same == (left@ == right@),
{
    broadcast use vstd::utf8::encode_utf8_decode_utf8;

    let same = crate::bytes::same_bytes(left.as_bytes(), right.as_bytes());
    proof {
        if same {
            assert(vstd::utf8::decode_utf8(encode_utf8(left@)) == left@);
            assert(vstd::utf8::decode_utf8(encode_utf8(right@)) == right@);
        }
    }
    same
}

pub(crate) fn is_online(state: DerivedIndexState) -> (online: bool)
    ensures
        online == (state == DerivedIndexState::Online),
{
    match state {
        DerivedIndexState::Online => true,
        _ => false,
    }
}

pub(crate) fn is_vector(kind: GraphIndexKind) -> (vector: bool)
    ensures
        vector == (kind == GraphIndexKind::Vector),
{
    match kind {
        GraphIndexKind::Vector => true,
        _ => false,
    }
}

pub(crate) fn conflict<T>(message: &str) -> (result: Result<T>)
    ensures
        fails_with(result, ErrorCode::TransactionConflict, message@),
{
    Err(Error::new(ErrorCode::TransactionConflict, message))
}

pub(crate) fn unavailable<T>(message: &str) -> (result: Result<T>)
    ensures
        fails_with(result, ErrorCode::IndexUnavailable, message@),
{
    Err(Error::new(ErrorCode::IndexUnavailable, message))
}

pub(crate) fn corrupt<T>(message: &str) -> (result: Result<T>)
    ensures
        fails_with(result, ErrorCode::CorruptStorage, message@),
{
    Err(Error::new(ErrorCode::CorruptStorage, message))
}

/// One more entry, in its place by name.
pub open spec fn entry_added(
    before: Seq<IndexEntry>,
    after: Seq<IndexEntry>,
    entry: IndexEntry,
) -> bool {
    exists|place: int|
        0 <= place <= before.len() && after == #[trigger] before.insert(place, entry)
}

impl IndexCatalog {
    pub open spec fn wf(&self) -> bool {
        &&& ascending_terms(entry_names(self.entries@))
        &&& ascending_terms(embedding_names(self.embeddings@))
        &&& forall|i: int| 0 <= i < self.entries@.len() ==> (#[trigger] self.entries@[i]).wf()
        &&& self.vector_columns.wf()
        &&& forall|key: u128| #[trigger]
            self.vector_columns@.dom().contains(key) ==> key <= u32::MAX
                && self.vector_columns@[key].spec_value().wf()
    }

    /// The index has this name.
    pub open spec fn named(&self, place: int, name: Seq<char>) -> bool {
        0 <= place < self.entries@.len() && self.entries@[place].name() == name
    }

    /// Some index has this name.
    pub open spec fn has(&self, name: Seq<char>) -> bool {
        exists|place: int| #[trigger] self.named(place, name)
    }

    pub(crate) fn position(&self, name: &str) -> (place: Option<usize>)
        ensures
            match place {
                Some(place) => self.named(place as int, name@),
                None => !self.has(name@),
            },
    {
        for index in 0..self.entries.len()
            invariant
                forall|i: int| 0 <= i < index ==> !self.named(i, name@),
        {
            if same_text(self.entries[index].definition.name.as_str(), name) {
                assert(self.named(index as int, name@));
                return Some(index);
            }
        }
        None
    }

    /// No two entries have one name.
    pub proof fn lemma_one_name(&self, left: int, right: int, name: Seq<char>)
        requires
            self.wf(),
            self.named(left, name),
            self.named(right, name),
        ensures
            left == right,
    {
        let names = entry_names(self.entries@);
        crate::index::terms::lemma_distinct_terms(names);
        assert(names[left] == names[right]);
    }

    pub fn contains(&self, name: &str) -> (contained: bool)
        ensures
            contained == self.has(name@),
    {
        match self.position(name) {
            Some(_) => true,
            None => false,
        }
    }

    pub fn profile(&self) -> (profile: Option<&EmbeddingProfile>)
        ensures
            match profile {
                Some(profile) => self.profile == Some(*profile),
                None => self.profile is None,
            },
    {
        match &self.profile {
            Some(profile) => Some(profile),
            None => None,
        }
    }

    pub fn is_empty(&self) -> (empty: bool)
        requires
            self.vector_columns.wf(),
        ensures
            empty == (self.entries@.len() == 0 && self.embeddings@.len() == 0
                && self.profile is None && self.vector_columns@.dom().len() == 0),
    {
        self.entries.len() == 0 && self.embeddings.len() == 0 && self.profile.is_none()
            && self.vector_columns.len() == 0
    }

    /// Nothing depends on the profile: no embedding, no vector and no vector index.
    pub open spec fn profile_free(&self) -> bool {
        &&& self.embeddings@.len() == 0
        &&& self.vector_columns@.dom().len() == 0
        &&& forall|i: int|
            0 <= i < self.entries@.len() ==> (#[trigger] self.entries@[i]).definition.kind
                != GraphIndexKind::Vector
    }

    /// Whether replacing the project profile would preserve every canonical vector and vector index.
    /// Scalar, range and text indexes do not depend on an embedding profile.
    pub fn embedding_profile_is_mutable(&self) -> (mutable: bool)
        requires
            self.vector_columns.wf(),
        ensures
            mutable == self.profile_free(),
    {
        if self.embeddings.len() > 0 || self.vector_columns.len() > 0 {
            return false;
        }
        for index in 0..self.entries.len()
            invariant
                forall|i: int|
                    0 <= i < index ==> (#[trigger] self.entries@[i]).definition.kind
                        != GraphIndexKind::Vector,
        {
            if is_vector(self.entries[index].definition.kind) {
                assert(self.entries@[index as int].definition.kind == GraphIndexKind::Vector);
                return false;
            }
        }
        true
    }

    /// Makes a profile that of the project. Another one takes its place only where nothing depends on
    /// it.
    pub fn activate_profile(&mut self, profile: EmbeddingProfile) -> (result: Result<()>)
        requires
            old(self).vector_columns.wf(),
        ensures
            match profile_fault(profile) {
                Some(fault) => fails_with(result, fault.0, fault.1) && *final(self) == *old(self),
                None => match old(self).profile {
                    Some(current) => if same_profile(current, profile) {
                        result is Ok && *final(self) == *old(self)
                    } else if old(self).profile_free() {
                        result is Ok && *final(self) == (IndexCatalog {
                            profile: Some(profile),
                            ..*old(self)
                        })
                    } else {
                        fails_with(
                            result,
                            ErrorCode::EmbeddingProfileImmutable,
                            "project embedding profile is fixed by vector data or an index"@,
                        ) && *final(self) == *old(self)
                    },
                    None => result is Ok && *final(self) == (IndexCatalog {
                        profile: Some(profile),
                        ..*old(self)
                    }),
                },
            },
    {
        match profile.validate() {
            Ok(_) => {},
            Err(error) => {
                return Err(error);
            },
        }
        let known = match &self.profile {
            Some(current) => Some(current.matches_profile(&profile)),
            None => None,
        };
        match known {
            Some(true) => Ok(()),
            Some(false) => {
                if !self.embedding_profile_is_mutable() {
                    return Err(
                        Error::new(
                            ErrorCode::EmbeddingProfileImmutable,
                            "project embedding profile is fixed by vector data or an index",
                        ),
                    );
                }
                self.profile = Some(profile);
                Ok(())
            },
            None => {
                self.profile = Some(profile);
                Ok(())
            },
        }
    }

    /// A vector index owns the property.
    pub open spec fn owned(&self, property: PropertyId) -> bool {
        exists|i: int|
            0 <= i < self.entries@.len() && owns_property(#[trigger] self.entries@[i], property)
    }

    pub(crate) fn vector_property_owned(&self, property: PropertyId) -> (owned: bool)
        ensures
            owned == self.owned(property),
    {
        for index in 0..self.entries.len()
            invariant
                forall|i: int|
                    0 <= i < index ==> !owns_property(#[trigger] self.entries@[i], property),
        {
            let definition = &self.entries[index].definition;
            if is_vector(definition.kind) && definition.properties.len() > 0
                && definition.properties[0].0 == property.0 {
                assert(owns_property(self.entries@[index as int], property));
                return true;
            }
        }
        false
    }

    /// Puts an entry in its place by name.
    pub(crate) fn add_entry(&mut self, entry: IndexEntry)
        requires
            old(self).wf(),
            entry.wf(),
            !old(self).has(entry.name()),
        ensures
            final(self).wf(),
            entry_added(old(self).entries@, final(self).entries@, entry),
            *final(self) == (IndexCatalog { entries: final(self).entries, ..*old(self) }),
    {
        let ghost before = self.entries@;
        let ghost names = entry_names(before);
        let ghost name = entry.name();
        let mut place: usize = 0;
        while place < self.entries.len() && name_less(
            &self.entries[place].definition.name,
            &entry.definition.name,
        )
            invariant
                self.entries@ == before,
                names == entry_names(before),
                name == entry.name(),
                place <= before.len(),
                forall|i: int|
                    0 <= i < place ==> key_less(Key::Text(#[trigger] names[i]), Key::Text(name)),
            decreases before.len() - place,
        {
            assert(names[place as int] == before[place as int].name());
            place = place + 1;
        }
        let ghost here = place as int;
        self.entries.insert(place, entry);
        proof {
            let after = entry_names(self.entries@);
            assert(self.entries@ == before.insert(here, entry));
            if here < before.len() {
                assert(names[here] == before[here].name());
                assert(names[here] != name) by {
                    if names[here] == name {
                        assert(old(self).named(here, name));
                    }
                }
                lemma_names_ordered(names[here], name, name);
            }
            assert forall|i: int, j: int| 0 <= i < j < after.len() implies key_less(
                Key::Text(#[trigger] after[i]),
                Key::Text(#[trigger] after[j]),
            ) by {
                let a = if i < here {
                    i
                } else {
                    i - 1
                };
                let b = if j < here {
                    j
                } else {
                    j - 1
                };
                if i != here {
                    assert(after[i] == names[a]);
                }
                if j != here {
                    assert(after[j] == names[b]);
                }
                if i != here && j != here {
                    assert(key_less(Key::Text(names[a]), Key::Text(names[b])));
                } else if i == here {
                    if b > here {
                        assert(key_less(Key::Text(names[here]), Key::Text(names[b])));
                        lemma_names_ordered(name, names[here], names[b]);
                    }
                }
            }
            assert forall|i: int| 0 <= i < self.entries@.len() implies (
            #[trigger] self.entries@[i]).wf() by {
                if i < here {
                    assert(before[i].wf());
                } else if i > here {
                    assert(before[i - 1].wf());
                }
            }
        }
    }
}

/// A vector index of this property.
pub open spec fn owns_property(entry: IndexEntry, property: PropertyId) -> bool {
    entry.definition.kind == GraphIndexKind::Vector && entry.definition.properties@.len() > 0
        && entry.definition.properties@[0] == property
}

pub(crate) proof fn lemma_names_ordered(left: Seq<char>, right: Seq<char>, third: Seq<char>)
    ensures
        !key_less(Key::Text(left), Key::Text(left)),
        key_less(Key::Text(left), Key::Text(right)) && key_less(Key::Text(right), Key::Text(third))
            ==> key_less(Key::Text(left), Key::Text(third)),
        left != right ==> key_less(Key::Text(left), Key::Text(right)) || key_less(
            Key::Text(right),
            Key::Text(left),
        ),
{
    crate::index::keys::law_keys_are_ordered(Key::Text(left), Key::Text(right), Key::Text(third));
    if crate::index::keys::alike(Key::Text(left), Key::Text(right)) {
        crate::index::keys::law_plain_keys(Key::Text(left), Key::Text(right));
    }
}

pub(crate) fn name_less(left: &String, right: &String) -> (less: bool)
    ensures
        less == key_less(Key::Text(left@), Key::Text(right@)),
{
    let a = crate::index::keys::code_of(&IndexKey::String(left.clone()));
    let b = crate::index::keys::code_of(&IndexKey::String(right.clone()));
    crate::index::keys::precedes(&a, &b)
}

/// What a scalar runtime built from nodes holds.
pub open spec fn built(
    definition: GraphIndexDefinition,
    nodes: Seq<NodeRecord>,
    runtime: RuntimeIndex,
) -> bool {
    &&& runtime.wf()
    &&& match (definition.kind, runtime) {
        (GraphIndexKind::Equality, RuntimeIndex::Equality(index)) => holds_postings(
            definition,
            nodes,
            index.postings,
        ),
        (GraphIndexKind::Range, RuntimeIndex::Range(index)) => holds_postings(
            definition,
            nodes,
            index.postings,
        ),
        (GraphIndexKind::Text, RuntimeIndex::Text(index)) => forall|row: u32, term: Seq<char>|
            #[trigger]
            index.has_term(row, term) <==> text_posted(
                nodes,
                nodes.len() as int,
                definition.label,
                definition.properties@[0],
                row,
                term,
            ),
        _ => false,
    }
}

/// The base of the postings holds the nodes of the label by their keys, and no change stands beside it.
pub open spec fn holds_postings(
    definition: GraphIndexDefinition,
    nodes: Seq<NodeRecord>,
    postings: Postings,
) -> bool {
    postings.is_sealed() && forall|key: Key, row: u32| #[trigger]
        postings.rows(key).contains(row) <==> posted(
            nodes,
            nodes.len() as int,
            definition.label,
            definition.properties@,
            key,
            row,
        )
}

/// Some node has a value that the index cannot hold.
pub open spec fn unbuildable(definition: GraphIndexDefinition, nodes: Seq<NodeRecord>) -> bool {
    match definition.kind {
        GraphIndexKind::Text => exists|i: int|
            0 <= i < nodes.len() && not_text(
                #[trigger] nodes[i],
                definition.label,
                definition.properties@[0],
            ),
        _ => some_refused(nodes, definition.label, definition.properties@),
    }
}

/// What is said of an index that cannot be built.
pub open spec fn build_diagnostic(definition: GraphIndexDefinition) -> Seq<char> {
    if definition.kind == GraphIndexKind::Text {
        "text index encountered a non-string value"@
    } else {
        "document properties require an explicitly declared document-path index"@
    }
}

/// Two nodes with the label have keys that are alike.
pub open spec fn shared_key(definition: GraphIndexDefinition, nodes: Seq<NodeRecord>) -> bool {
    exists|key: Key, left: u32, right: u32|
        left != right && #[trigger] key_posted(definition, nodes, key, left) && #[trigger] key_posted(
            definition,
            nodes,
            key,
            right,
        )
}

/// A node of this row has the label and a key like this one.
pub open spec fn key_posted(
    definition: GraphIndexDefinition,
    nodes: Seq<NodeRecord>,
    key: Key,
    row: u32,
) -> bool {
    posted(nodes, nodes.len() as int, definition.label, definition.properties@, key, row)
}

/// Postings of nodes are unique exactly where no two of the nodes have keys that are alike.
pub(crate) proof fn lemma_shared_key(
    definition: GraphIndexDefinition,
    nodes: Seq<NodeRecord>,
    postings: Postings,
)
    requires
        holds_postings(definition, nodes, postings),
        postings.wf(),
    ensures
        shared_key(definition, nodes) == !keys_unique(postings),
{
    assert forall|key: Key| #[trigger] postings.sealed_rows(key) == postings.rows(key) by {
        postings.lemma_sealed(key);
    }
    if !keys_unique(postings) {
        let key = choose|key: Key| (#[trigger] postings.sealed_rows(key)).len() > 1;
        let rows = postings.rows(key);
        lemma_rows_finite(rows);
        let left = rows.choose();
        assert(rows.contains(left));
        let right = rows.remove(left).choose();
        assert(rows.remove(left).len() > 0);
        assert(rows.remove(left).contains(right));
        assert(rows.contains(right));
        assert(key_posted(definition, nodes, key, left));
        assert(key_posted(definition, nodes, key, right));
    }
    if shared_key(definition, nodes) {
        let (key, left, right) = choose|key: Key, left: u32, right: u32|
            left != right && #[trigger] key_posted(definition, nodes, key, left)
                && #[trigger] key_posted(definition, nodes, key, right);
        let rows = postings.rows(key);
        assert(rows.contains(left) && rows.contains(right));
        lemma_rows_finite(rows);
        assert(rows.remove(left).contains(right));
        assert(rows.remove(left).len() > 0);
        assert(postings.sealed_rows(key).len() > 1);
    }
}

/// Nodes have rows of their own.
pub open spec fn distinct_rows(nodes: Seq<NodeRecord>) -> bool {
    forall|i: int, j: int|
        0 <= i < j < nodes.len() ==> (#[trigger] nodes[i]).dense != (#[trigger] nodes[j]).dense
}

/// Builds the runtime of a scalar index.
pub fn build_scalar_runtime(nodes: &[NodeRecord], definition: &GraphIndexDefinition) -> (result:
    Result<RuntimeIndex>)
    requires
        definition.kind != GraphIndexKind::Vector,
        definition.kind == GraphIndexKind::Text ==> definition.properties@.len() > 0,
        distinct_rows(nodes@),
    ensures
        match result {
            Ok(runtime) => !unbuildable(*definition, nodes@) && built(
                *definition,
                nodes@,
                runtime,
            ),
            Err(error) => unbuildable(*definition, nodes@) && error.is(
                ErrorCode::QueryType,
                build_diagnostic(*definition),
            ),
        },
{
    match definition.kind {
        GraphIndexKind::Equality => match build_postings(
            nodes,
            definition.label,
            definition.properties.as_slice(),
            Postings::empty(PostingDomain::Scalar),
        ) {
            Ok(postings) => Ok(RuntimeIndex::Equality(EqualityIndex { postings })),
            Err(error) => Err(error),
        },
        GraphIndexKind::Range => match build_postings(
            nodes,
            definition.label,
            definition.properties.as_slice(),
            Postings::empty(PostingDomain::Scalar),
        ) {
            Ok(postings) => Ok(RuntimeIndex::Range(RangeIndex { postings })),
            Err(error) => Err(error),
        },
        _ => match build_text(nodes, definition.label, definition.properties[0]) {
            Ok(index) => {
                let ghost text = index;
                let runtime = RuntimeIndex::Text(index);
                proof {
                    assert forall|row: u32, term: Seq<char>| #[trigger]
                        text.has_term(row, term) <==> text_posted(
                            nodes@,
                            nodes@.len() as int,
                            definition.label,
                            definition.properties@[0],
                            row,
                            term,
                        ) by {}
                }
                Ok(runtime)
            },
            Err(error) => Err(error),
        },
    }
}

/// What keeps an index from being created.
pub open spec fn create_fault(
    catalog: IndexCatalog,
    schema: SchemaNames,
    definition: GraphIndexDefinition,
) -> Option<(ErrorCode, Seq<char>)> {
    if definition_fault(schema, definition) is Some {
        Some((ErrorCode::QueryType, definition_fault(schema, definition)->Some_0))
    } else if catalog.has(definition.name@) {
        Some((ErrorCode::TransactionConflict, "index already exists"@))
    } else if definition.kind == GraphIndexKind::Vector {
        match catalog.profile {
            None => Some(
                (
                    ErrorCode::EmbeddingProfileMismatch,
                    "vector index requires a project embedding profile"@,
                ),
            ),
            Some(profile) => if profile_fault(profile) is Some {
                profile_fault(profile)
            } else if catalog.owned(definition.properties@[0]) {
                Some(
                    (
                        ErrorCode::TransactionConflict,
                        "a vector index already owns this canonical vector property"@,
                    ),
                )
            } else {
                None
            },
        }
    } else {
        None
    }
}

/// A new index: a vector index waits for its pages, a constraint is online, and another index is
/// online or has failed.
pub open spec fn new_entry(
    entry: IndexEntry,
    definition: GraphIndexDefinition,
    nodes: Seq<NodeRecord>,
) -> bool {
    &&& entry.definition == definition
    &&& if definition.kind == GraphIndexKind::Vector {
        entry.state == DerivedIndexState::Populating && entry.runtime is None
            && entry.diagnostic is None
    } else if unbuildable(definition, nodes) {
        entry.state == DerivedIndexState::Failed && entry.runtime is None && !definition.unique
            && (entry.diagnostic matches Some(diagnostic) && diagnostic@ == build_diagnostic(
            definition,
        ))
    } else {
        &&& entry.state == DerivedIndexState::Online
        &&& entry.diagnostic is None
        &&& entry.runtime matches Some(runtime) && built(definition, nodes, runtime) && (
        definition.unique ==> runtime_unique(runtime))
    }
}

pub open spec fn runtime_unique(runtime: RuntimeIndex) -> bool {
    runtime matches RuntimeIndex::Equality(index) && keys_unique(index.postings)
}

/// A vector column before its rows: the one that was there, or a new one of the profile.
pub open spec fn starting_column(
    catalog: IndexCatalog,
    profile: EmbeddingProfile,
    property: PropertyId,
    column: VectorIndex,
) -> bool {
    if catalog.vector_columns@.dom().contains(property.0 as u128) {
        column == catalog.vector_columns@[property.0 as u128].spec_value()
    } else {
        &&& column.dimension == profile.dimension
        &&& column.similarity == profile.similarity
        &&& column.dtype == profile.dtype
        &&& column.row_total() == 0
    }
}

/// The catalog with a new index.
pub open spec fn created(
    before: IndexCatalog,
    after: IndexCatalog,
    definition: GraphIndexDefinition,
    nodes: Seq<NodeRecord>,
) -> bool {
    &&& exists|entry: IndexEntry| #[trigger]
        entry_added(before.entries@, after.entries@, entry) && new_entry(entry, definition, nodes)
    &&& after.embeddings == before.embeddings
    &&& after.profile == before.profile
    &&& columns_kept(before, after)
    &&& if definition.kind == GraphIndexKind::Vector {
        &&& after.vector_columns@.dom() == before.vector_columns@.dom().insert(
            definition.properties@[0].0 as u128,
        )
        &&& before.profile matches Some(profile) && starting_column(
            before,
            profile,
            definition.properties@[0],
            after.vector_columns@[definition.properties@[0].0 as u128].spec_value(),
        )
    } else {
        after.vector_columns == before.vector_columns
    }
}

/// Every vector column is still there.
pub open spec fn columns_kept(before: IndexCatalog, after: IndexCatalog) -> bool {
    forall|key: u128| #[trigger]
        before.vector_columns@.dom().contains(key) ==> after.vector_columns@.dom().contains(key)
            && after.vector_columns@[key] == before.vector_columns@[key]
}

impl IndexCatalog {
    /// Creates an index. Scalar families are built at once; a vector index waits for its pages.
    #[verifier::rlimit(40)]
    #[verifier::spinoff_prover]
    pub fn create_deferred(
        &mut self,
        schema: &SchemaNames,
        nodes: &[NodeRecord],
        definition: GraphIndexDefinition,
    ) -> (result: Result<()>)
        requires
            old(self).wf(),
            schema.properties.wf(),
            distinct_rows(nodes@),
        ensures
            final(self).wf(),
            match create_fault(*old(self), *schema, definition) {
                Some(fault) => fails_with(result, fault.0, fault.1) && *final(self) == *old(self),
                None => match result {
                    Ok(_) => created(*old(self), *final(self), definition, nodes@),
                    Err(error) => {
                        &&& *final(self) == *old(self)
                        &&& match error.code {
                            ErrorCode::QueryType => definition.unique && unbuildable(
                                definition,
                                nodes@,
                            ) && error.message@ == build_diagnostic(definition),
                            ErrorCode::TransactionConflict => definition.unique && shared_key(
                                definition,
                                nodes@,
                            ) && error.message@
                                == "existing data violates the requested uniqueness constraint"@,
                            ErrorCode::ResultBudgetExceeded => definition.kind
                                == GraphIndexKind::Vector
                                && old(self).vector_columns@.dom().len() == usize::MAX
                                && error.message@ == "vector column count exhausted"@,
                            _ => false,
                        }
                    },
                },
            },
    {
        match validate_definition(schema, &definition) {
            Ok(_) => {},
            Err(error) => {
                return Err(error);
            },
        }
        if self.contains(definition.name.as_str()) {
            return conflict("index already exists");
        }
        let ghost before = *self;
        let ghost wanted = definition;
        if is_vector(definition.kind) {
            let profile: EmbeddingProfile = match &self.profile {
                Some(profile) => *profile,
                None => {
                    return Err(
                        Error::new(
                            ErrorCode::EmbeddingProfileMismatch,
                            "vector index requires a project embedding profile",
                        ),
                    );
                },
            };
            match profile.validate() {
                Ok(_) => {},
                Err(error) => {
                    return Err(error);
                },
            }
            let property: PropertyId = definition.properties[0];
            if self.vector_property_owned(property) {
                return conflict("a vector index already owns this canonical vector property");
            }
            match self.ensure_column(property, profile) {
                Ok(_) => {},
                Err(error) => {
                    return Err(error);
                },
            }
            let entry = IndexEntry {
                definition,
                state: DerivedIndexState::Populating,
                diagnostic: None,
                runtime: None,
            };
            let ghost fresh = entry;
            assert(!self.has(entry.name())) by {
                if self.has(entry.name()) {
                    let place = choose|place: int| #[trigger] self.named(place, entry.name());
                    assert(before.named(place, entry.name()));
                }
            }
            self.add_entry(entry);
            assert(new_entry(fresh, wanted, nodes@));
            return Ok(());
        }
        let runtime = build_scalar_runtime(nodes, &definition);
        if definition.unique {
            let runtime = match runtime {
                Ok(runtime) => runtime,
                Err(error) => {
                    return Err(error);
                },
            };
            match &runtime {
                RuntimeIndex::Equality(index) => {
                    match validate_unique(&index.postings) {
                        Ok(_) => {},
                        Err(error) => {
                            proof {
                                lemma_shared_key(definition, nodes@, index.postings);
                            }
                            return Err(error);
                        },
                    }
                },
                _ => {
                    assert(false);
                },
            }
            let entry = IndexEntry {
                definition,
                state: DerivedIndexState::Online,
                diagnostic: None,
                runtime: Some(runtime),
            };
            let ghost fresh = entry;
            self.add_entry(entry);
            assert(new_entry(fresh, wanted, nodes@));
            return Ok(());
        }
        let entry = match runtime {
            Ok(runtime) => IndexEntry {
                definition,
                state: DerivedIndexState::Online,
                diagnostic: None,
                runtime: Some(runtime),
            },
            Err(error) => IndexEntry {
                definition,
                state: DerivedIndexState::Failed,
                diagnostic: Some(error.message),
                runtime: None,
            },
        };
        let ghost fresh = entry;
        self.add_entry(entry);
        assert(new_entry(fresh, wanted, nodes@));
        Ok(())
    }

    /// Makes sure that a property has a vector column of the profile.
    pub(crate) fn ensure_column(&mut self, property: PropertyId,
        profile: EmbeddingProfile) -> (result: Result<
        (),
    >)
        requires
            old(self).wf(),
            profile.dimension > 0,
        ensures
            final(self).wf(),
            final(self).entries == old(self).entries,
            final(self).embeddings == old(self).embeddings,
            final(self).profile == old(self).profile,
            match result {
                Ok(_) => {
                    &&& columns_kept(*old(self), *final(self))
                    &&& final(self).vector_columns@.dom() == old(self).vector_columns@.dom().insert(
                        property.0 as u128,
                    )
                    &&& !old(self).vector_columns@.dom().contains(property.0 as u128) ==> {
                        let column = final(self).vector_columns@[property.0 as u128].spec_value();
                        &&& column.dimension == profile.dimension
                        &&& column.similarity == profile.similarity
                        &&& column.dtype == profile.dtype
                        &&& column.row_total() == 0
                    }
                },
                Err(error) => *final(self) == *old(self) && error.is(
                    ErrorCode::ResultBudgetExceeded,
                    "vector column count exhausted"@,
                ) && old(self).vector_columns@.dom().len() == usize::MAX,
            },
    {
        let key: u128 = property.0 as u128;
        proof {
            lemma_handle_faithful::<VectorIndex>();
        }
        if self.vector_columns.contains_key(key) {
            assert(self.vector_columns@.dom().insert(key) =~= self.vector_columns@.dom());
            return Ok(());
        }
        if self.vector_columns.len() == usize::MAX {
            return Err(
                Error::new(ErrorCode::ResultBudgetExceeded, "vector column count exhausted"),
            );
        }
        match VectorIndex::new_with_dtype(
            profile.dimension as usize,
            profile.similarity,
            profile.dtype,
        ) {
            Ok(column) => {
                let _ = self.vector_columns.insert(key, Handle::new(column));
                Ok(())
            },
            Err(error) => {
                assert(false);
                Err(error)
            },
        }
    }

    /// Takes an index away that is no constraint.
    pub fn drop_index(&mut self, name: &str) -> (result: Result<()>)
        requires
            old(self).wf(),
        ensures
            final(self).wf(),
            if !old(self).has(name@) {
                fails_with(result, ErrorCode::IndexUnavailable, "index does not exist"@) && *final(
                    self) == *old(self)
            } else if old(self).constrains(name@) {
                fails_with(
                    result,
                    ErrorCode::QueryType,
                    "an enforced uniqueness constraint must be removed with DROP CONSTRAINT"@,
                ) && *final(self) == *old(self)
            } else {
                result is Ok && dropped(*old(self), *final(self), name@)
            },
    {
        match self.position(name) {
            Some(place) => {
                proof {
                    if self.constrains(name@) {
                        let other = choose|other: int| #[trigger]
                            self.named(other, name@) && self.entries@[other].definition.unique;
                        self.lemma_one_name(place as int, other, name@);
                    }
                }
                if self.entries[place].definition.unique {
                    assert(self.named(place as int, name@));
                    return Err(
                        Error::new(
                            ErrorCode::QueryType,
                            "an enforced uniqueness constraint must be removed with DROP CONSTRAINT",
                        ),
                    );
                }
                self.remove_definition(place, name);
                Ok(())
            },
            None => unavailable("index does not exist"),
        }
    }

    /// Takes a uniqueness constraint away.
    pub fn drop_constraint(&mut self, name: &str) -> (result: Result<()>)
        requires
            old(self).wf(),
        ensures
            final(self).wf(),
            if !old(self).constrains(name@) {
                fails_with(
                    result,
                    ErrorCode::IndexUnavailable,
                    "uniqueness constraint does not exist"@,
                ) && *final(self) == *old(self)
            } else {
                result is Ok && dropped(*old(self), *final(self), name@)
            },
    {
        match self.position(name) {
            Some(place) => {
                proof {
                    if self.constrains(name@) {
                        let other = choose|other: int| #[trigger]
                            self.named(other, name@) && self.entries@[other].definition.unique;
                        self.lemma_one_name(place as int, other, name@);
                    }
                }
                if !self.entries[place].definition.unique {
                    return unavailable("uniqueness constraint does not exist");
                }
                assert(self.named(place as int, name@));
                self.remove_definition(place, name);
                Ok(())
            },
            None => unavailable("uniqueness constraint does not exist"),
        }
    }

    /// The name is that of a uniqueness constraint.
    pub open spec fn constrains(&self, name: Seq<char>) -> bool {
        exists|place: int| #[trigger]
            self.named(place, name) && self.entries@[place].definition.unique
    }

    #[verifier::spinoff_prover]
    fn remove_definition(&mut self, place: usize, name: &str)
        requires
            old(self).wf(),
            old(self).named(place as int, name@),
        ensures
            final(self).wf(),
            dropped(*old(self), *final(self), name@),
    {
        let ghost before = *self;
        let _ = self.entries.remove(place);
        proof {
            let names = entry_names(self.entries@);
            let old_names = entry_names(before.entries@);
            assert forall|i: int, j: int| 0 <= i < j < names.len() implies key_less(
                Key::Text(#[trigger] names[i]),
                Key::Text(#[trigger] names[j]),
            ) by {
                let a = if i < place {
                    i
                } else {
                    i + 1
                };
                let b = if j < place {
                    j
                } else {
                    j + 1
                };
                assert(names[i] == old_names[a] && names[j] == old_names[b]);
                assert(key_less(Key::Text(old_names[a]), Key::Text(old_names[b])));
            }
            assert forall|i: int| 0 <= i < self.entries@.len() implies (
            #[trigger] self.entries@[i]).wf() by {
                if i < place {
                    assert(before.entries@[i].wf());
                } else {
                    assert(before.entries@[i + 1].wf());
                }
            }
            assert(self.entries@ == before.entries@.remove(place as int));
        }
        let mut kept: Vec<EmbeddingIndexDefinition> = Vec::new();
        let mut embeddings: Vec<EmbeddingIndexDefinition> = Vec::new();
        core::mem::swap(&mut embeddings, &mut self.embeddings);
        let ghost all = embeddings@;
        let ghost mut seen: int = 0;
        while embeddings.len() > 0
            invariant
                0 <= seen <= all.len(),
                embeddings@ == all.skip(seen),
                kept@ == all.take(seen).filter(|definition: EmbeddingIndexDefinition|
                    definition.name@ != name@),
            decreases embeddings@.len(),
        {
            let definition = embeddings.remove(0);
            proof {
                let keep = |definition: EmbeddingIndexDefinition| definition.name@ != name@;
                assert(definition == all[seen]);
                assert(all.take(seen + 1) =~= all.take(seen).push(definition));
                lemma_filter_push(all.take(seen), definition, keep);
                assert(embeddings@ =~= all.skip(seen + 1));
                seen = seen + 1;
            }
            if !same_text(definition.name.as_str(), name) {
                kept.push(definition);
            }
        }
        proof {
            assert(all.take(seen) =~= all);
            lemma_filter_ascending(
                all,
                |definition: EmbeddingIndexDefinition| definition.name@ != name@,
            );
        }
        self.embeddings = kept;
        self.drop_unused_columns();
    }

    /// Drops the vector columns that no vector index owns.
    fn drop_unused_columns(&mut self)
        requires
            old(self).wf(),
        ensures
            final(self).wf(),
            *final(self) == (IndexCatalog {
                vector_columns: final(self).vector_columns,
                ..*old(self)
            }),
            only_owned(*old(self), final(self).vector_columns@),
    {
        let entries = self.vector_columns.iter();
        let mut keys: Vec<u128> = Vec::new();
        for index in 0..entries.len()
            invariant
                keys@.len() == index,
                forall|i: int| 0 <= i < index ==> #[trigger] keys@[i] == entries@[i].0,
        {
            keys.push(entries[index].0);
        }
        proof {
            lemma_handle_faithful::<VectorIndex>();
            assert forall|key: u128| #[trigger] old(self).vector_columns@.dom().contains(
                key,
            ) implies keys@.contains(key) by {
                let i = choose|i: int| 0 <= i < entries@.len() && (#[trigger] entries@[i]).0 == key;
                assert(keys@[i] == key);
            }
            assert forall|i: int| 0 <= i < keys@.len() implies old(
                self).vector_columns@.dom().contains(#[trigger] keys@[i]) by {
                assert(old(self).vector_columns@.dom().contains(entries@[i].0));
            }
        }
        let ghost before = *self;
        for index in 0..keys.len()
            invariant
                before == *old(self),
                before.wf(),
                clone_faithful::<Handle<VectorIndex>>(),
                self.wf(),
                *self == (IndexCatalog { vector_columns: self.vector_columns, ..before }),
                forall|i: int|
                    0 <= i < keys@.len() ==> before.vector_columns@.dom().contains(
                        #[trigger] keys@[i],
                    ),
                forall|key: u128| #[trigger]
                    self.vector_columns@.dom().contains(key) <==> before.vector_columns@.dom().contains(
                        key,
                    ) && (before.owned(PropertyId(key as u32)) || !keys@.take(
                        index as int,
                    ).contains(key)),
                forall|key: u128| #[trigger]
                    self.vector_columns@.dom().contains(key) ==> self.vector_columns@[key]
                        == before.vector_columns@[key],
        {
            let key: u128 = keys[index];
            let ghost seen = keys@.take(index as int);
            let ghost more = keys@.take(index + 1);
            assert(before.vector_columns@.dom().contains(keys@[index as int]));
            let owned = self.vector_property_owned(PropertyId(key as u32));
            assert(owned == before.owned(PropertyId(key as u32)));
            if !owned {
                let _ = self.vector_columns.remove(key);
            }
            proof {
                assert(more =~= seen.push(key));
                assert forall|other: u128| #[trigger]
                    self.vector_columns@.dom().contains(other)
                        <==> before.vector_columns@.dom().contains(other) && (before.owned(
                        PropertyId(other as u32),
                    ) || !more.contains(other)) by {
                    if seen.contains(other) {
                        let i = choose|i: int| 0 <= i < seen.len() && seen[i] == other;
                        assert(more[i] == other);
                    }
                    if other == key {
                        assert(more[index as int] == key);
                    }
                    if more.contains(other) {
                        let i = choose|i: int| 0 <= i < more.len() && more[i] == other;
                        if i < index {
                            assert(seen[i] == other);
                        }
                    }
                }
            }
        }
        assert(keys@.take(keys@.len() as int) =~= keys@);
    }

    /// Whether an online constraint keeps a property of nodes with a label unique.
    pub fn has_unique_constraint(&self, label: LabelId, property: PropertyId) -> (found: bool)
        ensures
            found == exists|i: int|
                0 <= i < self.entries@.len() && keeps_unique(
                    #[trigger] self.entries@[i],
                    label,
                    property,
                ),
    {
        for index in 0..self.entries.len()
            invariant
                forall|i: int|
                    0 <= i < index ==> !keeps_unique(#[trigger] self.entries@[i], label, property),
        {
            let entry = &self.entries[index];
            if is_online(entry.state) && entry.definition.unique && entry.definition.label.0
                == label.0 && entry.definition.properties.len() == 1
                && entry.definition.properties[0].0 == property.0 {
                assert(keeps_unique(self.entries@[index as int], label, property));
                return true;
            }
        }
        false
    }
}

pub open spec fn keeps_unique(entry: IndexEntry, label: LabelId, property: PropertyId) -> bool {
    &&& entry.state == DerivedIndexState::Online
    &&& entry.definition.unique
    &&& entry.definition.label == label
    &&& entry.definition.properties@.len() == 1
    &&& entry.definition.properties@[0] == property
}

/// Only columns that a vector index owns are left, each as it was.
pub open spec fn only_owned(catalog: IndexCatalog, columns: Map<u128, Handle<VectorIndex>>) -> bool {
    &&& forall|key: u128| #[trigger]
        columns.dom().contains(key) <==> catalog.vector_columns@.dom().contains(key)
            && catalog.owned(PropertyId(key as u32))
    &&& forall|key: u128| #[trigger]
        columns.dom().contains(key) ==> columns[key] == catalog.vector_columns@[key]
}

/// The catalog without an index, its embedding and the columns that nothing owns any more.
pub open spec fn dropped(before: IndexCatalog, after: IndexCatalog, name: Seq<char>) -> bool {
    &&& exists|place: int| #[trigger]
        before.named(place, name) && after.entries@ == before.entries@.remove(place)
    &&& after.embeddings@ == before.embeddings@.filter(
        |definition: EmbeddingIndexDefinition| definition.name@ != name,
    )
    &&& after.profile == before.profile
    &&& forall|key: u128| #[trigger]
        after.vector_columns@.dom().contains(key) <==> before.vector_columns@.dom().contains(key)
            && after.owned(PropertyId(key as u32))
    &&& forall|key: u128| #[trigger]
        after.vector_columns@.dom().contains(key) ==> after.vector_columns@[key]
            == before.vector_columns@[key]
}

proof fn lemma_filter_push<T>(items: Seq<T>, item: T, keep: spec_fn(T) -> bool)
    ensures
        items.push(item).filter(keep) == if keep(item) {
            items.filter(keep).push(item)
        } else {
            items.filter(keep)
        },
{
    reveal(Seq::filter);
    assert(items.push(item).drop_last() =~= items);
}

/// What a filter leaves of embeddings in order of name is in order of name.
proof fn lemma_filter_ascending(
    items: Seq<EmbeddingIndexDefinition>,
    keep: spec_fn(EmbeddingIndexDefinition) -> bool,
)
    requires
        ascending_terms(embedding_names(items)),
    ensures
        ascending_terms(embedding_names(items.filter(keep))),
        forall|i: int|
            0 <= i < items.filter(keep).len() ==> items.contains(
                #[trigger] items.filter(keep)[i],
            ),
    decreases items.len(),
{
    reveal(Seq::filter);
    if items.len() > 0 {
        let rest = items.drop_last();
        let last = items.last();
        let names = embedding_names(items);
        assert(embedding_names(rest) =~= names.drop_last());
        assert(ascending_terms(embedding_names(rest))) by {
            assert forall|i: int, j: int| 0 <= i < j < rest.len() implies key_less(
                Key::Text(#[trigger] embedding_names(rest)[i]),
                Key::Text(#[trigger] embedding_names(rest)[j]),
            ) by {
                assert(key_less(Key::Text(names[i]), Key::Text(names[j])));
            }
        }
        lemma_filter_ascending(rest, keep);
        let kept = rest.filter(keep);
        let all = items.filter(keep);
        assert forall|i: int| 0 <= i < all.len() implies items.contains(#[trigger] all[i]) by {
            if i < kept.len() {
                assert(all[i] == kept[i]);
                let j = choose|j: int| 0 <= j < rest.len() && rest[j] == kept[i];
                assert(items[j] == all[i]);
            } else {
                assert(items[items.len() - 1] == all[i]);
            }
        }
        let after = embedding_names(all);
        let before = embedding_names(kept);
        assert forall|i: int, j: int| 0 <= i < j < after.len() implies key_less(
            Key::Text(#[trigger] after[i]),
            Key::Text(#[trigger] after[j]),
        ) by {
            assert(after[i] == before[i]);
            if j < kept.len() {
                assert(after[j] == before[j]);
            } else {
                let place = choose|place: int| 0 <= place < rest.len() && rest[place] == kept[i];
                assert(names[place] == after[i]);
                assert(names[items.len() - 1] == after[j]);
            }
        }
    }
}

/// Dropping an index that was just created gives the definitions back.
pub proof fn law_create_then_drop(
    before: IndexCatalog,
    middle: IndexCatalog,
    after: IndexCatalog,
    definition: GraphIndexDefinition,
    nodes: Seq<NodeRecord>,
)
    requires
        before.wf(),
        middle.wf(),
        !before.has(definition.name@),
        created(before, middle, definition, nodes),
        dropped(middle, after, definition.name@),
    ensures
        after.entries@ == before.entries@,
        after.profile == before.profile,
{
    let entry = choose|entry: IndexEntry| #[trigger]
        entry_added(before.entries@, middle.entries@, entry) && new_entry(entry, definition, nodes);
    let place = choose|place: int|
        0 <= place <= before.entries@.len() && middle.entries@ == #[trigger] before.entries@.insert(
            place,
            entry,
        );
    let removed = choose|removed: int| #[trigger]
        middle.named(removed, definition.name@) && after.entries@ == middle.entries@.remove(removed);
    assert(middle.entries@[place] == entry);
    assert(middle.named(place, definition.name@));
    middle.lemma_one_name(place, removed, definition.name@);
    assert(after.entries@ =~= before.entries@);
}

/// A constraint on a property is one that is online, of the label, and on that property alone.
pub proof fn law_constraints_hold_one_property(
    catalog: IndexCatalog,
    label: LabelId,
    property: PropertyId,
    place: int,
)
    requires
        0 <= place < catalog.entries@.len(),
    ensures
        keeps_unique(catalog.entries@[place], label, property) <==> {
            let entry = catalog.entries@[place];
            &&& entry.definition.unique
            &&& entry.state == DerivedIndexState::Online
            &&& entry.definition.label == label
            &&& entry.definition.properties@ =~= seq![property]
        },
{
}

/// Two nodes of the label whose keys are alike break a constraint.
pub proof fn law_alike_keys_break_constraints(
    definition: GraphIndexDefinition,
    nodes: Seq<NodeRecord>,
    left: int,
    right: int,
)
    requires
        0 <= left < nodes.len(),
        0 <= right < nodes.len(),
        nodes[left].dense != nodes[right].dense,
        nodes[left].labels@.contains(definition.label),
        nodes[right].labels@.contains(definition.label),
        nodes[left].node_key(definition.properties@) is Some,
        nodes[right].node_key(definition.properties@) is Some,
        crate::index::keys::alike(
            nodes[left].node_key(definition.properties@)->Some_0,
            nodes[right].node_key(definition.properties@)->Some_0,
        ),
    ensures
        shared_key(definition, nodes),
{
    let key = nodes[right].node_key(definition.properties@)->Some_0;
    assert(crate::index::nodes::posts(
        nodes[left],
        definition.label,
        definition.properties@,
        key,
        nodes[left].dense,
    ));
    assert(crate::index::nodes::posts(
        nodes[right],
        definition.label,
        definition.properties@,
        key,
        nodes[right].dense,
    ));
    assert(key_posted(definition, nodes, key, nodes[left].dense));
    assert(key_posted(definition, nodes, key, nodes[right].dense));
}

/// An index that may be created has a new name of one to 255 bytes. A vector index needs a profile, and a
/// property that no other vector index holds.
pub proof fn law_created_indexes_are_new(
    catalog: IndexCatalog,
    schema: SchemaNames,
    definition: GraphIndexDefinition,
    place: int,
)
    requires
        create_fault(catalog, schema, definition) is None,
    ensures
        1 <= encode_utf8(definition.name@).len() <= 255,
        definition.label.0 < schema.labels,
        definition.properties@.len() > 0,
        definition.kind == GraphIndexKind::Vector ==> catalog.profile is Some,
        0 <= place < catalog.entries@.len() ==> {
            let other = catalog.entries@[place].definition;
            &&& other.name@ != definition.name@
            &&& definition.kind == GraphIndexKind::Vector && other.kind == GraphIndexKind::Vector
                && other.properties@.len() > 0 ==> other.properties@[0]
                != definition.properties@[0]
        },
{
    if 0 <= place < catalog.entries@.len() {
        assert(!catalog.named(place, definition.name@));
        if definition.kind == GraphIndexKind::Vector {
            assert(!owns_property(catalog.entries@[place], definition.properties@[0]));
        }
    }
}

} // verus!
