//! Reading through a catalog: candidates, statuses and the generation of its access paths.

use crate::bytes::{
    framed_bytes, law_le_round_trip, le_bytes, lemma_byte_ranges, lemma_le_len, push_framed, push_le,
};
use crate::digest::{blake3_digest, digest};
use crate::error::{fails_with, ErrorCode, Result};
use crate::index::bitmap::rows_of_bitmap;
use crate::index::catalog::{
    corrupt, is_online, new_entry, IndexCatalog, IndexEntry, IndexStatus, RuntimeIndex,
};
use crate::index::keys::{alike, IndexKey};
use crate::index::nodes::{
    combined, find_value, first_value, key_parts, posted, posts, scalar_lookup_key, KeyOutcome,
    NodeRecord,
};
use crate::index::postings::first_of;
use crate::index::profile::{
    DerivedIndexState, EmbeddingIndexDefinition, GraphIndexDefinition, GraphIndexKind,
};
use crate::index::scalar::Postings;
use crate::values::{LabelId, PropertyId, ScalarValue};
use vstd::prelude::*;
use vstd::utf8::encode_utf8;

verus! {

/// Exact local posting estimate selected by stable cardinality and name ordering.
pub struct ScalarIndexCandidate {
    pub name: String,
    pub estimated_rows: u64,
}

/// The entry answers equality on these values: it is online, of this label, scalar, and all its
/// properties have a value.
pub open spec fn eligible(
    entry: IndexEntry,
    label: LabelId,
    values: Seq<(PropertyId, ScalarValue)>,
) -> bool {
    &&& entry.state == DerivedIndexState::Online
    &&& entry.definition.label == label
    &&& entry.definition.kind == GraphIndexKind::Equality || entry.definition.kind
        == GraphIndexKind::Range
    &&& forall|i: int|
        0 <= i < entry.definition.properties@.len() ==> first_value(
            values,
            #[trigger] entry.definition.properties@[i],
        ) is Some
}

fn is_eligible(entry: &IndexEntry, label: LabelId, values: &[(PropertyId, ScalarValue)]) -> (result:
    bool)
    ensures
        result == eligible(*entry, label, values@),
{
    let scalar = match entry.definition.kind {
        GraphIndexKind::Equality => true,
        GraphIndexKind::Range => true,
        _ => false,
    };
    if !is_online(entry.state) || entry.definition.label.0 != label.0 || !scalar {
        return false;
    }
    for index in 0..entry.definition.properties.len()
        invariant
            forall|i: int|
                0 <= i < index ==> first_value(
                    values@,
                    #[trigger] entry.definition.properties@[i],
                ) is Some,
    {
        if find_value(values, entry.definition.properties[index]).is_none() {
            assert(first_value(values@, entry.definition.properties@[index as int]) is None);
            return false;
        }
    }
    true
}

/// What an eligible entry says: the rows of a key, none where a value is NULL, or a fault.
pub enum Lookup {
    Rows(Set<u32>),
    Fault(ErrorCode, Seq<char>),
}

/// What an eligible entry says of the values.
pub open spec fn looked_up(entry: IndexEntry, values: Seq<(PropertyId, ScalarValue)>) -> Lookup {
    match key_parts(values, entry.definition.properties@, 0) {
        KeyOutcome::Absent => Lookup::Rows(Set::empty()),
        KeyOutcome::Refused => Lookup::Fault(
            ErrorCode::QueryType,
            "document properties require an explicitly declared document-path index"@,
        ),
        KeyOutcome::Parts(parts) => match entry.runtime {
            None => Lookup::Fault(
                ErrorCode::CorruptStorage,
                "ONLINE scalar index has no physical runtime"@,
            ),
            Some(RuntimeIndex::Equality(index)) => Lookup::Rows(
                index.postings.rows(combined(parts)),
            ),
            Some(RuntimeIndex::Range(index)) => Lookup::Rows(index.postings.rows(combined(parts))),
            Some(_) => Lookup::Fault(
                ErrorCode::CorruptStorage,
                "scalar index definition and runtime kind differ"@,
            ),
        },
    }
}

/// The postings and the key by which an eligible entry answers; nothing where a value is NULL.
fn lookup_source<'a>(entry: &'a IndexEntry, values: &[(PropertyId, ScalarValue)]) -> (result: Result<
    Option<(&'a Postings, IndexKey)>,
>)
    requires
        entry.wf(),
    ensures
        match looked_up(*entry, values@) {
            Lookup::Fault(code, message) => fails_with(result, code, message),
            Lookup::Rows(rows) => match result {
                Ok(Some((postings, key))) => {
                    &&& postings.wf()
                    &&& postings.rows(key.key()) == rows
                },
                Ok(None) => rows == Set::<u32>::empty(),
                Err(_) => false,
            },
        },
{
    let key = match scalar_lookup_key(entry.definition.properties.as_slice(), values) {
        Ok(Some(key)) => key,
        Ok(None) => {
            return Ok(None);
        },
        Err(error) => {
            return Err(error);
        },
    };
    match &entry.runtime {
        None => corrupt("ONLINE scalar index has no physical runtime"),
        Some(RuntimeIndex::Equality(index)) => Ok(Some((&index.postings, key))),
        Some(RuntimeIndex::Range(index)) => Ok(Some((&index.postings, key))),
        Some(_) => corrupt("scalar index definition and runtime kind differ"),
    }
}

/// Rows in ascending order.
pub open spec fn lists(list: Seq<u32>, rows: Set<u32>) -> bool {
    &&& forall|i: int, j: int| 0 <= i < j < list.len() ==> (#[trigger] list[i]) < (#[trigger] list[j])
    &&& forall|row: u32| #[trigger] list.contains(row) <==> rows.contains(row)
}

/// An index with this name that answers equality on the values.
pub open spec fn answers_by_name(
    catalog: IndexCatalog,
    place: int,
    name: Seq<char>,
    label: LabelId,
    values: Seq<(PropertyId, ScalarValue)>,
) -> bool {
    catalog.named(place, name) && eligible(catalog.entries@[place], label, values)
}

impl IndexCatalog {
    /// Reads one named equality or range posting. Nothing means that the index no longer answers, and
    /// the caller is to scan.
    pub fn equality_candidates_named(
        &self,
        name: &str,
        label: LabelId,
        values: &[(PropertyId, ScalarValue)],
    ) -> (result: Result<Option<Vec<u32>>>)
        requires
            self.wf(),
        ensures
            (forall|place: int| !#[trigger] answers_by_name(*self, place, name@, label, values@))
                ==> (result matches Ok(None)),
            (forall|i: int|
                0 <= i < self.entries@.len() ==> (#[trigger] self.entries@[i]).definition.label
                    != label) ==> (result matches Ok(None)),
            forall|place: int| #[trigger]
                answers_by_name(*self, place, name@, label, values@) ==> match looked_up(
                    self.entries@[place],
                    values@,
                ) {
                    Lookup::Rows(rows) => result matches Ok(Some(list)) && lists(list@, rows),
                    Lookup::Fault(code, message) => fails_with(result, code, message),
                },
    {
        let place: usize = match self.position(name) {
            Some(place) => place,
            None => {
                assert forall|place: int| !#[trigger] answers_by_name(
                    *self,
                    place,
                    name@,
                    label,
                    values@,
                ) by {}
                return Ok(None);
            },
        };
        proof {
            assert forall|other: int| #[trigger]
                answers_by_name(*self, other, name@, label, values@) implies other == place by {
                self.lemma_one_name(other, place as int, name@);
            }
        }
        let entry = &self.entries[place];
        assert(self.entries@[place as int].wf());
        if !is_eligible(entry, label, values) {
            return Ok(None);
        }
        assert(answers_by_name(*self, place as int, name@, label, values@));
        match lookup_source(entry, values) {
            Ok(Some((postings, key))) => match postings.get(&key) {
                Some(rows) => Ok(Some(rows_of_bitmap(&rows))),
                None => Ok(Some(Vec::new())),
            },
            Ok(None) => Ok(Some(Vec::new())),
            Err(error) => Err(error),
        }
    }

    /// Bounded equivalent of `equality_candidates_named`. The posting is never expanded into an unbounded
    /// row vector.
    pub fn equality_candidates_named_bounded(
        &self,
        name: &str,
        label: LabelId,
        values: &[(PropertyId, ScalarValue)],
        limit: usize,
    ) -> (result: Result<Option<Vec<u32>>>)
        requires
            self.wf(),
        ensures
            limit == 0 ==> (result matches Ok(Some(list)) && list@.len() == 0),
            limit > 0 && (forall|place: int|
                !#[trigger] answers_by_name(*self, place, name@, label, values@)) ==> (
            result matches Ok(None)),
            limit > 0 ==> forall|place: int| #[trigger]
                answers_by_name(*self, place, name@, label, values@) ==> match looked_up(
                    self.entries@[place],
                    values@,
                ) {
                    Lookup::Rows(rows) => result matches Ok(Some(list)) && first_of(
                        list@,
                        rows,
                        limit as int,
                    ),
                    Lookup::Fault(code, message) => fails_with(result, code, message),
                },
    {
        if limit == 0 {
            return Ok(Some(Vec::new()));
        }
        let place: usize = match self.position(name) {
            Some(place) => place,
            None => {
                assert forall|place: int| !#[trigger] answers_by_name(
                    *self,
                    place,
                    name@,
                    label,
                    values@,
                ) by {}
                return Ok(None);
            },
        };
        proof {
            assert forall|other: int| #[trigger]
                answers_by_name(*self, other, name@, label, values@) implies other == place by {
                self.lemma_one_name(other, place as int, name@);
            }
        }
        let entry = &self.entries[place];
        assert(self.entries@[place as int].wf());
        if !is_eligible(entry, label, values) {
            return Ok(None);
        }
        assert(answers_by_name(*self, place as int, name@, label, values@));
        match lookup_source(entry, values) {
            Ok(Some((postings, key))) => Ok(Some(postings.get_bounded(&key, limit))),
            Ok(None) => Ok(Some(Vec::new())),
            Err(error) => Err(error),
        }
    }

    /// The eligible entry with the fewest rows, the first by name of several.
    pub open spec fn is_best(
        &self,
        label: LabelId,
        values: Seq<(PropertyId, ScalarValue)>,
        count: int,
        place: int,
    ) -> bool {
        &&& 0 <= place < count
        &&& eligible(self.entries@[place], label, values)
        &&& forall|other: int|
            0 <= other < count && eligible(#[trigger] self.entries@[other], label, values)
                ==> row_count(self.entries@[other], values) > row_count(
                self.entries@[place],
                values,
            ) || (row_count(self.entries@[other], values) == row_count(
                self.entries@[place],
                values,
            ) && other >= place)
    }

    /// The entries before a place give a fault, or none does.
    pub open spec fn first_lookup_fault(
        &self,
        label: LabelId,
        values: Seq<(PropertyId, ScalarValue)>,
        place: int,
    ) -> Option<(ErrorCode, Seq<char>)>
        decreases self.entries@.len() - place,
    {
        if place >= self.entries@.len() {
            None
        } else if eligible(self.entries@[place], label, values) && looked_up(
            self.entries@[place],
            values,
        ) is Fault {
            match looked_up(self.entries@[place], values) {
                Lookup::Fault(code, message) => Some((code, message)),
                Lookup::Rows(_) => None,
            }
        } else {
            self.first_lookup_fault(label, values, place + 1)
        }
    }

    /// Where the smallest exact online scalar posting for the label and values is. Selection is
    /// deterministic by posting size, then index name.
    #[verifier::rlimit(40)]
    #[verifier::spinoff_prover]
    fn best_entry(&self, label: LabelId, values: &[(PropertyId, ScalarValue)]) -> (result: Result<
        Option<(usize, u64)>,
    >)
        requires
            self.wf(),
        ensures
            match self.first_lookup_fault(label, values@, 0) {
                Some(fault) => fails_with(result, fault.0, fault.1),
                None => match result {
                    Ok(Some((place, rows))) => self.is_best(
                        label,
                        values@,
                        self.entries@.len() as int,
                        place as int,
                    ) && rows == row_count(self.entries@[place as int], values@) && looked_up(
                        self.entries@[place as int],
                        values@,
                    ) is Rows,
                    Ok(None) => forall|place: int|
                        0 <= place < self.entries@.len() ==> !eligible(
                            #[trigger] self.entries@[place],
                            label,
                            values@,
                        ),
                    Err(_) => false,
                },
            },
    {
        let mut best: Option<(usize, u64)> = None;
        for index in 0..self.entries.len()
            invariant
                self.wf(),
                self.first_lookup_fault(label, values@, 0) == self.first_lookup_fault(
                    label,
                    values@,
                    index as int,
                ),
                match best {
                    Some((place, rows)) => self.is_best(
                        label,
                        values@,
                        index as int,
                        place as int,
                    ) && rows == row_count(self.entries@[place as int], values@) && looked_up(
                        self.entries@[place as int],
                        values@,
                    ) is Rows,
                    None => forall|place: int|
                        0 <= place < index ==> !eligible(
                            #[trigger] self.entries@[place],
                            label,
                            values@,
                        ),
                },
        {
            let entry = &self.entries[index];
            assert(self.entries@[index as int].wf());
            if is_eligible(entry, label, values) {
                let rows: u64 = match lookup_source(entry, values) {
                    Ok(Some((postings, key))) => postings.cardinality(&key),
                    Ok(None) => 0,
                    Err(error) => {
                        return Err(error);
                    },
                };
                let better = match best {
                    Some((_, least)) => rows < least,
                    None => true,
                };
                if better {
                    best = Some((index, rows));
                }
            }
        }
        Ok(best)
    }

    /// The smallest exact online scalar posting for the label and values, by its name.
    pub fn equality_candidate_estimate(
        &self,
        label: LabelId,
        values: &[(PropertyId, ScalarValue)],
    ) -> (result: Result<Option<ScalarIndexCandidate>>)
        requires
            self.wf(),
        ensures
            (forall|i: int|
                0 <= i < self.entries@.len() ==> (#[trigger] self.entries@[i]).definition.label
                    != label) ==> (result matches Ok(None)),
            match self.first_lookup_fault(label, values@, 0) {
                Some(fault) => fails_with(result, fault.0, fault.1),
                None => match result {
                    Ok(Some(candidate)) => exists|place: int| #[trigger]
                        self.is_best(label, values@, self.entries@.len() as int, place)
                            && candidate.name@ == self.entries@[place].name()
                            && candidate.estimated_rows == row_count(self.entries@[place], values@),
                    Ok(None) => forall|place: int|
                        0 <= place < self.entries@.len() ==> !eligible(
                            #[trigger] self.entries@[place],
                            label,
                            values@,
                        ),
                    Err(_) => false,
                },
            },
    {
        proof {
            if forall|i: int|
                0 <= i < self.entries@.len() ==> (#[trigger] self.entries@[i]).definition.label
                    != label {
                lemma_no_fault(*self, label, values@, 0);
            }
        }
        match self.best_entry(label, values) {
            Ok(Some((place, rows))) => {
                assert(self.is_best(label, values@, self.entries@.len() as int, place as int));
                Ok(
                    Some(
                        ScalarIndexCandidate {
                            name: self.entries[place].definition.name.clone(),
                            estimated_rows: rows,
                        },
                    ),
                )
            },
            Ok(None) => Ok(None),
            Err(error) => Err(error),
        }
    }

    /// The rows of the smallest exact online scalar posting for the label and values.
    pub fn equality_candidates(&self, label: LabelId, values: &[(PropertyId, ScalarValue)]) -> (result:
        Result<Option<Vec<u32>>>)
        requires
            self.wf(),
        ensures
            (forall|i: int|
                0 <= i < self.entries@.len() ==> (#[trigger] self.entries@[i]).definition.label
                    != label) ==> (result matches Ok(None)),
            match self.first_lookup_fault(label, values@, 0) {
                Some(fault) => fails_with(result, fault.0, fault.1),
                None => match result {
                    Ok(Some(list)) => exists|place: int| #[trigger]
                        self.is_best(label, values@, self.entries@.len() as int, place) && (
                        looked_up(self.entries@[place], values@) matches Lookup::Rows(rows)
                            && lists(list@, rows)),
                    Ok(None) => forall|place: int|
                        0 <= place < self.entries@.len() ==> !eligible(
                            #[trigger] self.entries@[place],
                            label,
                            values@,
                        ),
                    Err(_) => false,
                },
            },
    {
        proof {
            if forall|i: int|
                0 <= i < self.entries@.len() ==> (#[trigger] self.entries@[i]).definition.label
                    != label {
                lemma_no_fault(*self, label, values@, 0);
            }
        }
        let place: usize = match self.best_entry(label, values) {
            Ok(Some((place, _))) => place,
            Ok(None) => {
                return Ok(None);
            },
            Err(error) => {
                return Err(error);
            },
        };
        assert(self.is_best(label, values@, self.entries@.len() as int, place as int));
        assert(self.entries@[place as int].wf());
        match lookup_source(&self.entries[place], values) {
            Ok(Some((postings, key))) => match postings.get(&key) {
                Some(rows) => Ok(Some(rows_of_bitmap(&rows))),
                None => Ok(Some(Vec::new())),
            },
            Ok(None) => Ok(Some(Vec::new())),
            Err(error) => {
                assert(false);
                Err(error)
            },
        }
    }

    /// A listing of the indexes by name.
    pub fn statuses(&self) -> (statuses: Vec<IndexStatus>)
        ensures
            statuses@.len() == self.entries@.len(),
            forall|i: int|
                0 <= i < statuses@.len() ==> is_status(#[trigger] statuses@[i], self.entries@[i]),
    {
        let mut statuses: Vec<IndexStatus> = Vec::with_capacity(self.entries.len());
        for index in 0..self.entries.len()
            invariant
                statuses@.len() == index,
                forall|i: int|
                    0 <= i < index ==> is_status(#[trigger] statuses@[i], self.entries@[i]),
        {
            let entry = &self.entries[index];
            let diagnostic = match &entry.diagnostic {
                Some(text) => Some(text.clone()),
                None => None,
            };
            statuses.push(
                IndexStatus {
                    name: entry.definition.name.clone(),
                    kind: entry.definition.kind,
                    state: entry.state,
                    diagnostic,
                },
            );
        }
        statuses
    }

    /// Stable generation of the schema and local lifecycle facts that can change which access paths are
    /// legal. What postings hold is left out.
    pub fn optimizer_generation(&self) -> (generation: [u8; 32])
        ensures
            generation@ == blake3_digest(generation_bytes(*self)),
    {
        let mut bytes: Vec<u8> = Vec::new();
        bytes.extend_from_slice("index-generation-v1\0".as_bytes());
        let ghost head = encode_utf8("index-generation-v1\0"@);
        assert(bytes@ =~= head + entries_bytes(self.entries@, 0));
        for index in 0..self.entries.len()
            invariant
                head == encode_utf8("index-generation-v1\0"@),
                bytes@ == head + entries_bytes(self.entries@, index as int),
        {
            let ghost before = bytes@;
            push_entry(&mut bytes, &self.entries[index]);
            assert(bytes@ =~= head + entries_bytes(self.entries@, index + 1));
        }
        let ghost middle = head + entries_bytes(self.entries@, self.entries@.len() as int);
        assert(bytes@ =~= middle + embeddings_bytes(self.embeddings@, 0));
        for index in 0..self.embeddings.len()
            invariant
                bytes@ == middle + embeddings_bytes(self.embeddings@, index as int),
        {
            push_embedding(&mut bytes, &self.embeddings[index]);
            assert(bytes@ =~= middle + embeddings_bytes(self.embeddings@, index + 1));
        }
        if let Some(profile) = &self.profile {
            let ghost before = bytes@;
            for index in 0..32usize
                invariant
                    profile.profile_hash@.len() == 32,
                    bytes@ == before + profile.profile_hash@.take(index as int),
            {
                bytes.push(profile.profile_hash[index]);
                assert(bytes@ =~= before + profile.profile_hash@.take(index + 1));
            }
            assert(profile.profile_hash@.take(32) =~= profile.profile_hash@);
        }
        assert(bytes@ =~= generation_bytes(*self));
        digest(bytes.as_slice())
    }
}

/// An index that answers a question is online, has the label that was asked for, is of scalars, and each
/// of its properties was given a value.
pub proof fn law_answers_come_from_the_label(
    catalog: IndexCatalog,
    label: LabelId,
    values: Seq<(PropertyId, ScalarValue)>,
    place: int,
)
    requires
        catalog.is_best(label, values, catalog.entries@.len() as int, place),
    ensures
        0 <= place < catalog.entries@.len(),
        catalog.entries@[place].definition.label == label,
        catalog.entries@[place].state == DerivedIndexState::Online,
        catalog.entries@[place].definition.kind != GraphIndexKind::Text,
        catalog.entries@[place].definition.kind != GraphIndexKind::Vector,
        forall|i: int|
            0 <= i < catalog.entries@[place].definition.properties@.len() ==> gives(
                values,
                #[trigger] catalog.entries@[place].definition.properties@[i],
            ),
{
    let properties = catalog.entries@[place].definition.properties@;
    assert forall|i: int| 0 <= i < properties.len() implies gives(
        values,
        #[trigger] properties[i],
    ) by {
        assert(first_value(values, properties[i]) is Some);
        lemma_given_value(values, properties[i]);
    }
}

/// Some of the values is that of the property.
pub open spec fn gives(values: Seq<(PropertyId, ScalarValue)>, property: PropertyId) -> bool {
    exists|j: int| 0 <= j < values.len() && (#[trigger] values[j]).0 == property
}

/// A named question is answered by an index of that name and of the label.
pub proof fn law_named_answers_come_from_the_label(
    catalog: IndexCatalog,
    place: int,
    name: Seq<char>,
    label: LabelId,
    values: Seq<(PropertyId, ScalarValue)>,
)
    requires
        answers_by_name(catalog, place, name, label, values),
    ensures
        0 <= place < catalog.entries@.len(),
        catalog.entries@[place].definition.name@ == name,
        catalog.entries@[place].definition.label == label,
        catalog.entries@[place].state == DerivedIndexState::Online,
        catalog.entries@[place].definition.kind != GraphIndexKind::Text,
        catalog.entries@[place].definition.kind != GraphIndexKind::Vector,
{
}

/// Without an online index of the label no question about it is answered, and none fails.
pub proof fn law_no_answer_without_the_label(
    catalog: IndexCatalog,
    label: LabelId,
    values: Seq<(PropertyId, ScalarValue)>,
    name: Seq<char>,
    place: int,
)
    requires
        forall|i: int|
            0 <= i < catalog.entries@.len() ==> (#[trigger] catalog.entries@[i]).definition.label
                != label || catalog.entries@[i].state != DerivedIndexState::Online,
    ensures
        !catalog.is_best(label, values, catalog.entries@.len() as int, place),
        !answers_by_name(catalog, place, name, label, values),
        catalog.first_lookup_fault(label, values, 0) is None,
{
    lemma_no_fault(catalog, label, values, 0);
}

proof fn lemma_no_fault(
    catalog: IndexCatalog,
    label: LabelId,
    values: Seq<(PropertyId, ScalarValue)>,
    place: int,
)
    requires
        0 <= place,
        forall|i: int|
            0 <= i < catalog.entries@.len() ==> (#[trigger] catalog.entries@[i]).definition.label
                != label || catalog.entries@[i].state != DerivedIndexState::Online,
    ensures
        catalog.first_lookup_fault(label, values, place) is None,
    decreases catalog.entries@.len() - place,
{
    if place < catalog.entries@.len() {
        assert(catalog.entries@[place].definition.label != label || catalog.entries@[place].state
            != DerivedIndexState::Online);
        lemma_no_fault(catalog, label, values, place + 1);
    }
}

/// A value that is found was given.
proof fn lemma_given_value(values: Seq<(PropertyId, ScalarValue)>, property: PropertyId)
    requires
        first_value(values, property) is Some,
    ensures
        gives(values, property),
    decreases values.len(),
{
    if values[0].0 == property {
    } else {
        lemma_given_value(values.skip(1), property);
        let rest = values.skip(1);
        let j = choose|j: int| 0 <= j < rest.len() && (#[trigger] rest[j]).0 == property;
        assert(values[j + 1].0 == property);
    }
}

/// An online equality or range index of the label whose properties are all given, and whose rows can be
/// looked up, answers: no question that it covers goes unanswered, and none is answered with more rows
/// than it has.
pub proof fn law_covered_questions_are_answered(
    catalog: IndexCatalog,
    label: LabelId,
    values: Seq<(PropertyId, ScalarValue)>,
    cover: int,
    place: int,
)
    requires
        0 <= cover < catalog.entries@.len(),
        catalog.entries@[cover].definition.label == label,
        catalog.entries@[cover].state == DerivedIndexState::Online,
        catalog.entries@[cover].definition.kind == GraphIndexKind::Equality
            || catalog.entries@[cover].definition.kind == GraphIndexKind::Range,
        forall|i: int|
            0 <= i < catalog.entries@[cover].definition.properties@.len() ==> first_value(
                values,
                #[trigger] catalog.entries@[cover].definition.properties@[i],
            ) is Some,
    ensures
        eligible(catalog.entries@[cover], label, values),
        catalog.is_best(label, values, catalog.entries@.len() as int, place) ==> row_count(
            catalog.entries@[place],
            values,
        ) <= row_count(catalog.entries@[cover], values),
{
}

/// The rows that an index built from nodes gives are those of the nodes with its label and with values
/// like the given ones.
pub proof fn law_answers_are_the_nodes_with_the_values(
    entry: IndexEntry,
    definition: GraphIndexDefinition,
    nodes: Seq<NodeRecord>,
    values: Seq<(PropertyId, ScalarValue)>,
    rows: Set<u32>,
    row: u32,
)
    requires
        new_entry(entry, definition, nodes),
        definition.kind == GraphIndexKind::Equality || definition.kind == GraphIndexKind::Range,
        looked_up(entry, values) == Lookup::Rows(rows),
        key_parts(values, definition.properties@, 0) is Parts,
    ensures
        rows.contains(row) <==> exists|i: int|
            0 <= i < nodes.len() && (#[trigger] nodes[i]).dense == row && nodes[i].labels@.contains(
                definition.label,
            ) && (nodes[i].node_key(definition.properties@) matches Some(key) && alike(
                key,
                combined(key_parts(values, definition.properties@, 0)->Parts_0),
            )),
{
    let wanted = combined(key_parts(values, definition.properties@, 0)->Parts_0);
    if rows.contains(row) {
        assert(posted(
            nodes,
            nodes.len() as int,
            definition.label,
            definition.properties@,
            wanted,
            row,
        ));
        let i = choose|i: int|
            0 <= i < nodes.len() && posts(
                #[trigger] nodes[i],
                definition.label,
                definition.properties@,
                wanted,
                row,
            );
        assert(nodes[i].dense == row);
    }
    if exists|i: int|
        0 <= i < nodes.len() && (#[trigger] nodes[i]).dense == row && nodes[i].labels@.contains(
            definition.label,
        ) && (nodes[i].node_key(definition.properties@) matches Some(key) && alike(key, wanted)) {
        let i = choose|i: int|
            0 <= i < nodes.len() && (#[trigger] nodes[i]).dense == row
                && nodes[i].labels@.contains(definition.label) && (nodes[i].node_key(
                definition.properties@,
            ) matches Some(key) && alike(key, wanted));
        assert(posts(nodes[i], definition.label, definition.properties@, wanted, row));
        assert(posted(
            nodes,
            nodes.len() as int,
            definition.label,
            definition.properties@,
            wanted,
            row,
        ));
    }
}

/// Rows that an eligible entry gives.
pub open spec fn row_count(entry: IndexEntry, values: Seq<(PropertyId, ScalarValue)>) -> int {
    match looked_up(entry, values) {
        Lookup::Rows(rows) => rows.len() as int,
        Lookup::Fault(_, _) => 0,
    }
}

pub open spec fn is_status(status: IndexStatus, entry: IndexEntry) -> bool {
    &&& status.name@ == entry.name()
    &&& status.kind == entry.definition.kind
    &&& status.state == entry.state
    &&& match (status.diagnostic, entry.diagnostic) {
        (Some(left), Some(right)) => left@ == right@,
        (None, None) => true,
        _ => false,
    }
}

pub open spec fn kind_byte(kind: GraphIndexKind) -> u8 {
    match kind {
        GraphIndexKind::Equality => 0,
        GraphIndexKind::Range => 1,
        GraphIndexKind::Text => 2,
        GraphIndexKind::Vector => 3,
    }
}

pub open spec fn state_byte(state: DerivedIndexState) -> u8 {
    match state {
        DerivedIndexState::Populating => 0,
        DerivedIndexState::Online => 1,
        DerivedIndexState::Failed => 2,
        DerivedIndexState::Dropping => 3,
    }
}

/// The numbers of the first properties.
pub open spec fn property_bytes(properties: Seq<PropertyId>, count: int) -> Seq<u8>
    decreases count,
{
    if count <= 0 {
        Seq::empty()
    } else {
        property_bytes(properties, count - 1) + le_bytes(properties[count - 1].0 as nat, 4)
    }
}

/// What an index adds to the generation: its definition and its state.
pub open spec fn entry_bytes(entry: IndexEntry) -> Seq<u8> {
    framed_bytes(encode_utf8(entry.name())) + seq![
        kind_byte(entry.definition.kind),
        if entry.definition.unique {
            1u8
        } else {
            0u8
        },
    ] + le_bytes(entry.definition.label.0 as nat, 4) + le_bytes(
        entry.definition.properties@.len(),
        8,
    ) + property_bytes(
        entry.definition.properties@,
        entry.definition.properties@.len() as int,
    ) + seq![state_byte(entry.state)]
}

pub open spec fn entries_bytes(entries: Seq<IndexEntry>, count: int) -> Seq<u8>
    decreases count,
{
    if count <= 0 {
        Seq::empty()
    } else {
        entries_bytes(entries, count - 1) + entry_bytes(entries[count - 1])
    }
}

/// What an embedding adds to the generation.
pub open spec fn embedding_bytes(definition: EmbeddingIndexDefinition) -> Seq<u8> {
    framed_bytes(encode_utf8(definition.name@)) + le_bytes(definition.label.0 as nat, 4) + le_bytes(
        definition.source_property.0 as nat,
        4,
    ) + le_bytes(definition.target_property.0 as nat, 4) + framed_bytes(
        encode_utf8(definition.model@),
    )
}

pub open spec fn embeddings_bytes(embeddings: Seq<EmbeddingIndexDefinition>, count: int) -> Seq<u8>
    decreases count,
{
    if count <= 0 {
        Seq::empty()
    } else {
        embeddings_bytes(embeddings, count - 1) + embedding_bytes(embeddings[count - 1])
    }
}

/// The bytes that the generation is the digest of.
pub open spec fn generation_bytes(catalog: IndexCatalog) -> Seq<u8> {
    encode_utf8("index-generation-v1\0"@) + entries_bytes(
        catalog.entries@,
        catalog.entries@.len() as int,
    ) + embeddings_bytes(catalog.embeddings@, catalog.embeddings@.len() as int)
        + match catalog.profile {
        Some(profile) => profile.profile_hash@,
        None => Seq::empty(),
    }
}

fn push_entry(out: &mut Vec<u8>, entry: &IndexEntry)
    ensures
        final(out)@ == old(out)@ + entry_bytes(*entry),
{
    let ghost before = out@;
    push_framed(out, entry.definition.name.as_str().as_bytes());
    let kind: u8 = match entry.definition.kind {
        GraphIndexKind::Equality => 0,
        GraphIndexKind::Range => 1,
        GraphIndexKind::Text => 2,
        GraphIndexKind::Vector => 3,
    };
    out.push(kind);
    out.push(
        if entry.definition.unique {
            1
        } else {
            0
        },
    );
    push_le(out, entry.definition.label.0 as u128, 4);
    push_le(out, entry.definition.properties.len() as u128, 8);
    let ghost middle = out@;
    assert(out@ =~= middle + property_bytes(entry.definition.properties@, 0));
    for index in 0..entry.definition.properties.len()
        invariant
            out@ == middle + property_bytes(entry.definition.properties@, index as int),
    {
        push_le(out, entry.definition.properties[index].0 as u128, 4);
        assert(out@ =~= middle + property_bytes(entry.definition.properties@, index + 1));
    }
    let state: u8 = match entry.state {
        DerivedIndexState::Populating => 0,
        DerivedIndexState::Online => 1,
        DerivedIndexState::Failed => 2,
        DerivedIndexState::Dropping => 3,
    };
    out.push(state);
    assert(out@ =~= before + entry_bytes(*entry));
}

fn push_embedding(out: &mut Vec<u8>, definition: &EmbeddingIndexDefinition)
    ensures
        final(out)@ == old(out)@ + embedding_bytes(*definition),
{
    let ghost before = out@;
    push_framed(out, definition.name.as_str().as_bytes());
    push_le(out, definition.label.0 as u128, 4);
    push_le(out, definition.source_property.0 as u128, 4);
    push_le(out, definition.target_property.0 as u128, 4);
    push_framed(out, definition.model.as_str().as_bytes());
    assert(out@ =~= before + embedding_bytes(*definition));
}

/// The generation depends on definitions, states and the profile alone.
pub proof fn law_generation_ignores_postings(left: IndexCatalog, right: IndexCatalog)
    requires
        left.entries@.len() == right.entries@.len(),
        forall|i: int|
            0 <= i < left.entries@.len() ==> (#[trigger] left.entries@[i]).definition
                == right.entries@[i].definition && left.entries@[i].state == right.entries@[i].state,
        left.embeddings == right.embeddings,
        left.profile == right.profile,
    ensures
        generation_bytes(left) == generation_bytes(right),
{
    lemma_same_entries(left.entries@, right.entries@, left.entries@.len() as int);
}

proof fn lemma_same_entries(left: Seq<IndexEntry>, right: Seq<IndexEntry>, count: int)
    requires
        0 <= count <= left.len(),
        left.len() == right.len(),
        forall|i: int|
            0 <= i < left.len() ==> (#[trigger] left[i]).definition == right[i].definition
                && left[i].state == right[i].state,
    ensures
        entries_bytes(left, count) == entries_bytes(right, count),
    decreases count,
{
    if count > 0 {
        lemma_same_entries(left, right, count - 1);
        assert(left[count - 1].definition == right[count - 1].definition);
    }
}

proof fn lemma_property_bytes_len(properties: Seq<PropertyId>, count: int)
    requires
        0 <= count,
    ensures
        property_bytes(properties, count).len() == 4 * count,
    decreases count,
{
    if count > 0 {
        lemma_property_bytes_len(properties, count - 1);
        lemma_le_len(properties[count - 1].0 as nat, 4);
    }
}

proof fn lemma_property_bytes_differ(
    left: Seq<PropertyId>,
    right: Seq<PropertyId>,
    count: int,
    place: int,
)
    requires
        0 <= place < count,
        property_bytes(left, count) == property_bytes(right, count),
    ensures
        left[place] == right[place],
    decreases count,
{
    lemma_property_bytes_len(left, count - 1);
    lemma_property_bytes_len(right, count - 1);
    let whole = property_bytes(left, count);
    let edge = 4 * (count - 1);
    let first = left[count - 1].0 as nat;
    let second = right[count - 1].0 as nat;
    lemma_le_len(first, 4);
    lemma_le_len(second, 4);
    if place == count - 1 {
        assert(whole.skip(edge) =~= le_bytes(first, 4));
        assert(whole.skip(edge) =~= le_bytes(second, 4));
        lemma_byte_ranges();
        law_le_round_trip(first, 4);
        law_le_round_trip(second, 4);
    } else {
        assert(whole.take(edge) =~= property_bytes(left, count - 1));
        assert(whole.take(edge) =~= property_bytes(right, count - 1));
        lemma_property_bytes_differ(left, right, count - 1, place);
    }
}

/// Two indexes of one name that differ in anything else of their definition, or in their state, differ
/// in what they add to the generation.
pub proof fn law_generation_tells_indexes_apart(left: IndexEntry, right: IndexEntry)
    requires
        left.name() == right.name(),
        entry_bytes(left) == entry_bytes(right),
    ensures
        left.definition.kind == right.definition.kind,
        left.definition.unique == right.definition.unique,
        left.definition.label == right.definition.label,
        left.definition.properties@ == right.definition.properties@,
        left.state == right.state,
{
    let name = framed_bytes(encode_utf8(left.name()));
    let start = name.len() as int;
    let bytes = entry_bytes(left);
    let one = left.definition;
    let two = right.definition;
    let count = one.properties@.len();
    let other = two.properties@.len();
    lemma_le_len(one.label.0 as nat, 4);
    lemma_le_len(two.label.0 as nat, 4);
    lemma_le_len(count, 8);
    lemma_le_len(other, 8);
    lemma_property_bytes_len(one.properties@, count as int);
    lemma_property_bytes_len(two.properties@, other as int);
    assert(bytes.len() == start + 15 + 4 * count);
    assert(count == other);
    assert(bytes[start] == kind_byte(one.kind) && bytes[start] == kind_byte(two.kind));
    assert(bytes[start + 1] == if one.unique {
        1u8
    } else {
        0u8
    });
    assert(bytes[start + 1] == if two.unique {
        1u8
    } else {
        0u8
    });
    assert(bytes.subrange(start + 2, start + 6) =~= le_bytes(one.label.0 as nat, 4));
    assert(bytes.subrange(start + 2, start + 6) =~= le_bytes(two.label.0 as nat, 4));
    lemma_byte_ranges();
    law_le_round_trip(one.label.0 as nat, 4);
    law_le_round_trip(two.label.0 as nat, 4);
    assert(bytes.last() == state_byte(left.state) && bytes.last() == state_byte(right.state));
    let listed = bytes.subrange(start + 14, start + 14 + 4 * count);
    assert(listed =~= property_bytes(one.properties@, count as int));
    assert(listed =~= property_bytes(two.properties@, count as int));
    assert forall|i: int| 0 <= i < count implies one.properties@[i] == two.properties@[i] by {
        lemma_property_bytes_differ(one.properties@, two.properties@, count as int, i);
    }
    assert(one.properties@ =~= two.properties@);
}

/// The byte after the name of an index gives its kind, and the last its state.
pub proof fn law_generation_names_kind_and_state(entry: IndexEntry, bytes: Seq<u8>, after_name: int)
    requires
        bytes == entry_bytes(entry),
        after_name == framed_bytes(encode_utf8(entry.name())).len(),
    ensures
        entry.definition.kind == GraphIndexKind::Equality ==> bytes[after_name] == 0,
        entry.definition.kind == GraphIndexKind::Range ==> bytes[after_name] == 1,
        entry.definition.kind == GraphIndexKind::Text ==> bytes[after_name] == 2,
        entry.definition.kind == GraphIndexKind::Vector ==> bytes[after_name] == 3,
        bytes[after_name + 1] == 1 <==> entry.definition.unique,
        entry.state == DerivedIndexState::Populating ==> bytes.last() == 0,
        entry.state == DerivedIndexState::Online ==> bytes.last() == 1,
        entry.state == DerivedIndexState::Failed ==> bytes.last() == 2,
        entry.state == DerivedIndexState::Dropping ==> bytes.last() == 3,
{
    assert(bytes.last() == state_byte(entry.state));
}

} // verus!
