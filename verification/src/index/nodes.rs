//! Nodes as indexes see them: their keys, and the runtimes that are built from them.

use crate::error::{fails_with, Error, ErrorCode, Result};
use crate::index::bitmap::{bitmap_rows, row_total};
use crate::index::fulltext::TextIndex;
use crate::index::keys::{alike, value_key, IndexKey, Key};
use crate::index::scalar::{row_put, Postings};
use crate::index::terms::{folded, term_of};
use crate::values::{LabelId, PropertyId, Scalar, ScalarValue};
use vstd::prelude::*;

verus! {

/// One node: its stable identity, its row, its revision, its labels and its properties.
pub struct NodeRecord {
    pub id: u64,
    pub dense: u32,
    pub revision: u64,
    pub labels: Vec<LabelId>,
    pub properties: Vec<(PropertyId, ScalarValue)>,
}

/// The first value given for a property.
pub open spec fn first_value(
    values: Seq<(PropertyId, ScalarValue)>,
    property: PropertyId,
) -> Option<Scalar>
    decreases values.len(),
{
    if values.len() == 0 {
        None
    } else if values[0].0 == property {
        Some(values[0].1@)
    } else {
        first_value(values.skip(1), property)
    }
}

pub fn find_value<'a>(values: &'a [(PropertyId, ScalarValue)], property: PropertyId) -> (value:
    Option<&'a ScalarValue>)
    ensures
        match value {
            Some(value) => first_value(values@, property) == Some(value@),
            None => first_value(values@, property) is None,
        },
{
    assert(values@.skip(0) =~= values@);
    for index in 0..values.len()
        invariant
            first_value(values@, property) == first_value(values@.skip(index as int), property),
    {
        assert(values@.skip(index as int).skip(1) =~= values@.skip(index + 1));
        if values[index].0.0 == property.0 {
            assert(values@[index as int].0 == property);
            return Some(&values[index].1);
        }
    }
    None
}

/// What properties give as a key.
pub enum KeyOutcome {
    /// All of them have an indexable value.
    Parts(Seq<Key>),
    /// One of them has no value.
    Absent,
    /// One of them has a value that is not indexed.
    Refused,
}

/// The keys of the properties from `index` on: the first that has no value or none that is indexed
/// decides.
pub open spec fn key_parts(
    values: Seq<(PropertyId, ScalarValue)>,
    properties: Seq<PropertyId>,
    index: int,
) -> KeyOutcome
    decreases properties.len() - index,
{
    if index >= properties.len() {
        KeyOutcome::Parts(Seq::empty())
    } else {
        match first_value(values, properties[index]) {
            None => KeyOutcome::Absent,
            Some(Scalar::Null) => KeyOutcome::Absent,
            Some(value) => match value_key(value) {
                None => KeyOutcome::Refused,
                Some(key) => match key_parts(values, properties, index + 1) {
                    KeyOutcome::Parts(rest) => KeyOutcome::Parts(seq![key] + rest),
                    other => other,
                },
            },
        }
    }
}

/// One part stands for itself, several make a composite.
pub open spec fn combined(parts: Seq<Key>) -> Key {
    if parts.len() == 1 {
        parts[0]
    } else {
        Key::Composite(parts)
    }
}

/// The key that properties give.
pub open spec fn key_outcome(
    values: Seq<(PropertyId, ScalarValue)>,
    properties: Seq<PropertyId>,
    result: Result<Option<IndexKey>>,
) -> bool {
    match key_parts(values, properties, 0) {
        KeyOutcome::Parts(parts) => result matches Ok(Some(key)) && key.key() == combined(parts),
        KeyOutcome::Absent => result matches Ok(None),
        KeyOutcome::Refused => fails_with(
            result,
            ErrorCode::QueryType,
            "document properties require an explicitly declared document-path index"@,
        ),
    }
}

/// The key that a row has under these properties: none where a property has no value.
pub fn scalar_lookup_key(properties: &[PropertyId], values: &[(PropertyId, ScalarValue)]) -> (result:
    Result<Option<IndexKey>>)
    ensures
        key_outcome(values@, properties@, result),
{
    let mut keys: Vec<IndexKey> = Vec::with_capacity(properties.len());
    let ghost mut parts: Seq<Key> = Seq::empty();
    for index in 0..properties.len()
        invariant
            keys@.len() == index,
            parts.len() == index,
            forall|i: int| 0 <= i < index ==> (#[trigger] keys@[i]).key() == parts[i],
            key_parts(values@, properties@, 0) == prefixed(
                parts,
                key_parts(values@, properties@, index as int),
            ),
    {
        let value = match find_value(values, properties[index]) {
            Some(value) => value,
            None => {
                return Ok(None);
            },
        };
        let null = match value {
            ScalarValue::Null => true,
            _ => false,
        };
        if null {
            return Ok(None);
        }
        let key = match IndexKey::try_from(value) {
            Ok(key) => key,
            Err(error) => {
                return Err(error);
            },
        };
        proof {
            let ghost before = parts;
            parts = parts.push(key.key());
            if let KeyOutcome::Parts(rest) = key_parts(values@, properties@, index + 1) {
                assert(before + (seq![key.key()] + rest) =~= parts + rest);
            }
        }
        keys.push(key);
    }
    proof {
        assert(parts + Seq::<Key>::empty() =~= parts);
    }
    if keys.len() == 1 {
        let key = keys[0].clone();
        assert(key.key() == combined(parts));
        return Ok(Some(key));
    }
    let key = IndexKey::Composite(keys);
    proof {
        assert(key.key()->Composite_0 =~= parts);
    }
    Ok(Some(key))
}

/// An outcome behind parts that are known.
pub open spec fn prefixed(parts: Seq<Key>, outcome: KeyOutcome) -> KeyOutcome {
    match outcome {
        KeyOutcome::Parts(rest) => KeyOutcome::Parts(parts + rest),
        other => other,
    }
}

impl NodeRecord {
    pub open spec fn has_label(&self, label: LabelId) -> bool {
        self.labels@.contains(label)
    }

    pub fn labelled(&self, label: LabelId) -> (result: bool)
        ensures
            result == self.has_label(label),
    {
        for index in 0..self.labels.len()
            invariant
                forall|i: int| 0 <= i < index ==> self.labels@[i] != label,
        {
            if self.labels[index].0 == label.0 {
                assert(self.labels@[index as int] == label);
                return true;
            }
        }
        false
    }

    /// The key of the node, if it has one.
    pub open spec fn node_key(&self, properties: Seq<PropertyId>) -> Option<Key> {
        match key_parts(self.properties@, properties, 0) {
            KeyOutcome::Parts(parts) => Some(combined(parts)),
            _ => None,
        }
    }

    /// The node has a value that is not indexed.
    pub open spec fn refused(&self, properties: Seq<PropertyId>) -> bool {
        key_parts(self.properties@, properties, 0) is Refused
    }
}

/// The key of a node.
pub fn composite_key(node: &NodeRecord, properties: &[PropertyId]) -> (result: Result<
    Option<IndexKey>,
>)
    ensures
        match result {
            Ok(Some(key)) => node.node_key(properties@) == Some(key.key()) && !node.refused(
                properties@,
            ),
            Ok(None) => node.node_key(properties@) is None && !node.refused(properties@),
            Err(error) => node.refused(properties@) && error.is(
                ErrorCode::QueryType,
                "document properties require an explicitly declared document-path index"@,
            ),
        },
{
    scalar_lookup_key(properties, node.properties.as_slice())
}

/// One of the first nodes has the label, a key like this one and the row.
pub open spec fn posted(
    nodes: Seq<NodeRecord>,
    count: int,
    label: LabelId,
    properties: Seq<PropertyId>,
    key: Key,
    row: u32,
) -> bool {
    exists|i: int|
        0 <= i < count && posts(#[trigger] nodes[i], label, properties, key, row)
}

pub open spec fn posts(
    node: NodeRecord,
    label: LabelId,
    properties: Seq<PropertyId>,
    key: Key,
    row: u32,
) -> bool {
    node.has_label(label) && (node.node_key(properties) matches Some(own) && alike(own, key))
        && node.dense == row
}

/// Some node with the label has a value that is not indexed.
pub open spec fn some_refused(
    nodes: Seq<NodeRecord>,
    label: LabelId,
    properties: Seq<PropertyId>,
) -> bool {
    exists|i: int|
        0 <= i < nodes.len() && (#[trigger] nodes[i]).has_label(label) && nodes[i].refused(
            properties,
        )
}

/// The postings of the nodes with a label.
pub fn build_postings(
    nodes: &[NodeRecord],
    label: LabelId,
    properties: &[PropertyId],
    empty: Postings,
) -> (result: Result<Postings>)
    requires
        empty.wf(),
        empty.written(0),
        empty.additions(),
        forall|key: Key| #[trigger] empty.rows(key) == Set::<u32>::empty(),
    ensures
        match result {
            Ok(postings) => {
                &&& !some_refused(nodes@, label, properties@)
                &&& postings.wf()
                &&& postings.is_sealed()
                &&& forall|key: Key, row: u32| #[trigger]
                    postings.rows(key).contains(row) <==> posted(
                        nodes@,
                        nodes@.len() as int,
                        label,
                        properties@,
                        key,
                        row,
                    )
            },
            Err(error) => some_refused(nodes@, label, properties@) && error.is(
                ErrorCode::QueryType,
                "document properties require an explicitly declared document-path index"@,
            ),
        },
{
    let mut postings = empty;
    proof {
        reveal(collects);
    }
    for index in 0..nodes.len()
        invariant
            postings.wf(),
            postings.written(index as nat),
            postings.additions(),
            forall|i: int|
                0 <= i < index && (#[trigger] nodes@[i]).has_label(label) ==> !nodes@[i].refused(
                    properties@,
                ),
            collects(postings, nodes@, index as int, label, properties@),
    {
        let node = &nodes[index];
        let ghost before = postings;
        let mut here: Option<IndexKey> = None;
        if node.labelled(label) {
            here =
            match composite_key(node, properties) {
                Ok(key) => key,
                Err(error) => {
                    assert(nodes@[index as int].has_label(label) && nodes@[index as int].refused(
                        properties@,
                    ));
                    return Err(error);
                },
            };
        }
        match here {
            Some(key) => {
                let ghost model = key.key();
                proof {
                    postings.lemma_room(index as nat, model);
                }
                postings.put(key, node.dense, true);
                proof {
                    lemma_node_posted(
                        before,
                        postings,
                        nodes@,
                        index as int,
                        label,
                        properties@,
                        model,
                    );
                }
            },
            None => {
                proof {
                    postings.lemma_written_grows(index as nat);
                    lemma_node_passed(postings, nodes@, index as int, label, properties@);
                }
            },
        }
    }
    let ghost before = postings;
    postings.seal();
    proof {
        reveal(collects);
        assert forall|key: Key, row: u32| #[trigger]
            postings.rows(key).contains(row) <==> posted(
                nodes@,
                nodes@.len() as int,
                label,
                properties@,
                key,
                row,
            ) by {
            before.law_sealing_unites_additions(key, row);
            assert(postings.rows(key) == before.sealed_rows(key));
            if before.sealed_rows(key).contains(row) {
                let other = choose|other: Key|
                    alike(other, key) && #[trigger] before.rows(other).contains(row);
                assert(posted(nodes@, nodes@.len() as int, label, properties@, other, row));
                let i = choose|i: int|
                    0 <= i < nodes@.len() && posts(
                        #[trigger] nodes@[i],
                        label,
                        properties@,
                        other,
                        row,
                    );
                assert(posts(nodes@[i], label, properties@, key, row));
            }
            if posted(nodes@, nodes@.len() as int, label, properties@, key, row) {
                let i = choose|i: int|
                    0 <= i < nodes@.len() && posts(
                        #[trigger] nodes@[i],
                        label,
                        properties@,
                        key,
                        row,
                    );
                let own = nodes@[i].node_key(properties@)->Some_0;
                assert(before.rows(own).contains(nodes@[i].dense));
            }
        }
    }
    Ok(postings)
}

/// A lookup finds rows of the first nodes with keys like it, and the key of each finds its row.
#[verifier::opaque]
spec fn collects(
    postings: Postings,
    nodes: Seq<NodeRecord>,
    count: int,
    label: LabelId,
    properties: Seq<PropertyId>,
) -> bool {
    &&& forall|key: Key, row: u32| #[trigger]
        postings.rows(key).contains(row) ==> posted(nodes, count, label, properties, key, row)
    &&& forall|i: int|
        0 <= i < count && (#[trigger] nodes[i]).has_label(label) ==> (nodes[i].node_key(
            properties,
        ) matches Some(own) ==> postings.rows(own).contains(nodes[i].dense))
}

/// A node without a key adds nothing.
proof fn lemma_node_passed(
    postings: Postings,
    nodes: Seq<NodeRecord>,
    index: int,
    label: LabelId,
    properties: Seq<PropertyId>,
)
    requires
        0 <= index < nodes.len(),
        !nodes[index].has_label(label) || nodes[index].node_key(properties) is None,
        collects(postings, nodes, index, label, properties),
    ensures
        collects(postings, nodes, index + 1, label, properties),
{
    reveal(collects);
    assert forall|key: Key, row: u32| #[trigger] postings.rows(key).contains(row) implies posted(
        nodes,
        index + 1,
        label,
        properties,
        key,
        row,
    ) by {
        lemma_posted_step(nodes, index, label, properties, key, row);
    }
}

/// Postings with the keys of the first nodes once the next one is added.
#[verifier::spinoff_prover]
proof fn lemma_node_posted(
    before: Postings,
    after: Postings,
    nodes: Seq<NodeRecord>,
    index: int,
    label: LabelId,
    properties: Seq<PropertyId>,
    model: Key,
)
    requires
        0 <= index < nodes.len(),
        before.has_room(model),
        nodes[index].has_label(label),
        nodes[index].node_key(properties) == Some(model),
        row_put(before, after, model, nodes[index].dense, true),
        collects(before, nodes, index, label, properties),
    ensures
        collects(after, nodes, index + 1, label, properties),
{
    reveal(collects);
    let dense = nodes[index].dense;
    assert forall|key: Key, row: u32| #[trigger] after.rows(key).contains(row) implies posted(
        nodes,
        index + 1,
        label,
        properties,
        key,
        row,
    ) by {
        lemma_posted_step(nodes, index, label, properties, key, row);
        if !before.rows(key).contains(row) {
            assert(before.same_slot(model, key));
            assert(row == dense);
            assert(posts(nodes[index], label, properties, key, row));
        }
    }
    assert forall|i: int| 0 <= i < index + 1 && (#[trigger] nodes[i]).has_label(label) implies (
    nodes[i].node_key(properties) matches Some(own) ==> after.rows(own).contains(
        nodes[i].dense,
    )) by {
        if let Some(own) = nodes[i].node_key(properties) {
            if i < index {
                assert(before.rows(own).contains(nodes[i].dense));
            }
            assert(after.rows(own) == if before.same_slot(model, own) {
                before.rows(own).insert(dense)
            } else {
                before.rows(own)
            });
        }
    }
}

proof fn lemma_posted_step(
    nodes: Seq<NodeRecord>,
    count: int,
    label: LabelId,
    properties: Seq<PropertyId>,
    key: Key,
    row: u32,
)
    requires
        0 <= count < nodes.len(),
    ensures
        posted(nodes, count + 1, label, properties, key, row) <==> posted(
            nodes,
            count,
            label,
            properties,
            key,
            row,
        ) || posts(nodes[count], label, properties, key, row),
{
    if posted(nodes, count + 1, label, properties, key, row) {
        let i = choose|i: int|
            0 <= i < count + 1 && posts(#[trigger] nodes[i], label, properties, key, row);
        if i < count {
            assert(posts(nodes[i], label, properties, key, row));
        }
    }
    if posted(nodes, count, label, properties, key, row) {
        let i = choose|i: int|
            0 <= i < count && posts(#[trigger] nodes[i], label, properties, key, row);
        assert(0 <= i < count + 1 && posts(nodes[i], label, properties, key, row));
    }
    if posts(nodes[count], label, properties, key, row) {
        assert(0 <= count < count + 1);
    }
}

/// Every key has at most one row once all changes are written.
pub open spec fn keys_unique(postings: Postings) -> bool {
    forall|key: Key| (#[trigger] postings.sealed_rows(key)).len() <= 1
}

/// Every lookup finds at most one row.
pub open spec fn lookups_unique(postings: Postings) -> bool {
    forall|key: Key| (#[trigger] postings.rows(key)).len() <= 1
}

/// Whether postings meet a uniqueness constraint.
pub fn validate_unique(postings: &Postings) -> (result: Result<()>)
    requires
        postings.wf(),
    ensures
        if keys_unique(*postings) {
            result is Ok
        } else {
            fails_with(
                result,
                ErrorCode::TransactionConflict,
                "existing data violates the requested uniqueness constraint"@,
            )
        },
{
    let table = postings.materialized();
    for index in 0..table.entries.len()
        invariant
            table.wf(),
            forall|key: Key| #[trigger] table.entry(key) == postings.sealed_entry(key),
            forall|i: int|
                0 <= i < index ==> bitmap_rows((#[trigger] table.entries@[i]).rows).len() <= 1,
    {
        let entry = &table.entries[index];
        if row_total(&entry.rows) > 1 {
            proof {
                let key = table.entries@[index as int].key.key();
                assert(table.at(index as int, key));
                table.lemma_rows(index as int, key);
                assert(table.entry(key) == postings.sealed_entry(key));
                assert(postings.sealed_rows(key).len() > 1);
            }
            return Err(
                Error::new(
                    ErrorCode::TransactionConflict,
                    "existing data violates the requested uniqueness constraint",
                ),
            );
        }
    }
    proof {
        assert forall|key: Key| (#[trigger] postings.sealed_rows(key)).len() <= 1 by {
            assert(table.entry(key) == postings.sealed_entry(key));
            if exists|place: int| #[trigger] table.at(place, key) {
                let place = choose|place: int| #[trigger] table.at(place, key);
                table.lemma_rows(place, key);
                assert(bitmap_rows(table.entries@[place].rows).len() <= 1);
            }
        }
    }
    Ok(())
}

/// A key that gets no second row keeps the constraint.
pub fn violates_unique(postings: &Postings, key: &IndexKey, row: u32) -> (violated: bool)
    requires
        postings.wf(),
    ensures
        violated == exists|other: u32| #[trigger]
            postings.rows(key.key()).contains(other) && other != row,
{
    let first = postings.get_bounded(key, 2);
    let ghost rows = postings.rows(key.key());
    for index in 0..first.len()
        invariant
            rows == postings.rows(key.key()),
            crate::index::postings::first_of(first@, rows, 2),
            forall|i: int| 0 <= i < index ==> first@[i] == row,
    {
        if first[index] != row {
            assert(rows.contains(first@[index as int]));
            return true;
        }
    }
    proof {
        assert forall|other: u32| #[trigger] rows.contains(other) implies other == row by {
            if first@.contains(other) {
                let i = choose|i: int| 0 <= i < first@.len() && first@[i] == other;
            } else {
                assert(first@.len() == 2);
                assert(first@[0] < first@[1]);
            }
        }
    }
    false
}

/// The rows of an index of text, built from the nodes with a label.
pub open spec fn text_posts(
    node: NodeRecord,
    label: LabelId,
    property: PropertyId,
    row: u32,
    term: Seq<char>,
) -> bool {
    &&& node.has_label(label)
    &&& node.dense == row
    &&& first_value(node.properties@, property) matches Some(Scalar::Text(text)) && term_of(
        folded(text),
        term,
    )
}

/// The value of a node is neither text nor absent.
pub open spec fn not_text(node: NodeRecord, label: LabelId, property: PropertyId) -> bool {
    &&& node.has_label(label)
    &&& match first_value(node.properties@, property) {
        None => false,
        Some(Scalar::Null) => false,
        Some(Scalar::Text(_)) => false,
        Some(_) => true,
    }
}

/// Builds the text index of a property. Nodes have rows of their own.
#[verifier::rlimit(40)]
#[verifier::spinoff_prover]
pub fn build_text(nodes: &[NodeRecord], label: LabelId, property: PropertyId) -> (result: Result<
    TextIndex,
>)
    requires
        forall|i: int, j: int|
            0 <= i < j < nodes@.len() ==> (#[trigger] nodes@[i]).dense != (
            #[trigger] nodes@[j]).dense,
    ensures
        match result {
            Ok(index) => {
                &&& forall|i: int| 0 <= i < nodes@.len() ==> !not_text(#[trigger] nodes@[i], label,
                    property)
                &&& index.wf()
                &&& index.term_postings().is_sealed()
                &&& forall|row: u32, term: Seq<char>| #[trigger]
                    index.has_term(row, term) <==> exists|i: int|
                        0 <= i < nodes@.len() && text_posts(
                            #[trigger] nodes@[i],
                            label,
                            property,
                            row,
                            term,
                        )
            },
            Err(error) => {
                &&& exists|i: int|
                    0 <= i < nodes@.len() && not_text(#[trigger] nodes@[i], label, property)
                &&& error.is(ErrorCode::QueryType, "text index encountered a non-string value"@)
            },
        },
{
    let mut text_index = TextIndex::default();
    for index in 0..nodes.len()
        invariant
            nodes@.len() <= usize::MAX,
            forall|i: int, j: int|
                0 <= i < j < nodes@.len() ==> (#[trigger] nodes@[i]).dense != (
                #[trigger] nodes@[j]).dense,
            text_index.wf(),
            text_index.row_count() <= index,
            forall|i: int| 0 <= i < index ==> !not_text(#[trigger] nodes@[i], label, property),
            forall|row: u32, term: Seq<char>| #[trigger]
                text_index.has_term(row, term) <==> text_posted(
                    nodes@,
                    index as int,
                    label,
                    property,
                    row,
                    term,
                ),
    {
        let node = &nodes[index];
        let ghost before = text_index;
        let ghost mut added = false;
        if node.labelled(label) {
            match find_value(node.properties.as_slice(), property) {
                Some(ScalarValue::String(value)) => {
                    text_index.upsert(node.dense, value.as_str());
                    proof {
                        added = true;
                    }
                },
                Some(ScalarValue::Null) => {},
                None => {},
                Some(_) => {
                    assert(not_text(nodes@[index as int], label, property));
                    return Err(
                        Error::new(
                            ErrorCode::QueryType,
                            "text index encountered a non-string value",
                        ),
                    );
                },
            }
        }
        proof {
            assert forall|row: u32, term: Seq<char>| #[trigger]
                text_index.has_term(row, term) <==> text_posted(
                    nodes@,
                    index + 1,
                    label,
                    property,
                    row,
                    term,
                ) by {
                lemma_text_posted_step(nodes@, index as int, label, property, row, term);
                assert(before.has_term(row, term) <==> text_posted(
                    nodes@,
                    index as int,
                    label,
                    property,
                    row,
                    term,
                ));
                if added && row == node.dense {
                    assert(!text_posted(nodes@, index as int, label, property, row, term)) by {
                        if text_posted(nodes@, index as int, label, property, row, term) {
                            let i = choose|i: int|
                                0 <= i < index && text_posts(
                                    #[trigger] nodes@[i],
                                    label,
                                    property,
                                    row,
                                    term,
                                );
                            assert(nodes@[i].dense != nodes@[index as int].dense);
                        }
                    }
                }
            }
        }
    }
    let ghost built = text_index;
    text_index.seal();
    proof {
        assert forall|row: u32, term: Seq<char>| #[trigger]
            text_index.has_term(row, term) <==> text_posted(
                nodes@,
                nodes@.len() as int,
                label,
                property,
                row,
                term,
            ) by {
            assert(built.has_term(row, term) == text_index.has_term(row, term));
        }
    }
    Ok(text_index)
}

pub open spec fn text_posted(
    nodes: Seq<NodeRecord>,
    count: int,
    label: LabelId,
    property: PropertyId,
    row: u32,
    term: Seq<char>,
) -> bool {
    exists|i: int|
        0 <= i < count && text_posts(#[trigger] nodes[i], label, property, row, term)
}

proof fn lemma_text_posted_step(
    nodes: Seq<NodeRecord>,
    count: int,
    label: LabelId,
    property: PropertyId,
    row: u32,
    term: Seq<char>,
)
    requires
        0 <= count < nodes.len(),
    ensures
        text_posted(nodes, count + 1, label, property, row, term) <==> text_posted(
            nodes,
            count,
            label,
            property,
            row,
            term,
        ) || text_posts(nodes[count], label, property, row, term),
{
    if text_posted(nodes, count + 1, label, property, row, term) {
        let i = choose|i: int|
            0 <= i < count + 1 && text_posts(#[trigger] nodes[i], label, property, row, term);
        if i < count {
            assert(text_posts(nodes[i], label, property, row, term));
        }
    }
    if text_posted(nodes, count, label, property, row, term) {
        let i = choose|i: int|
            0 <= i < count && text_posts(#[trigger] nodes[i], label, property, row, term);
        assert(0 <= i < count + 1 && text_posts(nodes[i], label, property, row, term));
    }
    if text_posts(nodes[count], label, property, row, term) {
        assert(0 <= count < count + 1);
    }
}

/// A node has a key exactly where each property of the index has a value that is neither NULL nor a
/// document. One property gives the key of its value, several give those of their values in the order of
/// the properties.
pub proof fn law_keys_are_made_of_all_properties(
    values: Seq<(PropertyId, ScalarValue)>,
    properties: Seq<PropertyId>,
)
    requires
        properties.len() > 0,
    ensures
        match key_parts(values, properties, 0) {
            KeyOutcome::Parts(parts) => {
                &&& parts.len() == properties.len()
                &&& forall|i: int|
                    0 <= i < properties.len() ==> (first_value(
                        values,
                        #[trigger] properties[i],
                    ) matches Some(value) && value_key(value) == Some(parts[i]))
                &&& properties.len() == 1 ==> combined(parts) == parts[0]
                &&& properties.len() > 1 ==> combined(parts) == Key::Composite(parts)
            },
            KeyOutcome::Absent => exists|i: int|
                0 <= i < properties.len() && (first_value(values, #[trigger] properties[i]) is None
                    || first_value(values, properties[i]) == Some(Scalar::Null)),
            KeyOutcome::Refused => exists|i: int|
                0 <= i < properties.len() && (first_value(
                    values,
                    #[trigger] properties[i],
                ) matches Some(value) && (value is List || value is Entries)),
        },
{
    lemma_parts_from(values, properties, 0);
}

proof fn lemma_parts_from(
    values: Seq<(PropertyId, ScalarValue)>,
    properties: Seq<PropertyId>,
    index: int,
)
    requires
        0 <= index <= properties.len(),
    ensures
        match key_parts(values, properties, index) {
            KeyOutcome::Parts(parts) => {
                &&& parts.len() == properties.len() - index
                &&& forall|i: int|
                    index <= i < properties.len() ==> (first_value(
                        values,
                        #[trigger] properties[i],
                    ) matches Some(value) && value_key(value) == Some(parts[i - index]))
            },
            KeyOutcome::Absent => exists|i: int|
                index <= i < properties.len() && (first_value(
                    values,
                    #[trigger] properties[i],
                ) is None || first_value(values, properties[i]) == Some(Scalar::Null)),
            KeyOutcome::Refused => exists|i: int|
                index <= i < properties.len() && (first_value(
                    values,
                    #[trigger] properties[i],
                ) matches Some(value) && (value is List || value is Entries)),
        },
    decreases properties.len() - index,
{
    if index < properties.len() {
        lemma_parts_from(values, properties, index + 1);
        let here = first_value(values, properties[index]);
        if let Some(value) = here {
            if let Some(key) = value_key(value) {
                if let KeyOutcome::Parts(rest) = key_parts(values, properties, index + 1) {
                    let parts = seq![key] + rest;
                    assert forall|i: int| index <= i < properties.len() implies (first_value(
                        values,
                        #[trigger] properties[i],
                    ) matches Some(value) && value_key(value) == Some(parts[i - index])) by {
                        if i > index {
                            assert(first_value(values, properties[i]) is Some);
                        }
                    }
                }
            }
        }
    }
}

/// The value of a property is the first that is given for it.
pub proof fn law_first_value_counts(
    values: Seq<(PropertyId, ScalarValue)>,
    property: PropertyId,
    place: int,
)
    ensures
        0 <= place < values.len() && values[place].0 == property && (forall|i: int|
            0 <= i < place ==> (#[trigger] values[i]).0 != property) ==> first_value(
            values,
            property,
        ) == Some(values[place].1@),
        (forall|i: int| 0 <= i < values.len() ==> (#[trigger] values[i]).0 != property)
            ==> first_value(values, property) is None,
    decreases values.len(),
{
    if values.len() > 0 {
        let rest = values.skip(1);
        law_first_value_counts(rest, property, place - 1);
        if forall|i: int| 0 <= i < values.len() ==> (#[trigger] values[i]).0 != property {
            assert(values[0].0 != property);
            assert forall|i: int| 0 <= i < rest.len() implies (#[trigger] rest[i]).0 != property by {
                assert(values[i + 1].0 != property);
            }
        }
        if 0 < place < values.len() && (forall|i: int|
            0 <= i < place ==> (#[trigger] values[i]).0 != property) {
            assert(values[0].0 != property);
            assert forall|i: int| 0 <= i < place - 1 implies (#[trigger] rest[i]).0 != property by {
                assert(values[i + 1].0 != property);
            }
            assert(rest[place - 1] == values[place]);
        }
    }
}

} // verus!
