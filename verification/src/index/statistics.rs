//! What a planner reads of a catalog: statistics of indexes and seeds from text indexes.

use crate::algorithms::traversal::marked;
use crate::arith::{saturated, saturated64, saturating_product, saturating_product64};
use crate::error::{ErrorCode, Result};
use crate::index::catalog::{corrupt, is_online, IndexCatalog, IndexEntry, RuntimeIndex};
use crate::index::fulltext::ranked_answer;
use crate::index::keys::Key;
use crate::index::profile::{
    DerivedIndexState, EmbeddingIndexDefinition, GraphIndexDefinition, GraphIndexKind,
};
use crate::index::ranking::{
    add_score, ascending_scores, raised, rank_rows, ranking, score_map,
};
use crate::index::scalar::{is_shape, lists_keys, PostingShape, Postings};
use crate::shared::detach;
use crate::text::{blank, is_blank};
use crate::values::{LabelId, PropertyId};
use vstd::prelude::*;

verus! {

/// Planner statistics of one ONLINE index.
pub struct OptimizerIndexStatistics {
    pub name: String,
    pub kind: GraphIndexKind,
    pub label: LabelId,
    pub properties: Vec<PropertyId>,
    pub distinct_keys: u64,
    pub total_postings: u64,
    pub largest_posting: u64,
    pub vector_rows: u64,
    pub ann_candidate_budget: u64,
    pub ann_recall_basis_points: u16,
    pub resident_bytes: u64,
}

/// The numbers of some postings.
pub open spec fn counts_postings(
    statistics: OptimizerIndexStatistics,
    postings: Postings,
    terms: bool,
) -> bool {
    &&& statistics.vector_rows == 0
    &&& statistics.ann_candidate_budget == 0
    &&& statistics.ann_recall_basis_points == 0
    &&& exists|keys: Seq<Key>| #[trigger]
        lists_keys(postings, keys) && is_shape(
            postings,
            keys,
            terms,
            PostingShape {
                distinct: statistics.distinct_keys,
                total: statistics.total_postings,
                largest: statistics.largest_posting,
                bytes: statistics.resident_bytes,
            },
        )
}

/// The vectors that count in the column of a property.
pub open spec fn column_rows(catalog: IndexCatalog, property: PropertyId) -> int {
    if catalog.vector_columns@.dom().contains(property.0 as u128) {
        marked(catalog.vector_columns@[property.0 as u128].spec_value().active@) as int
    } else {
        0
    }
}

/// Bytes of one vector row: its identity, revision and mark, and two for each coordinate.
pub open spec fn vector_row_bytes(catalog: IndexCatalog) -> int {
    17 + 2 * match catalog.profile {
        Some(profile) => profile.dimension as int,
        None => 0,
    }
}

/// The statistics are those of the index.
pub open spec fn describes(
    catalog: IndexCatalog,
    entry: IndexEntry,
    statistics: OptimizerIndexStatistics,
) -> bool {
    &&& statistics.name@ == entry.definition.name@
    &&& statistics.kind == entry.definition.kind
    &&& statistics.label == entry.definition.label
    &&& statistics.properties@ == entry.definition.properties@
    &&& match entry.runtime {
        Some(RuntimeIndex::Equality(index)) => counts_postings(statistics, index.postings, false),
        Some(RuntimeIndex::Range(index)) => counts_postings(statistics, index.postings, false),
        Some(RuntimeIndex::Text(index)) => counts_postings(statistics, index.term_postings(), true),
        Some(RuntimeIndex::Vector { property, approximate }) => {
            &&& statistics.distinct_keys == 0
            &&& statistics.total_postings == 0
            &&& statistics.largest_posting == 0
            &&& statistics.vector_rows == column_rows(catalog, property)
            &&& statistics.ann_candidate_budget == match approximate {
                Some(pages) => pages.spec_value().config.candidate_budget as int,
                None => 0,
            }
            &&& statistics.ann_recall_basis_points == match approximate {
                Some(pages) => pages.spec_value().recall_basis_points as int,
                None => 0,
            }
            &&& statistics.resident_bytes == saturated64(
                column_rows(catalog, property) * vector_row_bytes(catalog),
            )
        },
        None => false,
    }
}

/// An index that has statistics.
pub open spec fn measured(entry: IndexEntry) -> bool {
    entry.state == DerivedIndexState::Online && entry.runtime is Some
}

/// The first entries that have statistics, in order.
pub open spec fn measured_entries(entries: Seq<IndexEntry>, count: int) -> Seq<IndexEntry>
    decreases count,
{
    if count <= 0 {
        Seq::empty()
    } else if measured(entries[count - 1]) {
        measured_entries(entries, count - 1).push(entries[count - 1])
    } else {
        measured_entries(entries, count - 1)
    }
}

impl IndexCatalog {
    fn describe(&self, place: usize) -> (statistics: Option<OptimizerIndexStatistics>)
        requires
            self.wf(),
            place < self.entries@.len(),
        ensures
            match statistics {
                Some(statistics) => measured(self.entries@[place as int]) && describes(
                    *self,
                    self.entries@[place as int],
                    statistics,
                ),
                None => !measured(self.entries@[place as int]),
            },
    {
        let entry = &self.entries[place];
        assert(self.entries@[place as int].wf());
        if !is_online(entry.state) {
            return None;
        }
        let mut statistics = OptimizerIndexStatistics {
            name: entry.definition.name.clone(),
            kind: entry.definition.kind,
            label: entry.definition.label,
            properties: detach(entry.definition.properties.as_slice()),
            distinct_keys: 0,
            total_postings: 0,
            largest_posting: 0,
            vector_rows: 0,
            ann_candidate_budget: 0,
            ann_recall_basis_points: 0,
            resident_bytes: 0,
        };
        let shape = match &entry.runtime {
            Some(RuntimeIndex::Equality(index)) => index.postings.shape(false),
            Some(RuntimeIndex::Range(index)) => index.postings.shape(false),
            Some(RuntimeIndex::Text(index)) => index.shape(),
            Some(RuntimeIndex::Vector { property, approximate }) => {
                let key: u128 = property.0 as u128;
                let rows: u64 = match self.vector_columns.get(key) {
                    Some(column) => {
                        assert(self.vector_columns@.dom().contains(key));
                        column.value().len() as u64
                    },
                    None => 0,
                };
                statistics.vector_rows = rows;
                match approximate {
                    Some(pages) => {
                        statistics.ann_candidate_budget = pages.value().config.candidate_budget
                            as u64;
                        statistics.ann_recall_basis_points = pages.value().recall_basis_points;
                    },
                    None => {},
                }
                let dimension: u64 = match &self.profile {
                    Some(profile) => profile.dimension as u64,
                    None => 0,
                };
                statistics.resident_bytes = saturating_product64(rows, 17 + 2 * dimension);
                return Some(statistics);
            },
            None => {
                return None;
            },
        };
        statistics.distinct_keys = shape.distinct;
        statistics.total_postings = shape.total;
        statistics.largest_posting = shape.largest;
        statistics.resident_bytes = shape.bytes;
        assert(shape == PostingShape {
            distinct: statistics.distinct_keys,
            total: statistics.total_postings,
            largest: statistics.largest_posting,
            bytes: statistics.resident_bytes,
        });
        Some(statistics)
    }

    /// Planner statistics of every ONLINE index, by ascending name.
    pub fn optimizer_statistics(&self) -> (statistics: Vec<OptimizerIndexStatistics>)
        requires
            self.wf(),
        ensures
            ({
                let entries = measured_entries(self.entries@, self.entries@.len() as int);
                &&& statistics@.len() == entries.len()
                &&& forall|i: int|
                    0 <= i < entries.len() ==> describes(
                        *self,
                        entries[i],
                        #[trigger] statistics@[i],
                    )
            }),
    {
        let mut all: Vec<OptimizerIndexStatistics> = Vec::new();
        for index in 0..self.entries.len()
            invariant
                self.wf(),
                all@.len() == measured_entries(self.entries@, index as int).len(),
                forall|i: int|
                    0 <= i < all@.len() ==> describes(
                        *self,
                        measured_entries(self.entries@, index as int)[i],
                        #[trigger] all@[i],
                    ),
        {
            let ghost before = all@;
            assert(measured_entries(self.entries@, index + 1) == if measured(
                self.entries@[index as int],
            ) {
                measured_entries(self.entries@, index as int).push(self.entries@[index as int])
            } else {
                measured_entries(self.entries@, index as int)
            });
            match self.describe(index) {
                Some(statistics) => {
                    all.push(statistics);
                    assert forall|i: int| 0 <= i < before.len() implies describes(
                        *self,
                        measured_entries(self.entries@, index as int)[i],
                        #[trigger] all@[i],
                    ) by {
                        assert(all@[i] == before[i]);
                    }
                },
                None => {},
            }
        }
        all
    }

    /// The definitions of the uniqueness constraints, by ascending name.
    pub fn constraint_definitions(&self) -> (definitions: Vec<&GraphIndexDefinition>)
        ensures
            ({
                let constraints = constraints_of(self.entries@, self.entries@.len() as int);
                &&& definitions@.len() == constraints.len()
                &&& forall|i: int|
                    0 <= i < constraints.len() ==> *(#[trigger] definitions@[i]) == constraints[i]
            }),
    {
        let mut all: Vec<&GraphIndexDefinition> = Vec::new();
        for index in 0..self.entries.len()
            invariant
                all@.len() == constraints_of(self.entries@, index as int).len(),
                forall|i: int|
                    0 <= i < all@.len() ==> *(#[trigger] all@[i]) == constraints_of(
                        self.entries@,
                        index as int,
                    )[i],
        {
            if self.entries[index].definition.unique {
                all.push(&self.entries[index].definition);
            }
        }
        all
    }

    /// The definitions of all indexes, by ascending name.
    pub fn definitions(&self) -> (definitions: Vec<&GraphIndexDefinition>)
        ensures
            definitions@.len() == self.entries@.len(),
            forall|i: int|
                0 <= i < definitions@.len() ==> *(#[trigger] definitions@[i])
                    == self.entries@[i].definition,
    {
        let mut all: Vec<&GraphIndexDefinition> = Vec::new();
        for index in 0..self.entries.len()
            invariant
                all@.len() == index,
                forall|i: int|
                    0 <= i < index ==> *(#[trigger] all@[i]) == self.entries@[i].definition,
        {
            all.push(&self.entries[index].definition);
        }
        all
    }
}

impl IndexCatalog {
    /// The embeddings, by ascending name.
    pub fn embedding_definitions(&self) -> (definitions: Vec<&EmbeddingIndexDefinition>)
        ensures
            definitions@.len() == self.embeddings@.len(),
            forall|i: int|
                0 <= i < definitions@.len() ==> *(#[trigger] definitions@[i])
                    == self.embeddings@[i],
    {
        let mut all: Vec<&EmbeddingIndexDefinition> = Vec::new();
        for index in 0..self.embeddings.len()
            invariant
                all@.len() == index,
                forall|i: int| 0 <= i < index ==> *(#[trigger] all@[i]) == self.embeddings@[i],
        {
            all.push(&self.embeddings[index]);
        }
        all
    }
}

/// The unique definitions among the first entries.
pub open spec fn constraints_of(entries: Seq<IndexEntry>, count: int) -> Seq<GraphIndexDefinition>
    decreases count,
{
    if count <= 0 {
        Seq::empty()
    } else if entries[count - 1].definition.unique {
        constraints_of(entries, count - 1).push(entries[count - 1].definition)
    } else {
        constraints_of(entries, count - 1)
    }
}

/// Scores after a list of scored rows was taken in.
pub open spec fn with_list(
    scores: Map<u128, u32>,
    list: Seq<(u32, u32)>,
    count: int,
) -> Map<u128, u32>
    decreases count,
{
    if count <= 0 {
        scores
    } else {
        let before = with_list(scores, list, count - 1);
        let row = list[count - 1].0 as u128;
        before.insert(
            row,
            raised(
                if before.dom().contains(row) {
                    before[row]
                } else {
                    0
                },
                list[count - 1].1,
            ),
        )
    }
}

/// Scores of the first lists together.
pub open spec fn merged(lists: Seq<Seq<(u32, u32)>>, count: int) -> Map<u128, u32>
    decreases count,
{
    if count <= 0 {
        Map::empty()
    } else {
        with_list(merged(lists, count - 1), lists[count - 1], lists[count - 1].len() as int)
    }
}

/// An index that is asked for text.
pub open spec fn asked(entry: IndexEntry) -> bool {
    entry.state == DerivedIndexState::Online && entry.definition.kind == GraphIndexKind::Text
}

/// What is wrong with a text index.
pub open spec fn text_fault(entry: IndexEntry) -> Option<Seq<char>> {
    if !asked(entry) {
        None
    } else {
        match entry.runtime {
            None => Some("ONLINE text index has no physical runtime"@),
            Some(RuntimeIndex::Text(_)) => None,
            Some(_) => Some("text index definition and runtime kind differ"@),
        }
    }
}

/// The lists that the text indexes give: nothing where an index is not asked.
pub open spec fn text_lists(
    entries: Seq<IndexEntry>,
    query: Seq<char>,
    limit: int,
    lists: Seq<Seq<(u32, u32)>>,
) -> bool {
    &&& lists.len() <= entries.len()
    &&& forall|i: int|
        0 <= i < lists.len() ==> answers_text(entries[i], query, limit, #[trigger] lists[i])
}

/// The list that one index gives.
pub open spec fn answers_text(
    entry: IndexEntry,
    query: Seq<char>,
    limit: int,
    list: Seq<(u32, u32)>,
) -> bool {
    if asked(entry) {
        entry.runtime matches Some(RuntimeIndex::Text(index)) && ranked_answer(
            index,
            query,
            limit,
            list,
        )
    } else {
        list.len() == 0
    }
}

/// How many entries are looked at.
pub open spec fn entries_asked(entries: Seq<IndexEntry>) -> int {
    if entries.len() < 64 {
        entries.len() as int
    } else {
        64
    }
}

/// The first text index with a fault, among those that are looked at.
pub open spec fn first_text_fault(
    entries: Seq<IndexEntry>,
    place: int,
    message: Seq<char>,
) -> bool {
    &&& 0 <= place < entries_asked(entries)
    &&& text_fault(entries[place]) == Some(message)
    &&& forall|i: int| 0 <= i < place ==> text_fault(#[trigger] entries[i]) is None
}

/// The rows with the best merged scores, best first.
pub open spec fn best_rows(
    rows: Seq<u32>,
    lists: Seq<Seq<(u32, u32)>>,
    limit: int,
    ranked: Seq<(u32, u32)>,
) -> bool {
    &&& ranking(ranked, merged(lists, lists.len() as int), limit)
    &&& rows == Seq::new(ranked.len(), |i: int| ranked[i].0)
}

/// The rows answer a query by what the text indexes give.
pub open spec fn text_answer(
    entries: Seq<IndexEntry>,
    query: Seq<char>,
    limit: int,
    rows: Seq<u32>,
    lists: Seq<Seq<(u32, u32)>>,
    ranked: Seq<(u32, u32)>,
) -> bool {
    &&& lists.len() == entries_asked(entries)
    &&& text_lists(entries, query, saturated(limit * 2), lists)
    &&& best_rows(rows, lists, limit, ranked)
}

/// No text index has a fault, and the rows answer the query.
pub open spec fn text_found(
    entries: Seq<IndexEntry>,
    query: Seq<char>,
    limit: int,
    rows: Seq<u32>,
) -> bool {
    &&& forall|i: int|
        0 <= i < entries_asked(entries) ==> text_fault(#[trigger] entries[i]) is None
    &&& exists|lists: Seq<Seq<(u32, u32)>>, ranked: Seq<(u32, u32)>| #[trigger]
        text_answer(entries, query, limit, rows, lists, ranked)
}

fn take_list(scores: &mut Vec<(u32, u32)>, list: &Vec<(u32, u32)>)
    requires
        ascending_scores(old(scores)@),
    ensures
        ascending_scores(final(scores)@),
        score_map(final(scores)@) == with_list(
            score_map(old(scores)@),
            list@,
            list@.len() as int,
        ),
{
    let ghost before = score_map(scores@);
    for index in 0..list.len()
        invariant
            ascending_scores(scores@),
            score_map(scores@) == with_list(before, list@, index as int),
    {
        add_score(scores, list[index].0, list[index].1);
    }
}

impl IndexCatalog {
    /// Asks all ONLINE text indexes with bounded work, and merges them by matched terms and then row. A
    /// seed for a search, never a score of evidence.
    #[verifier::rlimit(40)]
    #[verifier::spinoff_prover]
    pub fn bounded_text_candidates(&self, query: &str, limit: usize) -> (result: Result<Vec<u32>>)
        requires
            self.wf(),
        ensures
            if limit == 0 || blank(query@) {
                result matches Ok(rows) && rows@.len() == 0
            } else {
                match result {
                    Ok(rows) => text_found(self.entries@, query@, limit as int, rows@),
                    Err(error) => exists|place: int| #[trigger]
                        first_text_fault(self.entries@, place, error.message@) && error.code
                            == ErrorCode::CorruptStorage,
                }
            },
    {
        if limit == 0 || is_blank(query) {
            return Ok(Vec::new());
        }
        let width: usize = saturating_product(limit, 2);
        let mut scores: Vec<(u32, u32)> = Vec::new();
        let ghost mut lists: Seq<Seq<(u32, u32)>> = Seq::empty();
        assert(score_map(scores@) =~= Map::empty());
        let count: usize = if self.entries.len() < 64 {
            self.entries.len()
        } else {
            64
        };
        for index in 0..count
            invariant
                self.wf(),
                limit > 0,
                !blank(query@),
                width == saturated(limit * 2),
                width > 0,
                count == entries_asked(self.entries@),
                ascending_scores(scores@),
                lists.len() == index,
                text_lists(self.entries@, query@, width as int, lists),
                score_map(scores@) == merged(lists, index as int),
                forall|i: int| 0 <= i < index ==> text_fault(#[trigger] self.entries@[i]) is None,
        {
            let entry = &self.entries[index];
            assert(self.entries@[index as int].wf());
            let text = match entry.definition.kind {
                GraphIndexKind::Text => is_online(entry.state),
                _ => false,
            };
            let mut list: Vec<(u32, u32)> = Vec::new();
            if text {
                match &entry.runtime {
                    Some(RuntimeIndex::Text(index)) => {
                        list = index.bounded_ranked_search(query, width);
                    },
                    Some(_) => {
                        assert(first_text_fault(
                            self.entries@,
                            index as int,
                            "text index definition and runtime kind differ"@,
                        ));
                        return corrupt("text index definition and runtime kind differ");
                    },
                    None => {
                        assert(first_text_fault(
                            self.entries@,
                            index as int,
                            "ONLINE text index has no physical runtime"@,
                        ));
                        return corrupt("ONLINE text index has no physical runtime");
                    },
                }
            }
            let ghost before = lists;
            take_list(&mut scores, &list);
            proof {
                assert(answers_text(*entry, query@, width as int, list@));
                lists = lists.push(list@);
                lemma_merged_prefix(before, lists, index as int);
                assert forall|i: int| 0 <= i < lists.len() implies answers_text(
                    self.entries@[i],
                    query@,
                    width as int,
                    #[trigger] lists[i],
                ) by {
                    if i < index {
                        assert(lists[i] == before[i]);
                    }
                }
            }
        }
        let ranked = rank_rows(&scores, limit);
        let mut rows: Vec<u32> = Vec::with_capacity(ranked.len());
        for index in 0..ranked.len()
            invariant
                rows@.len() == index,
                forall|i: int| 0 <= i < index ==> #[trigger] rows@[i] == ranked@[i].0,
        {
            rows.push(ranked[index].0);
        }
        assert(rows@ =~= Seq::new(ranked@.len(), |i: int| ranked@[i].0));
        assert(text_answer(self.entries@, query@, limit as int, rows@, lists, ranked@));
        assert(text_found(self.entries@, query@, limit as int, rows@));
        Ok(rows)
    }
}

proof fn lemma_merged_prefix(left: Seq<Seq<(u32, u32)>>, right: Seq<Seq<(u32, u32)>>, count: int)
    requires
        0 <= count <= left.len(),
        count <= right.len(),
        forall|i: int| 0 <= i < count ==> left[i] == #[trigger] right[i],
    ensures
        merged(left, count) == merged(right, count),
    decreases count,
{
    if count > 0 {
        lemma_merged_prefix(left, right, count - 1);
        assert(left[count - 1] == right[count - 1]);
    }
}

/// Every row that a question for text gives has a term of the query in one of the first 64 indexes, which
/// is online and of text.
pub proof fn law_found_rows_have_a_term(
    entries: Seq<IndexEntry>,
    query: Seq<char>,
    limit: int,
    rows: Seq<u32>,
    lists: Seq<Seq<(u32, u32)>>,
    ranked: Seq<(u32, u32)>,
    place: int,
)
    requires
        text_answer(entries, query, limit, rows, lists, ranked),
        forall|i: int| 0 <= i < entries.len() ==> (#[trigger] entries[i]).wf(),
        0 <= place < rows.len(),
    ensures
        exists|i: int| #[trigger] has_query_term(entries, i, query, rows[place]),
{
    let row = rows[place];
    let scores = merged(lists, lists.len() as int);
    assert(scores.dom().contains(ranked[place].0 as u128));
    let (i, j) = lemma_merged_row(lists, lists.len() as int, row as u128);
    assert(answers_text(entries[i], query, saturated(limit * 2), lists[i]));
    let index = entries[i].runtime->Some_0->Text_0;
    assert(entries[i].wf());
    crate::index::fulltext::law_ranked_rows_have_a_term(
        index,
        query,
        saturated(limit * 2),
        lists[i],
        j,
    );
    assert(has_query_term(entries, i, query, row));
}

/// One of the first 64 indexes is online and of text, and the row has a term of the query in it.
pub open spec fn has_query_term(
    entries: Seq<IndexEntry>,
    place: int,
    query: Seq<char>,
    row: u32,
) -> bool {
    &&& 0 <= place < entries.len()
    &&& place < 64
    &&& entries[place].state == DerivedIndexState::Online
    &&& entries[place].definition.kind == GraphIndexKind::Text
    &&& entries[place].runtime matches Some(RuntimeIndex::Text(index)) && exists|term: Seq<char>|
        #[trigger] crate::index::terms::term_of(crate::index::terms::folded(query), term)
            && index.has_term(row, term)
}

proof fn lemma_merged_row(lists: Seq<Seq<(u32, u32)>>, count: int, key: u128) -> (found: (int, int))
    requires
        0 <= count <= lists.len(),
        merged(lists, count).dom().contains(key),
    ensures
        0 <= found.0 < count,
        0 <= found.1 < lists[found.0].len(),
        lists[found.0][found.1].0 as u128 == key,
    decreases count,
{
    let before = merged(lists, count - 1);
    let list = lists[count - 1];
    if before.dom().contains(key) {
        lemma_merged_row(lists, count - 1, key)
    } else {
        (count - 1, lemma_listed_row(before, list, list.len() as int, key))
    }
}

proof fn lemma_listed_row(
    scores: Map<u128, u32>,
    list: Seq<(u32, u32)>,
    count: int,
    key: u128,
) -> (place: int)
    requires
        0 <= count <= list.len(),
        !scores.dom().contains(key),
        with_list(scores, list, count).dom().contains(key),
    ensures
        0 <= place < count,
        list[place].0 as u128 == key,
    decreases count,
{
    if list[count - 1].0 as u128 == key {
        count - 1
    } else {
        lemma_listed_row(scores, list, count - 1, key)
    }
}

/// Each of the first 64 indexes that is online and of text is asked for twice as many rows as are wanted,
/// and a row is worth what the indexes give it together.
pub proof fn law_every_text_index_is_asked(
    entries: Seq<IndexEntry>,
    query: Seq<char>,
    limit: int,
    rows: Seq<u32>,
    lists: Seq<Seq<(u32, u32)>>,
    ranked: Seq<(u32, u32)>,
    place: int,
)
    requires
        text_answer(entries, query, limit, rows, lists, ranked),
        0 <= limit * 2 <= usize::MAX,
        0 <= place < entries.len(),
        place < 64,
        entries[place].state == DerivedIndexState::Online,
        entries[place].definition.kind == GraphIndexKind::Text,
    ensures
        entries[place].runtime matches Some(RuntimeIndex::Text(index)) && ranked_answer(
            index,
            query,
            limit * 2,
            lists[place],
        ),
        rows.len() <= limit,
        forall|i: int|
            0 <= i < lists[place].len() ==> ranking_counts(
                rows,
                limit,
                (#[trigger] lists[place][i]).0,
            ),
{
    assert(answers_text(entries[place], query, saturated(limit * 2), lists[place]));
    let scores = merged(lists, lists.len() as int);
    assert forall|i: int| 0 <= i < lists[place].len() implies ranking_counts(
        rows,
        limit,
        (#[trigger] lists[place][i]).0,
    ) by {
        let row = lists[place][i].0;
        lemma_row_is_merged(lists, lists.len() as int, place, i);
        assert(scores.dom().contains(row as u128));
        if crate::index::ranking::ranked(ranked, row) {
            let k = choose|k: int| 0 <= k < ranked.len() && (#[trigger] ranked[k]).0 == row;
            assert(rows[k] == row);
            assert(rows.contains(row));
        }
    }
}

/// The row was found, or as many rows were as are wanted.
pub open spec fn ranking_counts(rows: Seq<u32>, limit: int, row: u32) -> bool {
    rows.contains(row) || rows.len() == limit
}

proof fn lemma_row_is_merged(lists: Seq<Seq<(u32, u32)>>, count: int, place: int, index: int)
    requires
        0 <= place < count <= lists.len(),
        0 <= index < lists[place].len(),
    ensures
        merged(lists, count).dom().contains(lists[place][index].0 as u128),
    decreases count,
{
    let before = merged(lists, count - 1);
    let list = lists[count - 1];
    if place < count - 1 {
        lemma_row_is_merged(lists, count - 1, place, index);
    }
    lemma_row_is_listed(before, list, list.len() as int, lists[place][index].0 as u128);
    if place == count - 1 {
        assert(list[index].0 as u128 == lists[place][index].0 as u128);
    }
}

proof fn lemma_row_is_listed(
    scores: Map<u128, u32>,
    list: Seq<(u32, u32)>,
    count: int,
    key: u128,
)
    requires
        0 <= count <= list.len(),
    ensures
        scores.dom().contains(key) || (exists|i: int|
            0 <= i < count && (#[trigger] list[i]).0 as u128 == key) ==> with_list(
            scores,
            list,
            count,
        ).dom().contains(key),
    decreases count,
{
    if count > 0 {
        lemma_row_is_listed(scores, list, count - 1, key);
        if exists|i: int| 0 <= i < count && (#[trigger] list[i]).0 as u128 == key {
            let i = choose|i: int| 0 <= i < count && (#[trigger] list[i]).0 as u128 == key;
            if i < count - 1 {
                assert(list[i].0 as u128 == key);
            }
        }
    }
}

/// The constraints are the definitions that ask for unique values: each of them and no other.
pub proof fn law_constraints_are_the_unique_definitions(
    entries: Seq<IndexEntry>,
    count: int,
    definition: GraphIndexDefinition,
)
    requires
        0 <= count <= entries.len(),
    ensures
        constraints_of(entries, count).contains(definition) <==> definition.unique && exists|
            place: int,
        |
            0 <= place < count && (#[trigger] entries[place]).definition == definition,
    decreases count,
{
    if count > 0 {
        law_constraints_are_the_unique_definitions(entries, count - 1, definition);
        let before = constraints_of(entries, count - 1);
        let now = constraints_of(entries, count);
        let last = entries[count - 1];
        if last.definition.unique {
            assert(now == before.push(last.definition));
            assert(now[before.len() as int] == last.definition);
            if now.contains(definition) && definition != last.definition {
                let i = choose|i: int| 0 <= i < now.len() && now[i] == definition;
                assert(before[i] == definition);
            }
            if before.contains(definition) {
                let i = choose|i: int| 0 <= i < before.len() && before[i] == definition;
                assert(now[i] == definition);
            }
        }
    }
}

/// The measured indexes are those that are online and built: each of them and no other.
pub proof fn law_online_indexes_are_measured(
    entries: Seq<IndexEntry>,
    count: int,
    entry: IndexEntry,
)
    requires
        0 <= count <= entries.len(),
    ensures
        measured_entries(entries, count).contains(entry) <==> entry.state
            == DerivedIndexState::Online && entry.runtime is Some && exists|place: int|
            0 <= place < count && #[trigger] entries[place] == entry,
    decreases count,
{
    if count > 0 {
        law_online_indexes_are_measured(entries, count - 1, entry);
        let before = measured_entries(entries, count - 1);
        let now = measured_entries(entries, count);
        let last = entries[count - 1];
        if measured(last) {
            assert(now == before.push(last));
            assert(now[before.len() as int] == last);
            if now.contains(entry) && entry != last {
                let i = choose|i: int| 0 <= i < now.len() && now[i] == entry;
                assert(before[i] == entry);
            }
            if before.contains(entry) {
                let i = choose|i: int| 0 <= i < before.len() && before[i] == entry;
                assert(now[i] == entry);
            }
        }
    }
}

} // verus!
