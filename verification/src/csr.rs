//! Compact sparse row adjacency.

use crate::cancel::{ask, goes_on};
use crate::decimal::{
    answer_text, decimal, optional_text, push_answer, push_decimal, push_optional,
};
use crate::error::{fails_with, Error, ErrorCode, Result};
use crate::order::{
    decode_triple, encode_triple, lemma_permutation, lemma_sorted_unique, lemma_triple_key,
    sort_keys, sorted, triple_key, triple_of,
};
use crate::shared::{FlatColumn, SharedFlat};
use std::collections::BTreeMap;
use vstd::prelude::*;

verus! {

/// Compact sparse row adjacency carrying edge ordinals and neighbor ordinals.
pub struct Csr {
    offsets: FlatColumn<u32>,
    neighbors: FlatColumn<u32>,
    edges: FlatColumn<u32>,
}

impl Clone for Csr {
    fn clone(&self) -> (copy: Self)
        ensures
            copy == *self,
    {
        Csr {
            offsets: self.offsets.clone(),
            neighbors: self.neighbors.clone(),
            edges: self.edges.clone(),
        }
    }
}

impl Default for Csr {
    fn default() -> (csr: Self)
        ensures
            csr.spec_offsets() == Seq::<u32>::empty(),
            csr.spec_neighbors() == Seq::<u32>::empty(),
            csr.spec_edges() == Seq::<u32>::empty(),
    {
        Csr {
            offsets: FlatColumn::from_vec(Vec::new()),
            neighbors: FlatColumn::from_vec(Vec::new()),
            edges: FlatColumn::from_vec(Vec::new()),
        }
    }
}

/// Row offsets start at zero and never decrease.
pub open spec fn offsets_ordered(offsets: Seq<u32>) -> bool {
    &&& offsets.len() > 0 ==> offsets[0] == 0
    &&& offsets_ascend(offsets)
}

/// Row offsets never decrease.
pub open spec fn offsets_ascend(offsets: Seq<u32>) -> bool {
    forall|i: int, j: int|
        0 <= i <= j < offsets.len() ==> #[trigger] offsets[i] <= #[trigger] offsets[j]
}

/// The keys of a list of edges.
pub open spec fn keys_of(triples: Seq<(u32, u32, u32)>) -> Seq<u128> {
    Seq::new(triples.len(), |i: int| triple_key(triples[i]))
}

/// Every edge the other way round.
pub open spec fn transposed(triples: Seq<(u32, u32, u32)>) -> Seq<(u32, u32, u32)> {
    Seq::new(triples.len(), |i: int| (triples[i].1, triples[i].0, triples[i].2))
}

/// Edges that leave `source`.
pub open spec fn degree(triples: Seq<(u32, u32, u32)>, source: int) -> int
    decreases triples.len(),
{
    if triples.len() == 0 {
        0
    } else {
        degree(triples.drop_last(), source) + if triples.last().0 == source {
            1int
        } else {
            0
        }
    }
}

pub open spec fn sources_inside(triples: Seq<(u32, u32, u32)>, node_count: int) -> bool {
    forall|i: int| 0 <= i < triples.len() ==> (#[trigger] triples[i]).0 < node_count
}

pub open spec fn targets_inside(triples: Seq<(u32, u32, u32)>, node_count: int) -> bool {
    forall|i: int| 0 <= i < triples.len() ==> (#[trigger] triples[i]).1 < node_count
}

/// Some node has more edges than an offset can count.
pub open spec fn degree_exhausted(triples: Seq<(u32, u32, u32)>, node_count: int) -> bool {
    exists|node: int| 0 <= node < node_count && #[trigger] degree(triples, node) > u32::MAX
}

impl Csr {
    pub closed spec fn spec_offsets(&self) -> Seq<u32> {
        self.offsets@
    }

    pub closed spec fn spec_neighbors(&self) -> Seq<u32> {
        self.neighbors@
    }

    pub closed spec fn spec_edges(&self) -> Seq<u32> {
        self.edges@
    }

    /// Rows of the adjacency.
    pub open spec fn node_total(&self) -> int {
        if self.spec_offsets().len() == 0 {
            0
        } else {
            self.spec_offsets().len() - 1
        }
    }

    /// The offsets delimit rows of the neighbor and edge columns.
    pub open spec fn wf(&self) -> bool {
        &&& self.spec_offsets().len() > 0
        &&& offsets_ordered(self.spec_offsets())
        &&& self.spec_offsets().last() == self.spec_neighbors().len()
        &&& self.spec_neighbors().len() == self.spec_edges().len()
    }

    /// The offsets end where the neighbor and edge columns end.
    pub open spec fn columns_agree(&self) -> bool {
        &&& self.spec_offsets().len() > 0
        &&& self.spec_offsets().last() == self.spec_neighbors().len()
        &&& self.spec_neighbors().len() == self.spec_edges().len()
    }

    /// Every neighbor is a row.
    pub open spec fn targets_are_rows(&self) -> bool {
        forall|i: int|
            0 <= i < self.spec_neighbors().len() ==> #[trigger] self.spec_neighbors()[i]
                < self.node_total()
    }

    /// The neighbors and edges of one row, or nothing where the offsets delimit none.
    pub open spec fn spec_row(&self, node: int) -> Option<Seq<(u32, u32)>> {
        if 0 <= node && node + 1 < self.spec_offsets().len() && self.spec_offsets()[node]
            <= self.spec_offsets()[node + 1] && self.spec_offsets()[node + 1]
            <= self.spec_neighbors().len() && self.spec_offsets()[node + 1]
            <= self.spec_edges().len() {
            let start = self.spec_offsets()[node] as int;
            Some(
                Seq::new(
                    (self.spec_offsets()[node + 1] - start) as nat,
                    |i: int| (self.spec_neighbors()[start + i], self.spec_edges()[start + i]),
                ),
            )
        } else {
            None
        }
    }

    /// The adjacency lists exactly these edges, by source, then target, then edge ordinal: the
    /// ascending keys of the edges give the columns, and an offset counts the edges before its row.
    pub open spec fn lists(&self, node_count: int, triples: Seq<(u32, u32, u32)>) -> bool {
        exists|keys: Seq<u128>| #[trigger] self.listed_by(node_count, triples, keys)
    }

    pub open spec fn listed_by(
        &self,
        node_count: int,
        triples: Seq<(u32, u32, u32)>,
        keys: Seq<u128>,
    ) -> bool {
        &&& sorted(keys)
        &&& keys.to_multiset() == keys_of(triples).to_multiset()
        &&& self.spec_offsets().len() == node_count + 1
        &&& self.spec_neighbors().len() == keys.len()
        &&& self.spec_edges().len() == keys.len()
        &&& forall|i: int|
            0 <= i < keys.len() ==> self.spec_neighbors()[i] == triple_of(#[trigger] keys[i]).1
                && self.spec_edges()[i] == triple_of(keys[i]).2
        &&& forall|i: int, row: int|
            0 <= i < keys.len() && 0 <= row <= node_count ==> (i < #[trigger] self.spec_offsets()[row]
                <==> triple_of(#[trigger] keys[i]).0 < row)
        &&& forall|row: int|
            0 <= row <= node_count ==> #[trigger] self.spec_offsets()[row] <= keys.len()
    }

    pub fn build(node_count: usize, triples: &[(u32, u32, u32)]) -> (csr: Result<Self>)
        requires
            node_count < usize::MAX,
        ensures
            build_outcome(node_count as int, triples@, csr),
            csr matches Ok(built) ==> built.wf() && built.targets_are_rows() && built.node_total()
                == node_count,
    {
        let mut keys: Vec<u128> = Vec::with_capacity(triples.len());
        for index in 0..triples.len()
            invariant
                keys@ == keys_of(triples@.subrange(0, index as int)),
        {
            keys.push(encode_triple(triples[index]));
            assert(keys@ =~= keys_of(triples@.subrange(0, index + 1)));
        }
        assert(triples@.subrange(0, triples@.len() as int) =~= triples@);
        let csr = Self::build_owned(node_count, keys, Ghost(triples@));
        proof {
            if csr is Ok {
                law_listed_rows(csr->Ok_0, node_count as int, triples@);
            }
        }
        csr
    }

    /// Builds the adjacency of the edges the other way round, without a reversed copy of them.
    pub fn build_transposed(node_count: usize, triples: &[(u32, u32, u32)]) -> (csr: Result<Self>)
        requires
            node_count < usize::MAX,
        ensures
            build_outcome(node_count as int, transposed(triples@), csr),
            csr matches Ok(built) ==> built.wf() && built.targets_are_rows() && built.node_total()
                == node_count,
    {
        let mut keys: Vec<u128> = Vec::with_capacity(triples.len());
        for index in 0..triples.len()
            invariant
                keys@ == keys_of(transposed(triples@).subrange(0, index as int)),
        {
            let (source, target, edge) = triples[index];
            keys.push(encode_triple((target, source, edge)));
            assert(keys@ =~= keys_of(transposed(triples@).subrange(0, index + 1)));
        }
        assert(transposed(triples@).subrange(0, triples@.len() as int) =~= transposed(triples@));
        let csr = Self::build_owned(node_count, keys, Ghost(transposed(triples@)));
        proof {
            if csr is Ok {
                law_listed_rows(csr->Ok_0, node_count as int, transposed(triples@));
            }
        }
        csr
    }
}

/// What building an adjacency gives: its errors in the order in which they are found, or the
/// adjacency that lists the edges.
pub open spec fn build_outcome(
    node_count: int,
    triples: Seq<(u32, u32, u32)>,
    csr: Result<Csr>,
) -> bool {
    if degree_exhausted(triples, node_count) {
        fails_with(csr, ErrorCode::ResultBudgetExceeded, "adjacency degree exhausted"@)
    } else if !sources_inside(triples, node_count) {
        fails_with(csr, ErrorCode::InvalidData, "adjacency source is out of bounds"@)
    } else if triples.len() > u32::MAX {
        fails_with(csr, ErrorCode::ResultBudgetExceeded, "adjacency offset exhausted"@)
    } else if !targets_inside(triples, node_count) {
        fails_with(csr, ErrorCode::InvalidData, "adjacency target is out of bounds"@)
    } else {
        csr is Ok && csr->Ok_0.lists(node_count, triples)
    }
}

/// How many of the first `count` keys have this source.
spec fn key_degree(keys: Seq<u128>, source: int, count: int) -> int
    decreases count,
{
    if count <= 0 {
        0
    } else {
        key_degree(keys, source, count - 1) + if triple_of(keys[count - 1]).0 == source {
            1int
        } else {
            0
        }
    }
}

/// How many of the first `count` keys have a source below this one.
spec fn keys_below(keys: Seq<u128>, source: int, count: int) -> int
    decreases count,
{
    if count <= 0 {
        0
    } else {
        keys_below(keys, source, count - 1) + if triple_of(keys[count - 1]).0 < source {
            1int
        } else {
            0
        }
    }
}

spec fn from_source(source: int) -> spec_fn(u128) -> bool {
    |key: u128| triple_of(key).0 == source
}

proof fn lemma_key_degree_multiset(keys: Seq<u128>, source: int, count: int)
    requires
        0 <= count <= keys.len(),
    ensures
        key_degree(keys, source, count) == keys.subrange(0, count).to_multiset().filter(
            from_source(source),
        ).len(),
    decreases count,
{
    let head = keys.subrange(0, count);
    head.to_multiset_ensures();
    if count > 0 {
        lemma_key_degree_multiset(keys, source, count - 1);
        let rest = keys.subrange(0, count - 1);
        let key = keys[count - 1];
        assert(head =~= rest.push(key));
        rest.to_multiset_ensures();
        assert(head.to_multiset() =~= rest.to_multiset().insert(key));
        let kept = rest.to_multiset().filter(from_source(source));
        if triple_of(key).0 == source {
            assert(head.to_multiset().filter(from_source(source)) =~= kept.insert(key));
        } else {
            assert(head.to_multiset().filter(from_source(source)) =~= kept);
        }
    } else {
        assert(head.to_multiset().filter(from_source(source)) =~= vstd::multiset::Multiset::empty());
    }
}

proof fn lemma_degree_keys(triples: Seq<(u32, u32, u32)>, source: int, count: int)
    requires
        0 <= count <= triples.len(),
    ensures
        degree(triples.subrange(0, count), source) == key_degree(keys_of(triples), source, count),
    decreases count,
{
    let head = triples.subrange(0, count);
    if count > 0 {
        lemma_degree_keys(triples, source, count - 1);
        assert(head.drop_last() =~= triples.subrange(0, count - 1));
        lemma_triple_key(triples[count - 1]);
    }
}

/// Sorting does not change how many edges leave a node.
proof fn lemma_degree_sorted(triples: Seq<(u32, u32, u32)>, keys: Seq<u128>, source: int)
    requires
        keys.to_multiset() == keys_of(triples).to_multiset(),
    ensures
        degree(triples, source) == key_degree(keys, source, keys.len() as int),
{
    let unsorted = keys_of(triples);
    lemma_permutation(keys, unsorted);
    lemma_key_degree_multiset(keys, source, keys.len() as int);
    lemma_key_degree_multiset(unsorted, source, unsorted.len() as int);
    lemma_degree_keys(triples, source, triples.len() as int);
    assert(keys.subrange(0, keys.len() as int) =~= keys);
    assert(unsorted.subrange(0, unsorted.len() as int) =~= unsorted);
    assert(triples.subrange(0, triples.len() as int) =~= triples);
}

/// The sorted keys are the keys of the edges.
pub(crate) proof fn lemma_sorted_keys(triples: Seq<(u32, u32, u32)>, keys: Seq<u128>, node_count: int)
    requires
        keys.to_multiset() == keys_of(triples).to_multiset(),
    ensures
        keys.len() == triples.len(),
        forall|i: int|
            0 <= i < keys.len() ==> #[trigger] keys[i] < 0x1_0000_0000_0000_0000_0000_0000,
        sources_inside(triples, node_count) <==> (forall|i: int|
            0 <= i < keys.len() ==> triple_of(#[trigger] keys[i]).0 < node_count),
        targets_inside(triples, node_count) <==> (forall|i: int|
            0 <= i < keys.len() ==> triple_of(#[trigger] keys[i]).1 < node_count),
{
    let unsorted = keys_of(triples);
    lemma_permutation(keys, unsorted);
    assert forall|i: int| 0 <= i < keys.len() implies exists|j: int|
        0 <= j < triples.len() && #[trigger] keys[i] == triple_key(#[trigger] triples[j]) by {
        assert(keys.contains(keys[i]));
        assert(unsorted.contains(keys[i]));
        let j = choose|j: int| 0 <= j < unsorted.len() && unsorted[j] == keys[i];
        assert(keys[i] == triple_key(triples[j]));
    }
    assert forall|j: int| 0 <= j < triples.len() implies exists|i: int|
        0 <= i < keys.len() && #[trigger] keys[i] == triple_key(#[trigger] triples[j]) by {
        assert(unsorted[j] == triple_key(triples[j]));
        assert(unsorted.contains(unsorted[j]));
        assert(keys.contains(unsorted[j]));
        let i = choose|i: int| 0 <= i < keys.len() && keys[i] == unsorted[j];
        assert(keys[i] == triple_key(triples[j]));
    }
    assert forall|i: int| 0 <= i < keys.len() implies #[trigger] keys[i]
        < 0x1_0000_0000_0000_0000_0000_0000 && exists|j: int|
        0 <= j < triples.len() && triple_of(keys[i]) == #[trigger] triples[j] by {
        let j = choose|j: int|
            0 <= j < triples.len() && keys[i] == triple_key(#[trigger] triples[j]);
        lemma_triple_key(triples[j]);
    }
    assert forall|j: int| 0 <= j < triples.len() implies exists|i: int|
        0 <= i < keys.len() && triple_of(#[trigger] keys[i]) == #[trigger] triples[j] by {
        let i = choose|i: int|
            0 <= i < keys.len() && #[trigger] keys[i] == triple_key(triples[j]);
        lemma_triple_key(triples[j]);
    }
}

proof fn lemma_key_degree_steps(keys: Seq<u128>, source: int, low: int, high: int)
    requires
        0 <= low <= high <= keys.len(),
    ensures
        key_degree(keys, source, low) <= key_degree(keys, source, high),
        0 <= key_degree(keys, source, low) <= low,
        (forall|i: int| low <= i < high ==> triple_of(#[trigger] keys[i]).0 != source)
            ==> key_degree(keys, source, low) == key_degree(keys, source, high),
    decreases high,
{
    if low < high {
        lemma_key_degree_steps(keys, source, low, high - 1);
    } else if low > 0 {
        lemma_key_degree_steps(keys, source, low - 1, low - 1);
    }
}

proof fn lemma_keys_below_next(keys: Seq<u128>, source: int, count: int)
    requires
        0 <= count <= keys.len(),
    ensures
        keys_below(keys, source + 1, count) == keys_below(keys, source, count) + key_degree(
            keys,
            source,
            count,
        ),
    decreases count,
{
    if count > 0 {
        lemma_keys_below_next(keys, source, count - 1);
    }
}

proof fn lemma_source_order(keys: Seq<u128>, i: int, j: int)
    requires
        sorted(keys),
        0 <= i <= j < keys.len(),
        keys[i] < 0x1_0000_0000_0000_0000_0000_0000,
        keys[j] < 0x1_0000_0000_0000_0000_0000_0000,
    ensures
        triple_of(keys[i]).0 <= triple_of(keys[j]).0,
{
    assert(keys[i] <= keys[j]);
}

/// Ascending keys with a source below `source` come first.
proof fn lemma_keys_below(keys: Seq<u128>, source: int, count: int)
    requires
        sorted(keys),
        0 <= count <= keys.len(),
        forall|i: int|
            0 <= i < keys.len() ==> #[trigger] keys[i] < 0x1_0000_0000_0000_0000_0000_0000,
    ensures
        0 <= keys_below(keys, source, count) <= count,
        forall|i: int|
            0 <= i < count ==> (i < keys_below(keys, source, count) <==> triple_of(
                #[trigger] keys[i],
            ).0 < source),
        source <= 0 ==> keys_below(keys, source, count) == 0,
    decreases count,
{
    if count > 0 {
        lemma_keys_below(keys, source, count - 1);
        if triple_of(keys[count - 1]).0 < source {
            assert forall|i: int| 0 <= i < count implies triple_of(#[trigger] keys[i]).0
                < source by {
                lemma_source_order(keys, i, count - 1);
            }
            if count > 1 && keys_below(keys, source, count - 1) < count - 1 {
                assert(triple_of(keys[count - 2]).0 < source);
            }
        }
    }
}

impl Csr {
    fn build_owned(
        node_count: usize,
        keys: Vec<u128>,
        Ghost(triples): Ghost<Seq<(u32, u32, u32)>>,
    ) -> (csr: Result<Self>)
        requires
            node_count < usize::MAX,
            keys@ == keys_of(triples),
        ensures
            build_outcome(node_count as int, triples, csr),
    {
        let mut keys = keys;
        sort_keys(&mut keys);
        let total: usize = keys.len();
        let mut offsets: Vec<u32> = vec![0u32; node_count + 1];
        proof {
            lemma_sorted_keys(triples, keys@, node_count as int);
        }
        for index in 0..total
            invariant
                node_count < usize::MAX,
                total == keys.len(),
                sorted(keys@),
                keys@.to_multiset() == keys_of(triples).to_multiset(),
                forall|i: int|
                    0 <= i < keys.len() ==> #[trigger] keys@[i]
                        < 0x1_0000_0000_0000_0000_0000_0000,
                sources_inside(triples, node_count as int) <==> (forall|i: int|
                    0 <= i < keys.len() ==> triple_of(#[trigger] keys@[i]).0 < node_count),
                forall|i: int| 0 <= i < index ==> triple_of(#[trigger] keys@[i]).0 < node_count,
                offsets.len() == node_count + 1,
                offsets@[0] == 0,
                forall|row: int|
                    1 <= row <= node_count ==> #[trigger] offsets@[row] == key_degree(
                        keys@,
                        row - 1,
                        index as int,
                    ),
        {
            let (source, _, _) = decode_triple(keys[index]);
            let source: usize = source as usize;
            if source >= node_count {
                proof {
                    assert forall|node: int| 0 <= node < node_count implies #[trigger] degree(
                        triples,
                        node,
                    ) <= u32::MAX by {
                        lemma_degree_sorted(triples, keys@, node);
                        assert forall|i: int| index <= i < total implies triple_of(
                            #[trigger] keys@[i],
                        ).0 != node by {
                            lemma_source_order(keys@, index as int, i);
                        }
                        lemma_key_degree_steps(keys@, node, index as int, total as int);
                        assert(offsets@[node + 1] == key_degree(keys@, node, index as int));
                    }
                }
                return Err(Error::invalid_data("adjacency source is out of bounds"));
            }
            let next: u32 = match offsets[source + 1].checked_add(1) {
                Some(next) => next,
                None => {
                    proof {
                        lemma_degree_sorted(triples, keys@, source as int);
                        lemma_key_degree_steps(keys@, source as int, index + 1, total as int);
                        assert(degree(triples, source as int) > u32::MAX);
                    }
                    return Err(
                        Error::new(ErrorCode::ResultBudgetExceeded, "adjacency degree exhausted"),
                    );
                },
            };
            offsets.set(source + 1, next);
        }
        proof {
            assert forall|node: int| 0 <= node < node_count implies #[trigger] degree(triples, node)
                <= u32::MAX by {
                lemma_degree_sorted(triples, keys@, node);
                assert(offsets@[node + 1] == key_degree(keys@, node, total as int));
            }
            lemma_keys_below(keys@, 0, total as int);
            lemma_keys_below(keys@, node_count as int, total as int);
            if total > 0 {
                assert(triple_of(keys@[total - 1]).0 < node_count);
            }
        }
        let mut row: usize = 1;
        while row < node_count + 1
            invariant
                node_count < usize::MAX,
                1 <= row <= node_count + 1,
                total == keys.len(),
                total == triples.len(),
                sorted(keys@),
                !degree_exhausted(triples, node_count as int),
                sources_inside(triples, node_count as int),
                forall|i: int|
                    0 <= i < keys.len() ==> #[trigger] keys@[i]
                        < 0x1_0000_0000_0000_0000_0000_0000,
                offsets.len() == node_count + 1,
                forall|r: int|
                    row <= r <= node_count ==> #[trigger] offsets@[r] == key_degree(
                        keys@,
                        r - 1,
                        total as int,
                    ),
                forall|r: int|
                    0 <= r < row ==> #[trigger] offsets@[r] == keys_below(keys@, r, total as int),
            decreases node_count + 1 - row,
        {
            proof {
                lemma_keys_below_next(keys@, row - 1, total as int);
                lemma_keys_below(keys@, row as int, total as int);
            }
            let next: u32 = match offsets[row].checked_add(offsets[row - 1]) {
                Some(next) => next,
                None => {
                    return Err(
                        Error::new(ErrorCode::ResultBudgetExceeded, "adjacency offset exhausted"),
                    );
                },
            };
            offsets.set(row, next);
            row = row + 1;
        }
        let ghost fits = offsets@[node_count as int] == total;
        let mut neighbors: Vec<u32> = Vec::with_capacity(total);
        let mut edges: Vec<u32> = Vec::with_capacity(total);
        for index in 0..total
            invariant
                total == keys.len(),
                total == triples.len(),
                total <= u32::MAX,
                !degree_exhausted(triples, node_count as int),
                sources_inside(triples, node_count as int),
                forall|i: int|
                    0 <= i < keys.len() ==> #[trigger] keys@[i]
                        < 0x1_0000_0000_0000_0000_0000_0000,
                targets_inside(triples, node_count as int) <==> (forall|i: int|
                    0 <= i < keys.len() ==> triple_of(#[trigger] keys@[i]).1 < node_count),
                forall|i: int| 0 <= i < index ==> triple_of(#[trigger] keys@[i]).1 < node_count,
                neighbors.len() == index,
                edges.len() == index,
                forall|i: int|
                    0 <= i < index ==> neighbors@[i] == triple_of(#[trigger] keys@[i]).1
                        && edges@[i] == triple_of(keys@[i]).2,
        {
            let (_, target, edge) = decode_triple(keys[index]);
            if target as usize >= node_count {
                return Err(Error::invalid_data("adjacency target is out of bounds"));
            }
            neighbors.push(target);
            edges.push(edge);
        }
        let csr = Csr {
            offsets: FlatColumn::from_vec(offsets),
            neighbors: FlatColumn::from_vec(neighbors),
            edges: FlatColumn::from_vec(edges),
        };
        proof {
            assert forall|i: int, r: int| 0 <= i < total && 0 <= r <= node_count implies (i
                < #[trigger] csr.spec_offsets()[r] <==> triple_of(#[trigger] keys@[i]).0 < r) by {
                lemma_keys_below(keys@, r, total as int);
            }
            assert forall|r: int| 0 <= r <= node_count implies #[trigger] csr.spec_offsets()[r]
                <= total by {
                lemma_keys_below(keys@, r, total as int);
            }
            assert(csr.listed_by(node_count as int, triples, keys@));
        }
        Ok(csr)
    }
}

/// An adjacency that lists edges is well formed, its neighbors are rows, and a row holds exactly the
/// edges of its node.
pub proof fn law_listed_rows(csr: Csr, node_count: int, triples: Seq<(u32, u32, u32)>)
    requires
        node_count >= 0,
        csr.lists(node_count, triples),
        sources_inside(triples, node_count),
        targets_inside(triples, node_count),
    ensures
        csr.wf(),
        csr.node_total() == node_count,
        csr.targets_are_rows(),
        forall|node: int, target: u32, edge: u32|
            0 <= node < node_count && node <= u32::MAX ==> (#[trigger] csr.holds(node, target, edge)
                <==> triples.contains((node as u32, target, edge))),
{
    let keys = choose|keys: Seq<u128>| #[trigger] csr.listed_by(node_count, triples, keys);
    lemma_sorted_keys(triples, keys, node_count);
    let unsorted = keys_of(triples);
    lemma_permutation(keys, unsorted);
    let offsets = csr.spec_offsets();
    assert(offsets[0] == 0) by {
        if offsets[0] > 0 {
            assert(triple_of(keys[0]).0 < 0);
        }
    }
    assert forall|i: int, j: int| 0 <= i <= j < offsets.len() implies #[trigger] offsets[i]
        <= #[trigger] offsets[j] by {
        if offsets[i] > offsets[j] {
            let k = offsets[j] as int;
            assert(k < offsets[i] <==> triple_of(keys[k]).0 < i);
            assert(k < offsets[j] <==> triple_of(keys[k]).0 < j);
        }
    }
    assert(offsets[node_count] == keys.len()) by {
        if offsets[node_count] < keys.len() {
            let k = offsets[node_count] as int;
            assert(k < offsets[node_count] <==> triple_of(keys[k]).0 < node_count);
        }
    }
    assert forall|i: int| 0 <= i < csr.spec_neighbors().len() implies #[trigger] csr.spec_neighbors()[i]
        < csr.node_total() by {
        assert(triple_of(keys[i]).1 < node_count);
    }
    assert forall|node: int, target: u32, edge: u32| 0 <= node < node_count && node
        <= u32::MAX implies (#[trigger] csr.holds(node, target, edge) <==> triples.contains(
        (node as u32, target, edge),
    )) by {
        let start = offsets[node] as int;
        let end = offsets[node + 1] as int;
        let row = csr.spec_row(node)->Some_0;
        assert(csr.spec_row(node) is Some);
        let triple = (node as u32, target, edge);
        lemma_triple_key(triple);
        if csr.holds(node, target, edge) {
            let i = choose|i: int| 0 <= i < row.len() && #[trigger] row[i] == (target, edge);
            let k = start + i;
            assert(k < offsets[node] <==> triple_of(keys[k]).0 < node);
            assert(k < offsets[node + 1] <==> triple_of(keys[k]).0 < node + 1);
            assert(triple_of(keys[k]) == triple);
            assert(keys.contains(keys[k]));
            assert(unsorted.contains(keys[k]));
            let j = choose|j: int| 0 <= j < unsorted.len() && unsorted[j] == keys[k];
            lemma_triple_key(triples[j]);
            assert(triples[j] == triple);
        }
        if triples.contains(triple) {
            let j = choose|j: int| 0 <= j < triples.len() && triples[j] == triple;
            assert(unsorted[j] == triple_key(triple));
            assert(unsorted.contains(unsorted[j]));
            assert(keys.contains(unsorted[j]));
            let k = choose|k: int| 0 <= k < keys.len() && keys[k] == unsorted[j];
            assert(k < offsets[node] <==> triple_of(keys[k]).0 < node);
            assert(k < offsets[node + 1] <==> triple_of(keys[k]).0 < node + 1);
            assert(row[k - start] == (target, edge));
        }
    }
}

/// Two adjacencies that list the same edges over the same rows have the same columns, in whatever
/// order the edges were given.
pub proof fn law_listing_is_canonical(
    first: Csr,
    second: Csr,
    node_count: int,
    triples: Seq<(u32, u32, u32)>,
    permuted: Seq<(u32, u32, u32)>,
)
    requires
        node_count >= 0,
        first.lists(node_count, triples),
        second.lists(node_count, permuted),
        keys_of(triples).to_multiset() == keys_of(permuted).to_multiset(),
    ensures
        first.spec_offsets() == second.spec_offsets(),
        first.spec_neighbors() == second.spec_neighbors(),
        first.spec_edges() == second.spec_edges(),
{
    let keys = choose|keys: Seq<u128>| #[trigger] first.listed_by(node_count, triples, keys);
    let other = choose|keys: Seq<u128>| #[trigger] second.listed_by(node_count, permuted, keys);
    lemma_sorted_unique(keys, other);
    assert forall|row: int| 0 <= row <= node_count implies first.spec_offsets()[row]
        == second.spec_offsets()[row] by {
        let a = first.spec_offsets()[row] as int;
        let b = second.spec_offsets()[row] as int;
        if a < b {
            assert(triple_of(keys[a]).0 < row);
        }
        if b < a {
            assert(triple_of(keys[b]).0 < row);
        }
    }
    assert forall|i: int| 0 <= i < keys.len() implies first.spec_neighbors()[i]
        == second.spec_neighbors()[i] && first.spec_edges()[i] == second.spec_edges()[i] by {
        let key = keys[i];
    }
    assert(first.spec_offsets() =~= second.spec_offsets());
    assert(first.spec_neighbors() =~= second.spec_neighbors());
    assert(first.spec_edges() =~= second.spec_edges());
}

impl Csr {
    /// The row of `node` holds this neighbor by this edge.
    pub open spec fn holds(&self, node: int, target: u32, edge: u32) -> bool {
        self.spec_row(node) is Some && exists|i: int|
            0 <= i < self.spec_row(node)->Some_0.len() && #[trigger] self.spec_row(node)->Some_0[i]
                == (target, edge)
    }
}

/// From position `start` on, no value is above a later one.
pub open spec fn ordered_from(values: Seq<u32>, start: int) -> bool {
    forall|i: int, j: int|
        start <= i <= j < values.len() ==> #[trigger] values[i] <= #[trigger] values[j]
}

fn check_ordered_from(values: &[u32], start: usize) -> (ordered: bool)
    ensures
        ordered == ordered_from(values@, start as int),
{
    if start >= values.len() {
        return true;
    }
    let mut index: usize = start + 1;
    while index < values.len()
        invariant
            start < index <= values.len(),
            forall|i: int, j: int|
                start <= i <= j < index ==> #[trigger] values@[i] <= #[trigger] values@[j],
        decreases values.len() - index,
    {
        if values[index - 1] > values[index] {
            return false;
        }
        assert forall|i: int, j: int| start <= i <= j < index + 1 implies #[trigger] values@[i]
            <= #[trigger] values@[j] by {
            if j == index && i < index {
                assert(values@[i] <= values@[index - 1]);
            }
        }
        index = index + 1;
    }
    true
}

/// The item at a place, if there is one.
pub open spec fn item_at(values: Seq<u32>, place: int) -> Option<u32> {
    if 0 <= place < values.len() {
        Some(values[place])
    } else {
        None
    }
}

/// How many values are not zero.
pub open spec fn nonzero_total(values: Seq<u32>) -> nat
    decreases values.len(),
{
    if values.len() == 0 {
        0
    } else {
        nonzero_total(values.drop_last()) + if values.last() != 0 {
            1nat
        } else {
            0nat
        }
    }
}

/// The first value, from `place` on, that is not zero, and where it stands.
pub open spec fn first_nonzero(values: Seq<u32>, place: int) -> Option<(int, u32)>
    decreases values.len() - place,
{
    if place >= values.len() {
        None
    } else if values[place] != 0 {
        Some((place, values[place]))
    } else {
        first_nonzero(values, place + 1)
    }
}

/// A place and what stands there, as text.
pub open spec fn place_text(found: Option<(int, u32)>) -> Seq<char> {
    match found {
        Some((place, value)) => "Some(("@ + decimal(place as nat) + ", "@ + decimal(value as nat)
            + "))"@,
        None => "None"@,
    }
}

fn push_place(out: &mut String, found: Option<(usize, u32)>)
    ensures
        final(out)@ == old(out)@ + place_text(
            match found {
                Some((place, value)) => Some((place as int, value)),
                None => None,
            },
        ),
{
    let ghost before = out@;
    match found {
        Some((place, value)) => {
            out.append("Some((");
            push_decimal(out, place as u64);
            out.append(", ");
            push_decimal(out, value as u64);
            out.append("))");
            assert(out@ =~= before + place_text(Some((place as int, value))));
        },
        None => {
            out.append("None");
        },
    }
}

fn scan_nonzero(values: &[u32]) -> (scan: (usize, Option<(usize, u32)>))
    ensures
        scan.0 == nonzero_total(values@),
        first_nonzero(values@, 0) == match scan.1 {
            Some((place, value)) => Some((place as int, value)),
            None => None,
        },
{
    let mut total: usize = 0;
    let mut first: Option<(usize, u32)> = None;
    for index in 0..values.len()
        invariant
            total <= index,
            total == nonzero_total(values@.take(index as int)),
            match first {
                Some((place, value)) => first_nonzero(values@, 0) == Some((place as int, value)),
                None => first_nonzero(values@, 0) == first_nonzero(values@, index as int),
            },
    {
        let value: u32 = values[index];
        assert(values@.take(index + 1).drop_last() =~= values@.take(index as int));
        if value != 0 {
            total = total + 1;
            if first.is_none() {
                first = Some((index, value));
            }
        }
    }
    assert(values@.take(values@.len() as int) =~= values@);
    (total, first)
}

/// Offsets start at zero, never decrease, and end at the length of the payload columns.
pub open spec fn offsets_delimit(offsets: Seq<u32>, payload: int) -> bool {
    &&& offsets.len() > 0
    &&& offsets_ordered(offsets)
    &&& offsets.last() == payload
}

fn check_offsets(offsets: &[u32], payload: usize) -> (delimit: bool)
    ensures
        delimit == offsets_delimit(offsets@, payload as int),
{
    offsets.len() > 0 && offsets[0] == 0 && check_ordered_from(offsets, 0) && offsets[offsets.len()
        - 1] as usize == payload
}

impl Csr {
    /// Grows the row count without touching the neighbor or edge arrays. Appended rows have no
    /// adjacency yet, so every new offset repeats the current terminal offset.
    pub fn extend_rows(&mut self, node_count: usize) -> (result: Result<()>)
        requires
            node_count < usize::MAX,
        ensures
            final(self).spec_neighbors() == old(self).spec_neighbors(),
            final(self).spec_edges() == old(self).spec_edges(),
            if old(self).spec_offsets().len() == 0 {
                &&& fails_with(result, ErrorCode::CorruptStorage, "adjacency offsets are empty"@)
                &&& *final(self) == *old(self)
            } else if old(self).node_total() > node_count {
                &&& fails_with(
                    result,
                    ErrorCode::InvalidData,
                    "adjacency row count cannot be reduced by extension"@,
                )
                &&& *final(self) == *old(self)
            } else {
                &&& result is Ok
                &&& final(self).spec_offsets() == old(self).spec_offsets() + Seq::new(
                    (node_count - old(self).node_total()) as nat,
                    |i: int| old(self).spec_offsets().last(),
                )
            },
    {
        let current = self.offsets.as_slice();
        if current.len() == 0 {
            return Err(Error::new(ErrorCode::CorruptStorage, "adjacency offsets are empty"));
        }
        let terminal: u32 = current[current.len() - 1];
        let required: usize = node_count + 1;
        if current.len() > required {
            return Err(
                Error::invalid_data("adjacency row count cannot be reduced by extension"),
            );
        }
        let ghost grown = current@ + Seq::new(
            (required - current@.len()) as nat,
            |i: int| terminal,
        );
        if current.len() == required {
            assert(grown =~= current@);
            return Ok(());
        }
        let mut offsets: Vec<u32> = Vec::with_capacity(required);
        offsets.extend_from_slice(current);
        assert(offsets@ =~= current@);
        offsets.resize(required, terminal);
        assert(offsets@ =~= grown);
        self.offsets = FlatColumn::from_vec(offsets);
        Ok(())
    }

    pub fn from_shared(
        offsets: SharedFlat<u32>,
        neighbors: SharedFlat<u32>,
        edges: SharedFlat<u32>,
    ) -> (csr: Result<Self>)
        ensures
            if offsets_delimit(offsets@, neighbors@.len() as int) && neighbors@.len()
                == edges@.len() {
                &&& csr is Ok
                &&& csr->Ok_0.wf()
                &&& csr->Ok_0.offsets_are_shared()
                &&& csr->Ok_0.spec_offsets() == offsets@
                &&& csr->Ok_0.spec_neighbors() == neighbors@
                &&& csr->Ok_0.spec_edges() == edges@
            } else {
                fails_with(
                    csr,
                    ErrorCode::CorruptStorage,
                    "shared adjacency columns are structurally inconsistent"@,
                )
            },
    {
        if !check_offsets(offsets.as_slice(), neighbors.len()) || neighbors.len() != edges.len() {
            return Err(
                Error::new(
                    ErrorCode::CorruptStorage,
                    "shared adjacency columns are structurally inconsistent",
                ),
            );
        }
        Ok(
            Csr {
                offsets: FlatColumn::from_shared(offsets),
                neighbors: FlatColumn::from_shared(neighbors),
                edges: FlatColumn::from_shared(edges),
            },
        )
    }

    /// Binds an adjacency written by the selected device in the current unpublished command
    /// stream. Structural values cannot be read safely until that stream reaches its publication
    /// fence, so only lengths are checked here; [`Csr::from_shared`] remains the validating
    /// constructor for host-populated allocations.
    pub fn from_device_generated_shared(
        offsets: SharedFlat<u32>,
        neighbors: SharedFlat<u32>,
        edges: SharedFlat<u32>,
    ) -> (csr: Result<Self>)
        ensures
            if offsets@.len() > 0 && neighbors@.len() == edges@.len() {
                &&& csr is Ok
                &&& csr->Ok_0.offsets_are_shared()
                &&& csr->Ok_0.spec_offsets() == offsets@
                &&& csr->Ok_0.spec_neighbors() == neighbors@
                &&& csr->Ok_0.spec_edges() == edges@
            } else {
                fails_with(
                    csr,
                    ErrorCode::CorruptStorage,
                    "device-generated adjacency columns have invalid lengths"@,
                )
            },
    {
        if offsets.len() == 0 || neighbors.len() != edges.len() {
            return Err(
                Error::new(
                    ErrorCode::CorruptStorage,
                    "device-generated adjacency columns have invalid lengths",
                ),
            );
        }
        Ok(
            Csr {
                offsets: FlatColumn::from_shared(offsets),
                neighbors: FlatColumn::from_shared(neighbors),
                edges: FlatColumn::from_shared(edges),
            },
        )
    }

    /// The offsets are a window of a shared allocation.
    pub closed spec fn offsets_are_shared(&self) -> bool {
        self.offsets is Shared
    }

    /// Rebinds only the row-offset allocation after empty rows are appended. The neighbor and edge
    /// generations remain byte-identical because an edgeless node cannot change either payload
    /// column.
    pub fn rebase_shared_offsets(&mut self, offsets: SharedFlat<u32>) -> (result: Result<()>)
        ensures
            final(self).spec_neighbors() == old(self).spec_neighbors(),
            final(self).spec_edges() == old(self).spec_edges(),
            if offsets_delimit(offsets@, old(self).spec_neighbors().len() as int) {
                &&& result is Ok
                &&& final(self).offsets_are_shared()
                &&& final(self).spec_offsets() == offsets@
            } else {
                &&& fails_with(
                    result,
                    ErrorCode::CorruptStorage,
                    "shared adjacency offsets are structurally inconsistent"@,
                )
                &&& *final(self) == *old(self)
            },
    {
        if !check_offsets(offsets.as_slice(), self.neighbors.as_slice().len()) {
            return Err(
                Error::new(
                    ErrorCode::CorruptStorage,
                    "shared adjacency offsets are structurally inconsistent",
                ),
            );
        }
        self.offsets = FlatColumn::from_shared(offsets);
        Ok(())
    }

    /// The new offsets extend the current ones and end at the length of the payload columns.
    pub open spec fn offsets_extended_by(&self, offsets: Seq<u32>) -> bool {
        &&& self.spec_offsets().len() > 0
        &&& self.spec_offsets().len() < offsets.len()
        &&& self.spec_offsets().is_prefix_of(offsets)
        &&& ordered_from(offsets, self.spec_offsets().len() - 1)
        &&& offsets.last() == self.spec_neighbors().len()
    }

    /// Whether the new offsets extend the current ones and end at the length of the payload columns,
    /// given whether they continue the current window in its allocation. Only the new tail is read.
    pub fn offsets_extend(&self, offsets: &SharedFlat<u32>, same_prefix: bool) -> (extended: bool)
        requires
            same_prefix ==> self.spec_offsets().is_prefix_of(offsets@),
        ensures
            extended == (same_prefix && self.offsets_extended_by(offsets@)),
    {
        let previous_len: usize = self.offsets.as_slice().len();
        let values = offsets.as_slice();
        same_prefix && previous_len != 0 && values.len() > previous_len && check_ordered_from(
            values,
            previous_len - 1,
        ) && values[values.len() - 1] as usize == self.neighbors.as_slice().len()
    }

    /// What is said of offsets that do not extend the current ones.
    pub open spec fn extension_message(&self, offsets: Seq<u32>, same_prefix: bool) -> Seq<char> {
        let known = self.spec_offsets();
        "shared adjacency offset extension is structurally inconsistent: previous_len="@ + decimal(
            known.len(),
        ) + " next_len="@ + decimal(offsets.len()) + " same_allocation="@ + answer_text(same_prefix)
            + " previous_terminal="@ + optional_text(item_at(known, known.len() - 1)) + " boundary="@
            + optional_text(item_at(offsets, known.len() - 1)) + " next_terminal="@ + optional_text(
            item_at(offsets, offsets.len() - 1),
        ) + " neighbors="@ + decimal(self.spec_neighbors().len()) + " tail_monotonic="@
            + answer_text(
            0 < known.len() <= offsets.len() + 1 && ordered_from(offsets, known.len() - 1),
        ) + " nonzero_offsets="@ + decimal(nonzero_total(offsets)) + " first_nonzero="@
            + place_text(first_nonzero(offsets, 0))
    }

    fn write_extension_message(&self, offsets: &SharedFlat<u32>, same_prefix: bool) -> (message:
        String)
        ensures
            message@ == self.extension_message(offsets@, same_prefix),
    {
        let known = self.offsets.as_slice();
        let values = offsets.as_slice();
        let mut message = String::from_str(
            "shared adjacency offset extension is structurally inconsistent: previous_len=",
        );
        push_decimal(&mut message, known.len() as u64);
        message.append(" next_len=");
        push_decimal(&mut message, values.len() as u64);
        message.append(" same_allocation=");
        push_answer(&mut message, same_prefix);
        message.append(" previous_terminal=");
        let terminal: Option<u32> = if known.len() > 0 {
            Some(known[known.len() - 1])
        } else {
            None
        };
        push_optional(&mut message, terminal);
        message.append(" boundary=");
        let boundary: Option<u32> = if known.len() > 0 && known.len() - 1 < values.len() {
            Some(values[known.len() - 1])
        } else {
            None
        };
        push_optional(&mut message, boundary);
        message.append(" next_terminal=");
        let next_terminal: Option<u32> = if values.len() > 0 {
            Some(values[values.len() - 1])
        } else {
            None
        };
        push_optional(&mut message, next_terminal);
        message.append(" neighbors=");
        push_decimal(&mut message, self.neighbors.as_slice().len() as u64);
        message.append(" tail_monotonic=");
        let monotonic = known.len() > 0 && known.len() - 1 <= values.len() && check_ordered_from(
            values,
            known.len() - 1,
        );
        push_answer(&mut message, monotonic);
        message.append(" nonzero_offsets=");
        let (total, first) = scan_nonzero(values);
        push_decimal(&mut message, total as u64);
        message.append(" first_nonzero=");
        push_place(&mut message, first);
        message
    }

    /// Rebinds an appended offset prefix from the same allocation, validating only the new tail.
    /// The immutable prefix was validated when this adjacency was admitted; the allocation-identity
    /// check shows that it cannot have been substituted. Offsets that extend the current ones by
    /// value but live in another allocation are refused too; which allocation a window belongs to
    /// is no function of its values.
    pub fn rebase_shared_offsets_extension(
        &mut self,
        offsets: SharedFlat<u32>,
    ) -> (result: Result<()>)
        ensures
            final(self).spec_neighbors() == old(self).spec_neighbors(),
            final(self).spec_edges() == old(self).spec_edges(),
            !old(self).offsets_are_shared() ==> fails_with(
                result,
                ErrorCode::CorruptStorage,
                "adjacency offset extension has no shared prefix"@,
            ),
            old(self).offsets_are_shared() && !old(self).offsets_extended_by(offsets@)
                ==> result is Err,
            match result {
                Ok(_) => final(self).offsets_are_shared() && final(self).spec_offsets() == offsets@,
                Err(_) => {
                    &&& *final(self) == *old(self)
                    &&& old(self).offsets_are_shared() ==> exists|same_prefix: bool|
                        {
                            &&& same_prefix ==> old(self).spec_offsets().is_prefix_of(offsets@)
                            &&& !(same_prefix && old(self).offsets_extended_by(offsets@))
                            &&& fails_with(
                                result,
                                ErrorCode::CorruptStorage,
                                #[trigger] old(self).extension_message(offsets@, same_prefix),
                            )
                        }
                },
            },
    {
        let previous = match &self.offsets {
            FlatColumn::Shared(previous) => previous,
            FlatColumn::Owned(_) => {
                return Err(
                    Error::new(
                        ErrorCode::CorruptStorage,
                        "adjacency offset extension has no shared prefix",
                    ),
                );
            },
        };
        let same_prefix = previous.is_prefix_of(&offsets);
        if !self.offsets_extend(&offsets, same_prefix) {
            let message = self.write_extension_message(&offsets, same_prefix);
            return Err(Error { code: ErrorCode::CorruptStorage, message });
        }
        self.offsets = FlatColumn::from_shared(offsets);
        Ok(())
    }

    /// First and last position of one row in the payload columns.
    pub(crate) fn row_bounds(&self, node: u32) -> (bounds: Option<(usize, usize)>)
        ensures
            match bounds {
                Some((start, end)) => {
                    &&& self.spec_row(node as int) is Some
                    &&& start == self.spec_offsets()[node as int]
                    &&& end == self.spec_offsets()[node + 1]
                    &&& start <= end <= self.spec_neighbors().len()
                    &&& end <= self.spec_edges().len()
                    &&& self.spec_row(node as int)->Some_0.len() == end - start
                },
                None => self.spec_row(node as int) is None,
            },
    {
        let offsets = self.offsets.as_slice();
        let row: usize = node as usize;
        if row >= offsets.len() || row + 1 >= offsets.len() {
            return None;
        }
        let start: usize = offsets[row] as usize;
        let end: usize = offsets[row + 1] as usize;
        if start > end || end > self.neighbors.as_slice().len() || end
            > self.edges.as_slice().len() {
            return None;
        }
        Some((start, end))
    }

    /// Neighbors of one row with their edges, in column order.
    pub fn row(&self, node: u32) -> (row: Option<Vec<(u32, u32)>>)
        ensures
            row is Some == self.spec_row(node as int) is Some,
            row matches Some(entries) ==> Some(entries@) == self.spec_row(node as int),
    {
        let (start, end) = match self.row_bounds(node) {
            Some(bounds) => bounds,
            None => {
                return None;
            },
        };
        let neighbors = self.neighbors.as_slice();
        let edges = self.edges.as_slice();
        let mut entries: Vec<(u32, u32)> = Vec::with_capacity(end - start);
        for index in start..end
            invariant
                end <= neighbors.len(),
                end <= edges.len(),
                neighbors@ == self.spec_neighbors(),
                edges@ == self.spec_edges(),
                start == self.spec_offsets()[node as int],
                self.spec_row(node as int) is Some,
                self.spec_row(node as int)->Some_0.len() == end - start,
                entries@ == self.spec_row(node as int)->Some_0.subrange(0, index - start),
        {
            entries.push((neighbors[index], edges[index]));
            assert(entries@ =~= self.spec_row(node as int)->Some_0.subrange(0, index + 1 - start));
        }
        assert(entries@ =~= self.spec_row(node as int)->Some_0);
        Some(entries)
    }

    pub fn offsets(&self) -> (offsets: &[u32])
        ensures
            offsets@ == self.spec_offsets(),
    {
        self.offsets.as_slice()
    }

    pub fn neighbors(&self) -> (neighbors: &[u32])
        ensures
            neighbors@ == self.spec_neighbors(),
    {
        self.neighbors.as_slice()
    }

    pub fn edges(&self) -> (edges: &[u32])
        ensures
            edges@ == self.spec_edges(),
    {
        self.edges.as_slice()
    }
}

/// Extending the rows of an adjacency that lists edges gives the adjacency that lists the same edges
/// over more rows.
pub proof fn law_extension_matches_rebuild(
    before: Csr,
    after: Csr,
    node_count: int,
    triples: Seq<(u32, u32, u32)>,
)
    requires
        before.node_total() <= node_count,
        before.lists(before.node_total(), triples),
        sources_inside(triples, before.node_total()),
        after.spec_neighbors() == before.spec_neighbors(),
        after.spec_edges() == before.spec_edges(),
        after.spec_offsets() == before.spec_offsets() + Seq::new(
            (node_count - before.node_total()) as nat,
            |i: int| before.spec_offsets().last(),
        ),
    ensures
        after.lists(node_count, triples),
{
    let rows = before.node_total();
    let keys = choose|keys: Seq<u128>| #[trigger] before.listed_by(rows, triples, keys);
    lemma_sorted_keys(triples, keys, rows);
    assert forall|i: int, row: int| 0 <= i < keys.len() && 0 <= row <= node_count implies (i
        < #[trigger] after.spec_offsets()[row] <==> triple_of(#[trigger] keys[i]).0 < row) by {
        if row <= rows {
            assert(after.spec_offsets()[row] == before.spec_offsets()[row]);
        } else {
            assert(after.spec_offsets()[row] == before.spec_offsets()[rows]);
            assert(i < before.spec_offsets()[rows] <==> triple_of(keys[i]).0 < rows);
        }
    }
    assert forall|row: int| 0 <= row <= node_count implies #[trigger] after.spec_offsets()[row]
        <= keys.len() by {
        if row <= rows {
            assert(after.spec_offsets()[row] == before.spec_offsets()[row]);
        } else {
            assert(after.spec_offsets()[row] == before.spec_offsets()[rows]);
        }
    }
    assert(after.listed_by(node_count, triples, keys));
}

/// Complete rows by node: the neighbors and the edges of each.
pub type RowReplacements<'a> = BTreeMap<u32, (&'a [u32], &'a [u32])>;

/// A replacement names a row below `node_count`, pairs each neighbor with an edge, and every
/// neighbor is a row.
pub open spec fn replacement_valid(row: u32, columns: (&[u32], &[u32]), node_count: usize) -> bool {
    &&& row < node_count
    &&& columns.0@.len() == columns.1@.len()
    &&& forall|i: int| 0 <= i < columns.0@.len() ==> #[trigger] columns.0@[i] < node_count
}

pub open spec fn paired(columns: (&[u32], &[u32])) -> Seq<(u32, u32)> {
    Seq::new(columns.0@.len(), |i: int| (columns.0@[i], columns.1@[i]))
}

/// What a row holds once the replacements are made.
pub open spec fn replaced_row(
    before: Csr,
    replacements: Map<u32, (&[u32], &[u32])>,
    row: int,
) -> Seq<(u32, u32)> {
    if row <= u32::MAX && replacements.contains_key(row as u32) {
        paired(replacements[row as u32])
    } else if row < before.node_total() {
        before.spec_row(row)->Some_0
    } else {
        Seq::empty()
    }
}

/// Entries of the first `count` rows once the replacements are made.
pub open spec fn replaced_total(
    before: Csr,
    replacements: Map<u32, (&[u32], &[u32])>,
    count: int,
) -> int
    decreases count,
{
    if count <= 0 {
        0
    } else {
        replaced_total(before, replacements, count - 1) + replaced_row(
            before,
            replacements,
            count - 1,
        ).len()
    }
}

proof fn lemma_replaced_total(
    before: Csr,
    replacements: Map<u32, (&[u32], &[u32])>,
    low: int,
    high: int,
)
    requires
        0 <= low <= high,
    ensures
        0 <= replaced_total(before, replacements, low) <= replaced_total(
            before,
            replacements,
            high,
        ),
    decreases high,
{
    if low < high {
        lemma_replaced_total(before, replacements, low, high - 1);
    } else if low > 0 {
        lemma_replaced_total(before, replacements, low - 1, low - 1);
    }
}

fn check_replacement(row: u32, columns: &(&[u32], &[u32]), node_count: usize) -> (valid: bool)
    ensures
        valid == replacement_valid(row, *columns, node_count),
{
    if row as usize >= node_count || columns.0.len() != columns.1.len() {
        return false;
    }
    for index in 0..columns.0.len()
        invariant
            forall|i: int| 0 <= i < index ==> #[trigger] columns.0@[i] < node_count,
    {
        if columns.0[index] as usize >= node_count {
            return false;
        }
    }
    true
}

/// The payload columns hold `content` from `start` on.
spec fn placed(
    content: Seq<(u32, u32)>,
    neighbors: Seq<u32>,
    edges: Seq<u32>,
    start: int,
) -> bool {
    &&& start + content.len() <= neighbors.len()
    &&& start + content.len() <= edges.len()
    &&& forall|k: int|
        #![trigger content[k]]
        0 <= k < content.len() ==> neighbors[start + k] == content[k].0 && edges[start + k]
            == content[k].1
}

proof fn lemma_placed_kept(
    content: Seq<(u32, u32)>,
    before_neighbors: Seq<u32>,
    before_edges: Seq<u32>,
    neighbors: Seq<u32>,
    edges: Seq<u32>,
    start: int,
)
    requires
        0 <= start,
        placed(content, before_neighbors, before_edges, start),
        before_neighbors.len() == before_edges.len(),
        before_neighbors.len() <= neighbors.len(),
        before_edges.len() <= edges.len(),
        forall|i: int|
            0 <= i < before_neighbors.len() ==> #[trigger] neighbors[i] == before_neighbors[i],
        forall|i: int| 0 <= i < before_edges.len() ==> #[trigger] edges[i] == before_edges[i],
    ensures
        placed(content, neighbors, edges, start),
{
    assert forall|k: int|
        #![trigger content[k]]
        0 <= k < content.len() implies neighbors[start + k] == content[k].0 && edges[start + k]
        == content[k].1 by {
        assert(neighbors[start + k] == before_neighbors[start + k]);
        assert(edges[start + k] == before_edges[start + k]);
    }
}

proof fn lemma_placed_new(
    content: Seq<(u32, u32)>,
    row_neighbors: Seq<u32>,
    row_edges: Seq<u32>,
    neighbors: Seq<u32>,
    edges: Seq<u32>,
    start: int,
)
    requires
        row_neighbors.len() == content.len(),
        row_edges.len() == content.len(),
        start + content.len() <= neighbors.len(),
        start + content.len() <= edges.len(),
        forall|k: int|
            #![trigger content[k]]
            0 <= k < content.len() ==> row_neighbors[k] == content[k].0 && row_edges[k]
                == content[k].1,
        forall|k: int| 0 <= k < content.len() ==> neighbors[start + k] == #[trigger] row_neighbors[k],
        forall|k: int| 0 <= k < content.len() ==> edges[start + k] == #[trigger] row_edges[k],
    ensures
        placed(content, neighbors, edges, start),
{
}

/// Every replacement is valid.
pub open spec fn replacements_valid(
    replacements: Map<u32, (&[u32], &[u32])>,
    node_count: usize,
) -> bool {
    forall|row: u32| #[trigger]
        replacements.contains_key(row) ==> replacement_valid(row, replacements[row], node_count)
}

fn check_replacements(replacements: &RowReplacements<'_>, node_count: usize) -> (valid: bool)
    ensures
        valid == replacements_valid(replacements@, node_count),
{
    broadcast use vstd::std_specs::btree::group_btree_axioms;
    broadcast use vstd::laws_cmp::group_laws_cmp;

    for entry in iter: replacements.iter()
        invariant
            forall|i: int|
                0 <= i < iter.index() ==> replacement_valid(
                    *(#[trigger] iter.seq()[i]).0,
                    *iter.seq()[i].1,
                    node_count,
                ),
    {
        if !check_replacement(*entry.0, entry.1, node_count) {
            assert(replacements@.contains_key(*entry.0));
            return false;
        }
    }
    true
}

fn replacement_of<'a, 'b>(replacements: &'b RowReplacements<'a>, row: u32) -> (columns: Option<
    &'b (&'a [u32], &'a [u32]),
>)
    ensures
        match columns {
            Some(columns) => replacements@.contains_key(row) && replacements@[row] == *columns,
            None => !replacements@.contains_key(row),
        },
{
    broadcast use vstd::std_specs::btree::group_btree_axioms;
    broadcast use vstd::laws_cmp::group_laws_cmp;

    replacements.get(&row)
}

impl Csr {
    /// Replaces complete named rows in one ordered pass without materializing or sorting edges.
    pub fn replace_rows(
        &self,
        node_count: usize,
        replacements: &RowReplacements<'_>,
    ) -> (csr: Result<Self>)
        requires
            node_count < usize::MAX,
            self.node_total() <= node_count && self.columns_agree() && replacements_valid(
                replacements@,
                node_count,
            ) ==> offsets_ascend(self.spec_offsets()),
        ensures
            if self.node_total() > node_count {
                fails_with(
                    csr,
                    ErrorCode::InvalidData,
                    "adjacency row count cannot move backwards"@,
                )
            } else if !self.columns_agree() {
                fails_with(
                    csr,
                    ErrorCode::CorruptStorage,
                    "existing adjacency columns are structurally inconsistent"@,
                )
            } else if !replacements_valid(replacements@, node_count) {
                fails_with(
                    csr,
                    ErrorCode::CorruptStorage,
                    "replacement adjacency row is structurally invalid"@,
                )
            } else if replaced_total(
                *self,
                replacements@,
                crate::arith::spec_min(node_count as int, 0x1_0000_0000),
            ) > u32::MAX {
                fails_with(
                    csr,
                    ErrorCode::ResultBudgetExceeded,
                    "adjacency entries exceed u32"@,
                )
            } else if node_count > 0x1_0000_0000 {
                fails_with(csr, ErrorCode::ResultBudgetExceeded, "node row exceeds u32"@)
            } else if self.spec_offsets()[0] != 0 {
                fails_with(
                    csr,
                    ErrorCode::CorruptStorage,
                    "replacement adjacency cardinality disagrees with offsets"@,
                )
            } else {
                &&& csr is Ok
                &&& csr->Ok_0.wf()
                &&& csr->Ok_0.node_total() == node_count
                &&& forall|row: int|
                    0 <= row < node_count ==> #[trigger] csr->Ok_0.spec_row(row) == Some(
                        replaced_row(*self, replacements@, row),
                    )
            },
    {
        let current_offsets = self.offsets.as_slice();
        let current_neighbors = self.neighbors.as_slice();
        let current_edges = self.edges.as_slice();
        let current_rows: usize = if current_offsets.len() == 0 {
            0
        } else {
            current_offsets.len() - 1
        };
        if current_rows > node_count {
            return Err(Error::invalid_data("adjacency row count cannot move backwards"));
        }
        if current_offsets.len() == 0 || current_neighbors.len() != current_edges.len()
            || current_offsets[current_offsets.len() - 1] as usize != current_neighbors.len() {
            return Err(
                Error::new(
                    ErrorCode::CorruptStorage,
                    "existing adjacency columns are structurally inconsistent",
                ),
            );
        }
        if !check_replacements(replacements, node_count) {
            return Err(
                Error::new(
                    ErrorCode::CorruptStorage,
                    "replacement adjacency row is structurally invalid",
                ),
            );
        }
        let mut offsets: Vec<u32> = Vec::with_capacity(node_count + 1);
        let mut neighbors: Vec<u32> = Vec::new();
        let mut edges: Vec<u32> = Vec::new();
        offsets.push(0);
        for row in 0..node_count
            invariant
                node_count < usize::MAX,
                self.columns_agree(),
                offsets_ascend(self.spec_offsets()),
                current_offsets@ == self.spec_offsets(),
                current_neighbors@ == self.spec_neighbors(),
                current_edges@ == self.spec_edges(),
                current_rows == self.node_total(),
                current_rows <= node_count,
                replacements_valid(replacements@, node_count),
                row <= 0x1_0000_0000,
                offsets.len() == row + 1,
                edges.len() == neighbors.len(),
                neighbors.len() == replaced_total(*self, replacements@, row as int),
                neighbors.len() <= u32::MAX,
                forall|i: int|
                    0 <= i <= row ==> #[trigger] offsets@[i] == replaced_total(
                        *self,
                        replacements@,
                        i,
                    ),
                forall|i: int|
                    0 <= i < row ==> #[trigger] placed(
                        replaced_row(*self, replacements@, i),
                        neighbors@,
                        edges@,
                        offsets@[i] as int,
                    ),
        {
            proof {
                if row == 0x1_0000_0000 {
                    assert(crate::arith::spec_min(node_count as int, 0x1_0000_0000)
                        == 0x1_0000_0000);
                }
            }
            if row > 0xffff_ffff {
                return Err(Error::new(ErrorCode::ResultBudgetExceeded, "node row exceeds u32"));
            }
            let ghost content = replaced_row(*self, replacements@, row as int);
            let ghost before_neighbors = neighbors@;
            let ghost before_edges = edges@;
            proof {
                if row < current_rows {
                    let start = self.spec_offsets()[row as int];
                    let end = self.spec_offsets()[row + 1];
                    assert(end <= self.spec_offsets()[self.spec_offsets().len() - 1]);
                }
                lemma_replaced_total(
                    *self,
                    replacements@,
                    row + 1,
                    crate::arith::spec_min(node_count as int, 0x1_0000_0000),
                );
            }
            let (row_neighbors, row_edges) = match replacement_of(replacements, row as u32) {
                Some(columns) => (columns.0, columns.1),
                None => if row < current_rows {
                    let start: usize = current_offsets[row] as usize;
                    let end: usize = current_offsets[row + 1] as usize;
                    (&current_neighbors[start..end], &current_edges[start..end])
                } else {
                    (&current_neighbors[0..0], &current_edges[0..0])
                },
            };
            assert(row_neighbors@.len() == content.len() && row_edges@.len() == content.len());
            assert(forall|k: int|
                #![trigger content[k]]
                0 <= k < content.len() ==> row_neighbors@[k] == content[k].0 && row_edges@[k]
                    == content[k].1);
            if row_neighbors.len() > 0xffff_ffff - neighbors.len() {
                return Err(
                    Error::new(ErrorCode::ResultBudgetExceeded, "adjacency entries exceed u32"),
                );
            }
            neighbors.extend_from_slice(row_neighbors);
            edges.extend_from_slice(row_edges);
            offsets.push(neighbors.len() as u32);
            proof {
                assert forall|i: int| 0 <= i < row + 1 implies #[trigger] placed(
                    replaced_row(*self, replacements@, i),
                    neighbors@,
                    edges@,
                    offsets@[i] as int,
                ) by {
                    let start = offsets@[i] as int;
                    let row_content = replaced_row(*self, replacements@, i);
                    if i < row {
                        assert(placed(row_content, before_neighbors, before_edges, start));
                        lemma_placed_kept(
                            row_content,
                            before_neighbors,
                            before_edges,
                            neighbors@,
                            edges@,
                            start,
                        );
                    } else {
                        lemma_placed_new(
                            row_content,
                            row_neighbors@,
                            row_edges@,
                            neighbors@,
                            edges@,
                            start,
                        );
                    }
                }
            }
        }
        if current_offsets[0] != 0 {
            return Err(
                Error::new(
                    ErrorCode::CorruptStorage,
                    "replacement adjacency cardinality disagrees with offsets",
                ),
            );
        }
        let csr = Csr {
            offsets: FlatColumn::from_vec(offsets),
            neighbors: FlatColumn::from_vec(neighbors),
            edges: FlatColumn::from_vec(edges),
        };
        proof {
            let ends = csr.spec_offsets();
            assert(ends[0] == 0);
            assert forall|i: int, j: int| 0 <= i <= j < ends.len() implies #[trigger] ends[i]
                <= #[trigger] ends[j] by {
                lemma_replaced_total(*self, replacements@, i, j);
            }
            assert forall|row: int| 0 <= row < node_count implies #[trigger] csr.spec_row(row)
                == Some(replaced_row(*self, replacements@, row)) by {
                assert(ends[row] <= ends[row + 1] <= ends[node_count as int]);
                let content = replaced_row(*self, replacements@, row);
                assert(placed(content, csr.spec_neighbors(), csr.spec_edges(), ends[row] as int));
                assert(csr.spec_row(row)->Some_0 =~= content);
            }
        }
        Ok(csr)
    }
}

/// Nodes that hold a value.
pub open spec fn settled<T>(values: Seq<Option<T>>) -> int
    decreases values.len(),
{
    if values.len() == 0 {
        0
    } else {
        settled(values.drop_last()) + if values.last() is Some {
            1int
        } else {
            0
        }
    }
}

pub proof fn lemma_settled_bounds<T>(values: Seq<Option<T>>)
    ensures
        0 <= settled(values) <= values.len(),
        settled(values) == values.len() ==> forall|i: int|
            0 <= i < values.len() ==> (#[trigger] values[i]) is Some,
        (forall|i: int| 0 <= i < values.len() ==> (#[trigger] values[i]) is None) ==> settled(values)
            == 0,
    decreases values.len(),
{
    if values.len() > 0 {
        let rest = values.drop_last();
        lemma_settled_bounds(rest);
        assert forall|i: int| 0 <= i < values.len() && settled(values) == values.len() implies (
        #[trigger] values[i]) is Some by {
            if i < rest.len() {
                assert(rest[i] == values[i]);
            }
        }
        if forall|i: int| 0 <= i < values.len() ==> (#[trigger] values[i]) is None {
            assert forall|i: int| 0 <= i < rest.len() implies (#[trigger] rest[i]) is None by {
                assert(values[i] is None);
            }
        }
    }
}

pub proof fn lemma_settled_step<T>(values: Seq<Option<T>>, index: int, value: T)
    requires
        0 <= index < values.len(),
        values[index] is None,
    ensures
        settled(values.update(index, Some(value))) == settled(values) + 1,
    decreases values.len(),
{
    let after = values.update(index, Some(value));
    if index == values.len() - 1 {
        assert(after.drop_last() =~= values.drop_last());
    } else {
        lemma_settled_step(values.drop_last(), index, value);
        assert(after.drop_last() =~= values.drop_last().update(index, Some(value)));
    }
}

/// Where only what 32 bits can address is settled, no more than that is.
proof fn lemma_settled_addressable<T>(values: Seq<Option<T>>)
    requires
        forall|i: int| 0x1_0000_0000 <= i < values.len() ==> (#[trigger] values[i]) is None,
    ensures
        0 <= settled(values) <= 0x1_0000_0000,
        settled(values) == 0x1_0000_0000 ==> forall|i: int|
            0 <= i < values.len() && i < 0x1_0000_0000 ==> (#[trigger] values[i]) is Some,
    decreases values.len(),
{
    lemma_settled_bounds(values);
    if values.len() > 0x1_0000_0000 {
        let rest = values.drop_last();
        assert forall|i: int| 0x1_0000_0000 <= i < rest.len() implies (#[trigger] rest[i]) is None by {
            assert(values[i] is None);
        }
        lemma_settled_addressable(rest);
        assert(values[values.len() - 1] is None);
        assert forall|i: int|
            0 <= i < values.len() && i < 0x1_0000_0000 && settled(values)
                == 0x1_0000_0000 implies (#[trigger] values[i]) is Some by {
            assert(rest[i] == values[i]);
        }
    }
}

impl Csr {
    /// One edge leads from `from` to `to`.
    pub open spec fn leads(&self, from: int, to: int) -> bool {
        self.spec_row(from) is Some && exists|i: int|
            0 <= i < self.spec_row(from)->Some_0.len() && (#[trigger] self.spec_row(
                from,
            )->Some_0[i]).0 == to
    }

    /// A walk of `hops` edges leads from one of the seeds to `node`.
    pub open spec fn walk(&self, seeds: Seq<u32>, node: int, hops: nat) -> bool
        decreases hops,
    {
        if hops == 0 {
            0 <= node < self.node_total() && exists|i: int|
                0 <= i < seeds.len() && #[trigger] seeds[i] == node
        } else {
            exists|from: int|
                self.walk(seeds, from, (hops - 1) as nat) && #[trigger] self.leads(from, node)
        }
    }

    /// The shortest walk to `node` has `hops` edges.
    pub open spec fn nearest(&self, seeds: Seq<u32>, node: int, hops: nat) -> bool {
        &&& self.walk(seeds, node, hops)
        &&& forall|fewer: nat| fewer < hops ==> !#[trigger] self.walk(seeds, node, fewer)
    }

    /// No walk within the hop bound leads to `node`.
    pub open spec fn out_of_reach(&self, seeds: Seq<u32>, node: int, max_hops: Option<u32>) -> bool {
        forall|hops: nat|
            within(hops as int, max_hops) ==> !#[trigger] self.walk(seeds, node, hops)
    }

    /// No walk of at most `hop` edges leads to `node`.
    spec fn beyond(&self, seeds: Seq<u32>, node: int, hop: int) -> bool {
        forall|hops: nat| hops <= hop ==> !#[trigger] self.walk(seeds, node, hops)
    }

    /// Each node has the length of the shortest walk to it, where one within the hop bound exists.
    pub open spec fn shortest_hops(
        &self,
        seeds: Seq<u32>,
        max_hops: Option<u32>,
        distance: Seq<Option<u32>>,
    ) -> bool {
        &&& distance.len() == self.node_total()
        &&& forall|node: int|
            0 <= node < distance.len() ==> match #[trigger] distance[node] {
                Some(hops) => self.nearest(seeds, node, hops as nat) && within(hops as int, max_hops),
                None => self.out_of_reach(seeds, node, max_hops),
            }
    }

    /// What holds when every node within `hop` edges of the seeds is settled.
    spec fn level(
        &self,
        seeds: Seq<u32>,
        distance: Seq<Option<u32>>,
        hop: int,
    ) -> bool {
        &&& distance.len() == self.node_total()
        &&& forall|node: int|
            0 <= node < distance.len() ==> match #[trigger] distance[node] {
                Some(hops) => hops <= hop && self.nearest(seeds, node, hops as nat),
                None => self.beyond(seeds, node, hop),
            }
    }

    /// Every neighbor of a node settled before `hop` is settled.
    spec fn expanded(&self, distance: Seq<Option<u32>>, hop: int) -> bool {
        forall|node: int, next: int|
            0 <= node < distance.len() && (distance[node] matches Some(hops) && hops < hop)
                && #[trigger] self.leads(node, next) ==> distance[next] is Some
    }

    proof fn lemma_leads_inside(&self, from: int, to: int)
        requires
            self.targets_are_rows(),
            self.leads(from, to),
        ensures
            0 <= from < self.node_total(),
            0 <= to < self.node_total(),
    {
        let row = self.spec_row(from)->Some_0;
        let i = choose|i: int| 0 <= i < row.len() && (#[trigger] row[i]).0 == to;
        assert(self.spec_neighbors()[self.spec_offsets()[from] + i] == to);
    }

    proof fn lemma_walk_inside(&self, seeds: Seq<u32>, node: int, hops: nat)
        requires
            self.targets_are_rows(),
            self.walk(seeds, node, hops),
        ensures
            0 <= node < self.node_total(),
    {
        if hops > 0 {
            let from = choose|from: int|
                self.walk(seeds, from, (hops - 1) as nat) && #[trigger] self.leads(from, node);
            self.lemma_leads_inside(from, node);
        }
    }

    /// Walks lead to nodes that 32 bits can address.
    proof fn lemma_walk_addressable(&self, seeds: Seq<u32>, node: int, hops: nat)
        requires
            self.walk(seeds, node, hops),
        ensures
            node <= u32::MAX,
    {
        if hops > 0 {
            let from = choose|from: int|
                self.walk(seeds, from, (hops - 1) as nat) && #[trigger] self.leads(from, node);
        }
    }

    /// Where as much is settled as 32 bits can address, everything is settled that can be reached.
    proof fn lemma_all_addressed(
        &self,
        seeds: Seq<u32>,
        max_hops: Option<u32>,
        distance: Seq<Option<u32>>,
        hop: int,
    )
        requires
            self.level(seeds, distance, hop),
            within(hop, max_hops),
            settled(distance) > u32::MAX,
        ensures
            self.shortest_hops(seeds, max_hops, distance),
    {
        assert forall|v: int| 0x1_0000_0000 <= v < distance.len() implies (
        #[trigger] distance[v]) is None by {
            if distance[v] is Some {
                self.lemma_walk_addressable(seeds, v, distance[v]->Some_0 as nat);
            }
        }
        lemma_settled_addressable(distance);
        assert forall|node: int| 0 <= node < distance.len() implies match #[trigger] distance[node] {
            Some(hops) => self.nearest(seeds, node, hops as nat) && within(hops as int, max_hops),
            None => self.out_of_reach(seeds, node, max_hops),
        } by {
            if distance[node] is None {
                assert forall|hops: nat| within(hops as int, max_hops) implies !#[trigger] self.walk(
                    seeds,
                    node,
                    hops,
                ) by {
                    if self.walk(seeds, node, hops) {
                        self.lemma_walk_addressable(seeds, node, hops);
                    }
                }
            }
        }
    }

    /// Once nothing new is settled, nothing unsettled can be reached.
    proof fn lemma_saturated(
        &self,
        seeds: Seq<u32>,
        distance: Seq<Option<u32>>,
        hop: int,
        node: int,
        hops: nat,
    )
        requires
            self.targets_are_rows(),
            hop >= 0,
            self.level(seeds, distance, hop),
            self.expanded(distance, hop),
            forall|v: int| 0 <= v < distance.len() ==> #[trigger] distance[v] != Some(hop as u32),
            self.walk(seeds, node, hops),
        ensures
            distance[node] is Some,
        decreases hops,
    {
        self.lemma_walk_inside(seeds, node, hops);
        if hops > 0 {
            let from = choose|from: int|
                self.walk(seeds, from, (hops - 1) as nat) && #[trigger] self.leads(from, node);
            self.lemma_saturated(seeds, distance, hop, from, (hops - 1) as nat);
            self.lemma_leads_inside(from, node);
            assert(distance[from] is Some);
        } else {
            if distance[node] is None {
                assert(!self.walk(seeds, node, 0));
            }
        }
    }

    /// A level that was expanded settles the next one.
    proof fn lemma_next_level(
        &self,
        seeds: Seq<u32>,
        before: Seq<Option<u32>>,
        after: Seq<Option<u32>>,
        hop: int,
    )
        requires
            0 <= hop < u32::MAX,
            self.targets_are_rows(),
            self.level(seeds, before, hop),
            after.len() == before.len(),
            forall|v: int|
                0 <= v < after.len() ==> (#[trigger] after[v] == before[v] || before[v] is None
                    && after[v] == Some((hop + 1) as u32) && self.walk(seeds, v, (hop + 1) as nat)),
            self.expanded(before, hop),
            forall|v: int, next: int|
                0 <= v < before.len() && before[v] == Some(hop as u32) && #[trigger] self.leads(
                    v,
                    next,
                ) ==> after[next] is Some,
        ensures
            self.level(seeds, after, hop + 1),
            self.expanded(after, hop + 1),
    {
        assert forall|node: int| 0 <= node < after.len() implies match #[trigger] after[node] {
            Some(hops) => hops <= hop + 1 && self.nearest(seeds, node, hops as nat),
            None => self.beyond(seeds, node, hop + 1),
        } by {
            let old_value = before[node];
            if after[node] is None {
                assert(before[node] is None);
                assert forall|hops: nat| hops <= hop + 1 implies !#[trigger] self.walk(
                    seeds,
                    node,
                    hops,
                ) by {
                    if self.walk(seeds, node, hops) && hops == hop + 1 {
                        let from = choose|from: int|
                            self.walk(seeds, from, hop as nat) && #[trigger] self.leads(from, node);
                        self.lemma_leads_inside(from, node);
                        match before[from] {
                            Some(d) => {
                                if d == hop {
                                    assert(after[node] is Some);
                                } else {
                                    assert(before[node] is Some);
                                }
                            },
                            None => {
                                assert(!self.walk(seeds, from, hop as nat));
                            },
                        }
                    }
                }
            }
        }
        assert forall|node: int, next: int|
            0 <= node < after.len() && (after[node] matches Some(hops) && hops < hop + 1)
                && #[trigger] self.leads(node, next) implies after[next] is Some by {
            self.lemma_leads_inside(node, next);
            assert(after[node] == before[node]);
            let old_value = after[next];
        }
    }
}

/// A hop count within an optional bound.
pub open spec fn within(hops: int, max_hops: Option<u32>) -> bool {
    max_hops matches Some(max) ==> hops <= max
}

impl Csr {
    /// Some seed is a row, and at least one hop may be made.
    pub open spec fn has_frontier(&self, seeds: Seq<u32>, max_hops: Option<u32>) -> bool {
        &&& max_hops != Some(0u32)
        &&& exists|i: int| 0 <= i < seeds.len() && (#[trigger] seeds[i]) < self.node_total()
    }

    /// Multi-source frontier reachability via iterated boolean sparse matrix-vector products: the
    /// next frontier is the union of the neighborhoods of the current one, less the nodes already
    /// settled. Starting from `seeds` at hop zero, every node gets the smallest hop count at which
    /// it is reached, or `None` if no walk within `max_hops` reaches it. `max_hops = None` runs to
    /// the transitive-closure fixpoint. `check` is polled once per hop and every 4096 edges for
    /// bounded-latency cancellation; its failure is the only failure.
    pub fn multi_source_frontier_distances<F: FnMut() -> Result<()>>(
        &self,
        seeds: &[u32],
        max_hops: Option<u32>,
        check: F,
    ) -> (distances: Result<Vec<Option<u32>>>)
        requires
            self.targets_are_rows(),
            call_requires(check, ()),
        ensures
            match distances {
                Ok(distance) => {
                    &&& self.shortest_hops(seeds@, max_hops, distance@)
                    &&& self.has_frontier(seeds@, max_hops) ==> goes_on(check)
                },
                Err(error) => self.has_frontier(seeds@, max_hops) && call_ensures(
                    check,
                    (),
                    Err::<(), Error>(error),
                ),
            },
    {
        let mut poll = check;
        let node_count: usize = if self.offsets().len() == 0 {
            0
        } else {
            self.offsets().len() - 1
        };
        let neighbors = self.neighbors();
        let mut distance: Vec<Option<u32>> = vec![None; node_count];
        let mut frontier: Vec<u32> = Vec::new();
        proof {
            lemma_settled_bounds(distance@);
        }
        for position in 0..seeds.len()
            invariant
                node_count == self.node_total(),
                distance.len() == node_count,
                forall|v: int|
                    0 <= v < node_count ==> #[trigger] distance@[v] == if exists|i: int|
                        0 <= i < position && #[trigger] seeds@[i] == v {
                        Some(0u32)
                    } else {
                        None
                    },
                forall|i: int|
                    0 <= i < frontier.len() ==> (#[trigger] frontier@[i]) < node_count
                        && distance@[frontier@[i] as int] == Some(0u32),
                forall|i: int|
                    0 <= i < position && (#[trigger] seeds@[i]) < node_count ==> frontier.len() > 0,
                frontier.len() > 0 ==> exists|i: int|
                    0 <= i < position && (#[trigger] seeds@[i]) < node_count,
                forall|v: int|
                    0 <= v < node_count && #[trigger] distance@[v] == Some(0u32)
                        ==> exists|i: int| 0 <= i < frontier.len() && #[trigger] frontier@[i] == v,
                settled(distance@) >= frontier.len(),
        {
            let seed: u32 = seeds[position];
            let index: usize = seed as usize;
            if index < node_count && distance[index].is_none() {
                let ghost before = distance@;
                let ghost before_frontier = frontier@;
                proof {
                    lemma_settled_step(distance@, index as int, 0u32);
                }
                distance.set(index, Some(0));
                frontier.push(seed);
                proof {
                    assert forall|v: int| 0 <= v < node_count && #[trigger] distance@[v] == Some(
                        0u32,
                    ) implies exists|i: int|
                        0 <= i < frontier.len() && #[trigger] frontier@[i] == v by {
                        if v == index {
                            assert(frontier@[before_frontier.len() as int] == v);
                        } else {
                            assert(before[v] == Some(0u32));
                            let i = choose|i: int|
                                0 <= i < before_frontier.len() && #[trigger] before_frontier[i] == v;
                            assert(frontier@[i] == v);
                        }
                    }
                    assert forall|i: int| 0 <= i < frontier.len() implies (#[trigger] frontier@[i])
                        < node_count && distance@[frontier@[i] as int] == Some(0u32) by {
                        if i < before_frontier.len() {
                            assert(frontier@[i] == before_frontier[i]);
                        }
                    }
                }
            }
            assert(seeds@[position as int] == seed);
        }
        proof {
            assert forall|node: int| 0 <= node < distance@.len() implies match #[trigger] distance@[node] {
                Some(hops) => hops <= 0 && self.nearest(seeds@, node, hops as nat),
                None => self.beyond(seeds@, node, 0),
            } by {}
        }
        let mut hop: u32 = 0;
        let mut since_check: usize = 0;
        while frontier.len() > 0
            invariant
                self.targets_are_rows(),
                node_count == self.node_total(),
                neighbors@ == self.spec_neighbors(),
                poll == check,
                call_requires(poll, ()),
                self.level(seeds@, distance@, hop as int),
                self.expanded(distance@, hop as int),
                within(hop as int, max_hops),
                forall|i: int|
                    0 <= i < frontier.len() ==> (#[trigger] frontier@[i]) < node_count
                        && distance@[frontier@[i] as int] == Some(hop),
                forall|v: int|
                    0 <= v < node_count && #[trigger] distance@[v] == Some(hop) ==> exists|i: int|
                        0 <= i < frontier.len() && #[trigger] frontier@[i] == v,
                frontier.len() > 0 ==> settled(distance@) > hop,
                hop == 0 && self.has_frontier(seeds@, max_hops) ==> frontier.len() > 0,
                frontier.len() > 0 && max_hops != Some(0u32) ==> self.has_frontier(
                    seeds@,
                    max_hops,
                ),
                hop > 0 ==> goes_on(check),
            decreases 0x1_0000_0000 - hop, frontier.len(),
        {
            match max_hops {
                Some(max) => {
                    if hop >= max {
                        proof {
                            self.lemma_bounded(seeds@, max_hops, distance@, hop as int);
                        }
                        return Ok(distance);
                    }
                },
                None => {},
            }
            match ask(&mut poll) {
                Ok(_) => {},
                Err(error) => {
                    return Err(error);
                },
            }
            proof {
                lemma_settled_bounds(distance@);
            }
            let next_hop: u32 = if hop == u32::MAX {
                hop
            } else {
                hop + 1
            };
            let ghost before = distance@;
            let mut next: Vec<u32> = Vec::new();
            for position in 0..frontier.len()
                invariant
                    self.targets_are_rows(),
                    node_count == self.node_total(),
                        neighbors@ == self.spec_neighbors(),
                    poll == check,
                    call_requires(poll, ()),
                    self.has_frontier(seeds@, max_hops),
                    self.level(seeds@, before, hop as int),
                    before.len() == node_count,
                    settled(before) > hop,
                    next_hop == if hop == u32::MAX {
                        hop
                    } else {
                        (hop + 1) as u32
                    },
                    forall|i: int|
                        0 <= i < frontier.len() ==> (#[trigger] frontier@[i]) < node_count
                            && before[frontier@[i] as int] == Some(hop),
                    self.frontier_step(seeds@, before, distance@, hop as int, next@),
                    forall|i: int, to: int|
                        0 <= i < position && #[trigger] self.leads(frontier@[i] as int, to)
                            ==> distance@[to] is Some,
            {
                let node: u32 = frontier[position];
                let ghost start_distance = distance@;
                if let Some((start, end)) = self.row_bounds(node) {
                    for place in start..end
                        invariant
                            self.targets_are_rows(),
                            node_count == self.node_total(),
                                        neighbors@ == self.spec_neighbors(),
                            poll == check,
                            call_requires(poll, ()),
                            self.has_frontier(seeds@, max_hops),
                            self.level(seeds@, before, hop as int),
                            before.len() == node_count,
                            settled(before) > hop,
                            next_hop == if hop == u32::MAX {
                                hop
                            } else {
                                (hop + 1) as u32
                            },
                            node < node_count,
                            before[node as int] == Some(hop),
                            self.spec_row(node as int) is Some,
                            start == self.spec_offsets()[node as int],
                            end == self.spec_offsets()[node + 1],
                            start <= end <= neighbors.len(),
                            self.spec_row(node as int)->Some_0.len() == end - start,
                            self.frontier_step(seeds@, before, distance@, hop as int, next@),
                            forall|v: int|
                                0 <= v < node_count && start_distance[v] is Some
                                    ==> (#[trigger] distance@[v]) is Some,
                            forall|k: int|
                                start <= k < place
                                    ==> distance@[#[trigger] neighbors@[k] as int] is Some,
                    {
                        since_check = since_check.saturating_add(1);
                        if since_check >= 4096 {
                            since_check = 0;
                            match ask(&mut poll) {
                                Ok(_) => {},
                                Err(error) => {
                                    return Err(error);
                                },
                            }
                        }
                        let neighbor: u32 = neighbors[place];
                        let index: usize = neighbor as usize;
                        if distance[index].is_none() {
                            proof {
                                assert(self.spec_row(node as int)->Some_0[place - start].0
                                    == neighbor);
                                assert(self.leads(node as int, neighbor as int));
                                assert(before[node as int] == Some(hop));
                                assert(self.walk(seeds@, node as int, hop as nat));
                                assert(self.walk(seeds@, neighbor as int, (hop + 1) as nat));
                                lemma_settled_bounds(before);
                                self.lemma_frontier_step(
                                    seeds@,
                                    before,
                                    distance@,
                                    hop as int,
                                    next@,
                                    neighbor,
                                );
                            }
                            distance.set(index, Some(next_hop));
                            next.push(neighbor);
                        }
                    }
                    proof {
                        assert forall|to: int| #[trigger] self.leads(
                            node as int,
                            to,
                        ) implies distance@[to] is Some by {
                            let row = self.spec_row(node as int)->Some_0;
                            let i = choose|i: int|
                                0 <= i < row.len() && (#[trigger] row[i]).0 == to;
                            assert(neighbors@[start + i] == to);
                        }
                    }
                }
                proof {
                    assert forall|i: int, to: int|
                        0 <= i < position + 1 && #[trigger] self.leads(
                            frontier@[i] as int,
                            to,
                        ) implies distance@[to] is Some by {
                        self.lemma_leads_inside(frontier@[i] as int, to);
                        if i < position {
                            assert(start_distance[to] is Some);
                        }
                    }
                }
            }
            proof {
                lemma_settled_bounds(before);
                lemma_settled_bounds(distance@);
                if hop < u32::MAX {
                    assert forall|v: int, to: int|
                        0 <= v < before.len() && before[v] == Some(hop) && #[trigger] self.leads(
                            v,
                            to,
                        ) implies distance@[to] is Some by {
                        let i = choose|i: int| 0 <= i < frontier.len() && #[trigger] frontier@[i] == v;
                        assert(self.leads(frontier@[i] as int, to));
                    }
                    self.lemma_next_level(seeds@, before, distance@, hop as int);
                    assert forall|v: int| 0 <= v < node_count && #[trigger] distance@[v] == Some(
                        next_hop,
                    ) implies exists|i: int| 0 <= i < next.len() && #[trigger] next@[i] == v by {
                        assert(before[v] is None);
                    }
                }
            }
            if hop == u32::MAX {
                // Every addressable row is settled.
                proof {
                    assert(distance@ =~= before);
                    self.lemma_all_addressed(seeds@, max_hops, distance@, hop as int);
                }
                return Ok(distance);
            }
            frontier = next;
            hop = next_hop;
        }
        proof {
            assert forall|node: int| 0 <= node < distance@.len() implies match #[trigger] distance@[node] {
                Some(hops) => self.nearest(seeds@, node, hops as nat) && within(
                    hops as int,
                    max_hops,
                ),
                None => self.out_of_reach(seeds@, node, max_hops),
            } by {
                if distance@[node] is None {
                    assert forall|hops: nat| within(hops as int,
                        max_hops) implies !#[trigger] self.walk(
                        seeds@,
                        node,
                        hops,
                    ) by {
                        if self.walk(seeds@, node, hops) {
                            self.lemma_saturated(seeds@, distance@, hop as int, node, hops);
                        }
                    }
                }
            }
        }
        Ok(distance)
    }

    /// What one frontier has settled so far: nodes of the next hop, each once, in `next`.
    spec fn frontier_step(
        &self,
        seeds: Seq<u32>,
        before: Seq<Option<u32>>,
        distance: Seq<Option<u32>>,
        hop: int,
        next: Seq<u32>,
    ) -> bool {
        &&& distance.len() == before.len()
        &&& settled(distance) == settled(before) + next.len()
        &&& forall|v: int|
            0 <= v < distance.len() ==> (#[trigger] distance[v] == before[v] || before[v] is None
                && hop < u32::MAX && distance[v] == Some((hop + 1) as u32) && self.walk(
                seeds,
                v,
                (hop + 1) as nat,
            ))
        &&& forall|i: int|
            0 <= i < next.len() ==> (#[trigger] next[i]) < distance.len() && distance[next[i] as int]
                == Some((hop + 1) as u32) && before[next[i] as int] is None && hop < u32::MAX
        &&& forall|v: int|
            0 <= v < distance.len() && before[v] is None && (#[trigger] distance[v]) is Some
                ==> exists|i: int| 0 <= i < next.len() && #[trigger] next[i] == v
    }

    proof fn lemma_frontier_step(
        &self,
        seeds: Seq<u32>,
        before: Seq<Option<u32>>,
        distance: Seq<Option<u32>>,
        hop: int,
        next: Seq<u32>,
        neighbor: u32,
    )
        requires
            0 <= hop <= u32::MAX,
            self.level(seeds, before, hop),
            settled(before) > hop,
            self.frontier_step(seeds, before, distance, hop, next),
            neighbor < distance.len(),
            distance[neighbor as int] is None,
            self.walk(seeds, neighbor as int, (hop + 1) as nat),
        ensures
            hop < u32::MAX,
            self.frontier_step(
                seeds,
                before,
                distance.update(neighbor as int, Some((hop + 1) as u32)),
                hop,
                next.push(neighbor),
            ),
    {
        let after = distance.update(neighbor as int, Some((hop + 1) as u32));
        let grown = next.push(neighbor);
        lemma_settled_step(distance, neighbor as int, (hop + 1) as u32);
        assert forall|v: int| 0x1_0000_0000 <= v < after.len() implies (#[trigger] after[v]) is None by {
            if after[v] is Some {
                assert(distance[v] is Some);
                if before[v] is Some {
                    self.lemma_walk_addressable(seeds, v, before[v]->Some_0 as nat);
                } else {
                    self.lemma_walk_addressable(seeds, v, (hop + 1) as nat);
                }
            }
        }
        lemma_settled_addressable(after);
        assert(before[neighbor as int] is None);
        assert forall|i: int| 0 <= i < grown.len() implies (#[trigger] grown[i]) < after.len()
            && after[grown[i] as int] == Some((hop + 1) as u32) && before[grown[i] as int] is None by {
            if i < next.len() {
                assert(grown[i] == next[i]);
            }
        }
        assert forall|v: int|
            0 <= v < after.len() && before[v] is None && (#[trigger] after[v]) is Some implies exists|
            i: int,
        | 0 <= i < grown.len() && #[trigger] grown[i] == v by {
            if v == neighbor {
                assert(grown[next.len() as int] == v);
            } else {
                assert(distance[v] is Some);
                let i = choose|i: int| 0 <= i < next.len() && #[trigger] next[i] == v;
                assert(grown[i] == v);
            }
        }
    }

    proof fn lemma_bounded(
        &self,
        seeds: Seq<u32>,
        max_hops: Option<u32>,
        distance: Seq<Option<u32>>,
        hop: int,
    )
        requires
            self.level(seeds, distance, hop),
            within(hop, max_hops),
            max_hops matches Some(max) && hop >= max,
        ensures
            self.shortest_hops(seeds, max_hops, distance),
    {
        assert forall|node: int| 0 <= node < distance.len() implies match #[trigger] distance[node] {
            Some(hops) => self.nearest(seeds, node, hops as nat) && within(hops as int, max_hops),
            None => self.out_of_reach(seeds, node, max_hops),
        } by {}
    }

    /// Exactly the nodes whose least number of hops is in a window, ascending.
    pub open spec fn reached_within(
        &self,
        seeds: Seq<u32>,
        min_hops: u32,
        max_hops: Option<u32>,
        nodes: Seq<u32>,
    ) -> bool {
        &&& forall|i: int, j: int|
            0 <= i < j < nodes.len() ==> #[trigger] nodes[i] < #[trigger] nodes[j]
        &&& forall|node: u32| #[trigger]
            nodes.contains(node) <==> exists|hops: nat|
                min_hops <= hops && within(hops as int, max_hops) && #[trigger] self.nearest(
                    seeds,
                    node as int,
                    hops,
                )
    }

    /// Distinct nodes reachable from `seeds` in a number of hops within `[min_hops, max_hops]`, by
    /// their shortest hop distance, in ascending order.
    pub fn multi_source_reachable<F: FnMut() -> Result<()>>(
        &self,
        seeds: &[u32],
        min_hops: u32,
        max_hops: Option<u32>,
        check: F,
    ) -> (reachable: Result<Vec<u32>>)
        requires
            self.targets_are_rows(),
            call_requires(check, ()),
        ensures
            match reachable {
                Ok(nodes) => self.reached_within(seeds@, min_hops, max_hops, nodes@),
                Err(error) => self.has_frontier(seeds@, max_hops) && call_ensures(
                    check,
                    (),
                    Err::<(), Error>(error),
                ),
            },
            reachable is Ok && self.has_frontier(seeds@, max_hops) ==> goes_on(check),
    {
        let distance = match self.multi_source_frontier_distances(seeds, max_hops, check) {
            Ok(distance) => distance,
            Err(error) => {
                return Err(error);
            },
        };
        let mut nodes: Vec<u32> = Vec::new();
        proof {
            assert forall|v: int| 0 <= v < distance.len() && (
            #[trigger] distance@[v]) is Some implies v <= u32::MAX by {
                self.lemma_walk_addressable(seeds@, v, distance@[v]->Some_0 as nat);
            }
        }
        for index in 0..distance.len()
            invariant
                forall|v: int|
                    0 <= v < distance.len() && (#[trigger] distance@[v]) is Some ==> v <= u32::MAX,
                forall|i: int, j: int|
                    0 <= i < j < nodes@.len() ==> #[trigger] nodes@[i] < #[trigger] nodes@[j],
                forall|i: int|
                    0 <= i < nodes.len() ==> (#[trigger] nodes@[i]) < index && (
                    distance@[nodes@[i] as int] matches Some(hops) && hops >= min_hops),
                forall|v: int|
                    0 <= v < index && (#[trigger] distance@[v] matches Some(hops) && hops
                        >= min_hops) ==> nodes@.contains(v as u32),
        {
            let ghost before = nodes@;
            if let Some(hops) = distance[index] {
                if hops >= min_hops {
                    nodes.push(index as u32);
                    assert(nodes@[before.len() as int] == index as u32);
                }
            }
            proof {
                assert forall|v: int|
                    0 <= v < index + 1 && (#[trigger] distance@[v] matches Some(hops) && hops
                        >= min_hops) implies nodes@.contains(v as u32) by {
                    if v < index {
                        assert(before.contains(v as u32));
                        let i = choose|i: int| 0 <= i < before.len() && before[i] == v as u32;
                        assert(nodes@[i] == v as u32);
                    }
                }
            }
        }
        proof {
            assert forall|node: u32| #[trigger] nodes@.contains(node) <==> exists|hops: nat|
                min_hops <= hops && within(hops as int, max_hops)
                    && #[trigger] self.nearest(seeds@, node as int, hops) by {
                if nodes@.contains(node) {
                    let i = choose|i: int| 0 <= i < nodes@.len() && nodes@[i] == node;
                    let hops = distance@[node as int]->Some_0;
                    assert(self.nearest(seeds@, node as int, hops as nat));
                }
                if exists|hops: nat|
                    min_hops <= hops && within(hops as int, max_hops)
                        && #[trigger] self.nearest(seeds@, node as int, hops) {
                    let hops = choose|hops: nat|
                        min_hops <= hops && within(hops as int, max_hops)
                            && #[trigger] self.nearest(seeds@, node as int, hops);
                    self.lemma_walk_inside(seeds@, node as int, hops);
                    match distance@[node as int] {
                        Some(found) => {
                            if found < hops {
                                assert(!self.walk(seeds@, node as int, found as nat));
                            }
                            if hops < found {
                                assert(!self.walk(seeds@, node as int, hops));
                            }
                        },
                        None => {},
                    }
                }
            }
        }
        Ok(nodes)
    }
}

/// A node leads to another exactly where its row holds an edge to it.
pub proof fn law_edges_lead(csr: Csr, from: int, to: u32)
    ensures
        csr.leads(from, to as int) <==> exists|edge: u32| #[trigger] csr.holds(from, to, edge),
{
    if csr.leads(from, to as int) {
        let row = csr.spec_row(from)->Some_0;
        let i = choose|i: int| 0 <= i < row.len() && (#[trigger] row[i]).0 == to;
        assert(row[i] == (to, row[i].1));
        assert(csr.holds(from, to, row[i].1));
    }
    if exists|edge: u32| #[trigger] csr.holds(from, to, edge) {
        let edge = choose|edge: u32| #[trigger] csr.holds(from, to, edge);
        let row = csr.spec_row(from)->Some_0;
        let i = choose|i: int| 0 <= i < row.len() && #[trigger] row[i] == (to, edge);
        assert(row[i].0 == to);
    }
}

/// The nodes of a path that starts at a seed are found within as many hops as the path has edges, as long
/// as the path is no longer than the greatest number of hops, which counts itself. No node is said to be
/// farther than that, and the seeds alone are no hop away.
pub proof fn law_distances_follow_paths(
    csr: Csr,
    seeds: Seq<u32>,
    max_hops: Option<u32>,
    distance: Seq<Option<u32>>,
    path: Seq<int>,
)
    requires
        csr.shortest_hops(seeds, max_hops, distance),
        path.len() > 0,
        exists|i: int| 0 <= i < seeds.len() && #[trigger] seeds[i] == path[0],
        forall|i: int| 0 <= i < path.len() ==> 0 <= #[trigger] path[i] < csr.node_total(),
        forall|i: int|
            0 <= i < path.len() - 1 ==> csr.leads(#[trigger] path[i], path[i + 1]),
        max_hops matches Some(max) ==> path.len() - 1 <= max,
    ensures
        distance[path.last()] matches Some(hops) && hops <= path.len() - 1,
        forall|node: int|
            0 <= node < distance.len() ==> (#[trigger] distance[node] matches Some(hops) ==> (
            max_hops matches Some(max) ==> hops <= max) && (hops == 0 <==> exists|i: int|
                0 <= i < seeds.len() && #[trigger] seeds[i] == node)),
{
    lemma_path_walk(csr, seeds, path, path.len() - 1);
    let last = path[path.len() - 1];
    assert(csr.walk(seeds, last, (path.len() - 1) as nat));
    assert(within((path.len() - 1) as nat as int, max_hops));
    assert(distance[last] is Some) by {
        if distance[last] is None {
            assert(csr.out_of_reach(seeds, last, max_hops));
        }
    }
    let hops = distance[last]->Some_0;
    assert(csr.nearest(seeds, last, hops as nat));
    assert forall|node: int|
        0 <= node < distance.len() implies (#[trigger] distance[node] matches Some(hops) ==> (
    max_hops matches Some(max) ==> hops <= max) && (hops == 0 <==> exists|i: int|
        0 <= i < seeds.len() && #[trigger] seeds[i] == node)) by {
        if let Some(hops) = distance[node] {
            assert(csr.nearest(seeds, node, hops as nat));
            if exists|i: int| 0 <= i < seeds.len() && #[trigger] seeds[i] == node {
                assert(csr.walk(seeds, node, 0));
                if hops > 0 {
                    assert(!csr.walk(seeds, node, 0));
                }
            }
            if hops == 0 {
                assert(csr.walk(seeds, node, 0));
            }
        }
    }
}

proof fn lemma_path_walk(csr: Csr, seeds: Seq<u32>, path: Seq<int>, place: int)
    requires
        0 <= place < path.len(),
        exists|i: int| 0 <= i < seeds.len() && #[trigger] seeds[i] == path[0],
        forall|i: int| 0 <= i < path.len() ==> 0 <= #[trigger] path[i] < csr.node_total(),
        forall|i: int|
            0 <= i < path.len() - 1 ==> csr.leads(#[trigger] path[i], path[i + 1]),
    ensures
        csr.walk(seeds, path[place], place as nat),
    decreases place,
{
    if place > 0 {
        lemma_path_walk(csr, seeds, path, place - 1);
        assert(csr.leads(path[place - 1], path[place - 1 + 1]));
    }
}

/// The nodes that are reached within a window of hops are those whose distance is in it, both ends of the
/// window counted.
pub proof fn law_reachable_nodes_have_their_distance(
    csr: Csr,
    seeds: Seq<u32>,
    min_hops: u32,
    max_hops: Option<u32>,
    distance: Seq<Option<u32>>,
    nodes: Seq<u32>,
    node: u32,
)
    requires
        csr.shortest_hops(seeds, max_hops, distance),
        csr.reached_within(seeds, min_hops, max_hops, nodes),
        node < csr.node_total(),
    ensures
        nodes.contains(node) <==> (distance[node as int] matches Some(hops) && min_hops <= hops),
        distance[node as int] == Some(min_hops) ==> nodes.contains(node),
        distance[node as int] is Some && distance[node as int] == max_hops && min_hops
            <= max_hops->Some_0 ==> nodes.contains(node),
{
    if let Some(hops) = distance[node as int] {
        assert(csr.nearest(seeds, node as int, hops as nat));
        if nodes.contains(node) {
            let found = choose|found: nat|
                min_hops <= found && within(found as int, max_hops) && #[trigger] csr.nearest(
                    seeds,
                    node as int,
                    found,
                );
            if found < hops {
                assert(!csr.walk(seeds, node as int, found));
            }
            if (hops as nat) < found {
                assert(!csr.walk(seeds, node as int, hops as nat));
            }
        }
    } else {
        assert(csr.out_of_reach(seeds, node as int, max_hops));
        if nodes.contains(node) {
            let found = choose|found: nat|
                min_hops <= found && within(found as int, max_hops) && #[trigger] csr.nearest(
                    seeds,
                    node as int,
                    found,
                );
            assert(csr.walk(seeds, node as int, found));
        }
    }
}

/// Rows that are named get the given neighbors and edges, in their order; every other row stays, and a
/// row that was not there is empty.
pub proof fn law_only_named_rows_are_replaced(
    before: Csr,
    replacements: Map<u32, (&[u32], &[u32])>,
    row: u32,
)
    requires
        replacements.contains_key(row) ==> replacements[row].0@.len() == replacements[row].1@.len(),
    ensures
        replacements.contains_key(row) ==> replaced_row(before, replacements, row as int).len()
            == replacements[row].0@.len() && forall|i: int|
            0 <= i < replacements[row].0@.len() ==> #[trigger] replaced_row(
                before,
                replacements,
                row as int,
            )[i] == (replacements[row].0@[i], replacements[row].1@[i]),
        !replacements.contains_key(row) && row < before.node_total() && before.spec_row(
            row as int,
        ) is Some ==> Some(replaced_row(before, replacements, row as int)) == before.spec_row(
            row as int,
        ),
        !replacements.contains_key(row) && row >= before.node_total() ==> replaced_row(
            before,
            replacements,
            row as int,
        ).len() == 0,
{
}

} // verus!
