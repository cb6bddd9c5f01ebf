//! Vector search over exact and approximate candidates. Distances and scores come from the caller as
//! the bits of IEEE 754 singles; what is probed, kept and returned is decided here.

use crate::arith::{max_usize, min_usize, saturated, saturated64, spec_max, spec_min};
use crate::decimal::{decimal, push_decimal};
use crate::error::{fails_with, Error, ErrorCode, Result};
use crate::index::ann::{
    matched_neighbors, recall_gate, recall_points, validation_row, IvfPqIndex,
    MAX_VALIDATION_QUERIES, VALIDATION_TOP_K,
};
use crate::index::encode::{active_rows_of, as_rows, law_active_rows_have_their_flag};
use crate::index::vectors::{Similarity, VectorIndex};
use crate::order::{lemma_permutation, lemma_sorted_unique, sort_keys, sorted};
use vstd::prelude::*;

verus! {

/// Where the bits of a single rank in the total order of IEEE 754 numbers: negative numbers by
/// falling magnitude, then the others by rising magnitude.
pub open spec fn float_rank(bits: u32) -> int {
    if bits < 0x8000_0000 {
        bits + 0x8000_0000
    } else {
        0xffff_ffff - bits
    }
}

/// What was found: an identity, and the bits of its distance or score.
pub type Hit = (u64, u32);

/// Hits compare like these keys: by distance from the nearest on, or by score from the highest on, and
/// then by identity.
pub open spec fn hit_key(hit: Hit, nearest_first: bool) -> u128 {
    let rank = if nearest_first {
        float_rank(hit.1)
    } else {
        0xffff_ffff - float_rank(hit.1)
    };
    (rank * 0x1_0000_0000_0000_0000 + hit.0) as u128
}

pub open spec fn hit_keys(hits: Seq<Hit>, nearest_first: bool) -> Seq<u128> {
    Seq::new(hits.len(), |i: int| hit_key(hits[i], nearest_first))
}

/// The same hits, in order.
pub open spec fn is_order(hits: Seq<Hit>, ordered: Seq<Hit>, nearest_first: bool) -> bool {
    &&& sorted(hit_keys(ordered, nearest_first))
    &&& hit_keys(ordered, nearest_first).to_multiset() == hit_keys(
        hits,
        nearest_first,
    ).to_multiset()
}

spec fn hit_of(key: u128, nearest_first: bool) -> Hit {
    let rank = key / 0x1_0000_0000_0000_0000;
    let turned = if nearest_first {
        rank as int
    } else {
        0xffff_ffff - rank
    };
    (
        (key % 0x1_0000_0000_0000_0000) as u64,
        (if turned >= 0x8000_0000 {
            turned - 0x8000_0000
        } else {
            0xffff_ffff - turned
        }) as u32,
    )
}

proof fn lemma_hit_key(hit: Hit, nearest_first: bool)
    ensures
        hit_of(hit_key(hit, nearest_first), nearest_first) == hit,
        hit_key(hit, nearest_first) < 0x1_0000_0000_0000_0000_0000_0000,
        0 <= float_rank(hit.1) <= 0xffff_ffff,
{
}

/// There is one order of hits.
pub proof fn law_order_is_unique(
    hits: Seq<Hit>,
    left: Seq<Hit>,
    right: Seq<Hit>,
    nearest_first: bool,
)
    requires
        is_order(hits, left, nearest_first),
        is_order(hits, right, nearest_first),
    ensures
        left == right,
        left.len() == hits.len(),
{
    lemma_sorted_unique(hit_keys(left, nearest_first), hit_keys(right, nearest_first));
    lemma_permutation(hit_keys(left, nearest_first), hit_keys(hits, nearest_first));
    assert(left.len() == hit_keys(left, nearest_first).len());
    assert(right.len() == hit_keys(right, nearest_first).len());
    assert forall|i: int| 0 <= i < left.len() implies left[i] == right[i] by {
        assert(hit_keys(left, nearest_first)[i] == hit_keys(right, nearest_first)[i]);
        lemma_hit_key(left[i], nearest_first);
        lemma_hit_key(right[i], nearest_first);
    }
    assert(left =~= right);
}

fn rank_bits(bits: u32) -> (rank: u32)
    ensures
        rank == float_rank(bits),
{
    if bits < 0x8000_0000 {
        bits + 0x8000_0000
    } else {
        0xffff_ffff - bits
    }
}

fn encode_hit(hit: Hit, nearest_first: bool) -> (key: u128)
    ensures
        key == hit_key(hit, nearest_first),
{
    let rank: u32 = rank_bits(hit.1);
    let turned: u32 = if nearest_first {
        rank
    } else {
        0xffff_ffff - rank
    };
    turned as u128 * 0x1_0000_0000_0000_0000 + hit.0 as u128
}

fn decode_hit(key: u128, nearest_first: bool) -> (hit: Hit)
    requires
        key < 0x1_0000_0000_0000_0000_0000_0000,
    ensures
        hit == hit_of(key, nearest_first),
{
    let rank: u32 = (key / 0x1_0000_0000_0000_0000) as u32;
    let turned: u32 = if nearest_first {
        rank
    } else {
        0xffff_ffff - rank
    };
    let bits: u32 = if turned >= 0x8000_0000 {
        turned - 0x8000_0000
    } else {
        0xffff_ffff - turned
    };
    ((key % 0x1_0000_0000_0000_0000) as u64, bits)
}

/// Brings hits in order.
pub fn order_hits(hits: &Vec<Hit>, nearest_first: bool) -> (ordered: Vec<Hit>)
    ensures
        is_order(hits@, ordered@, nearest_first),
        ordered@.len() == hits@.len(),
{
    let mut keys: Vec<u128> = Vec::with_capacity(hits.len());
    for index in 0..hits.len()
        invariant
            keys@.len() == index,
            forall|i: int| 0 <= i < index ==> #[trigger] keys@[i] == hit_key(hits@[i], nearest_first),
    {
        keys.push(encode_hit(hits[index], nearest_first));
    }
    let ghost unsorted = keys@;
    assert(unsorted =~= hit_keys(hits@, nearest_first));
    sort_keys(&mut keys);
    proof {
        lemma_permutation(keys@, unsorted);
        assert forall|i: int| 0 <= i < keys@.len() implies (#[trigger] keys@[i])
            < 0x1_0000_0000_0000_0000_0000_0000 && hit_key(
            hit_of(keys@[i], nearest_first),
            nearest_first,
        ) == keys@[i] by {
            assert(keys@.contains(keys@[i]));
            assert(unsorted.contains(keys@[i]));
            let k = choose|k: int| 0 <= k < unsorted.len() && unsorted[k] == keys@[i];
            lemma_hit_key(hits@[k], nearest_first);
        }
    }
    let mut ordered: Vec<Hit> = Vec::with_capacity(keys.len());
    for index in 0..keys.len()
        invariant
            ordered@.len() == index,
            forall|i: int|
                0 <= i < keys@.len() ==> (#[trigger] keys@[i]) < 0x1_0000_0000_0000_0000_0000_0000
                    && hit_key(hit_of(keys@[i], nearest_first), nearest_first) == keys@[i],
            forall|i: int|
                0 <= i < index ==> #[trigger] ordered@[i] == hit_of(keys@[i], nearest_first),
    {
        assert(keys@[index as int] < 0x1_0000_0000_0000_0000_0000_0000);
        ordered.push(decode_hit(keys[index], nearest_first));
    }
    assert(hit_keys(ordered@, nearest_first) =~= keys@);
    ordered
}

/// Distances come nearest first, scores of inner products highest first.
pub open spec fn nearest_first(similarity: Similarity) -> bool {
    similarity == Similarity::Euclidean
}

/// The best hits, in order.
pub open spec fn best_hits(
    hits: Seq<Hit>,
    similarity: Similarity,
    limit: int,
    best: Seq<Hit>,
    ordered: Seq<Hit>,
) -> bool {
    &&& is_order(hits, ordered, nearest_first(similarity))
    &&& best == ordered.take(spec_min(limit, ordered.len() as int))
}

/// Ranks hits, and keeps the best.
pub fn rank_hits(hits: &Vec<Hit>, similarity: Similarity, limit: usize) -> (best: Vec<Hit>)
    ensures
        exists|ordered: Seq<Hit>| #[trigger]
            best_hits(hits@, similarity, limit as int, best@, ordered),
{
    let first = match similarity {
        Similarity::Euclidean => true,
        _ => false,
    };
    let ordered = order_hits(hits, first);
    let best = take_hits(&ordered, limit);
    assert(best_hits(hits@, similarity, limit as int, best@, ordered@));
    best
}

/// The number with the first bits is below the one with the second, as IEEE 754 orders all singles:
/// a negative number is below one that is not, numbers that are not negative compare like their bits,
/// and negative ones the other way round.
pub open spec fn single_below(left: u32, right: u32) -> bool {
    if left >= 0x8000_0000 {
        right < 0x8000_0000 || left > right
    } else {
        right < 0x8000_0000 && left < right
    }
}

/// Scores of inner products and cosines come highest first, distances nearest first, equal ones by
/// rising identity. Every hit of the result is one of those that were ranked, none comes twice, and a hit
/// that was left out is no better than any that was kept.
pub proof fn law_best_hits_come_first(
    hits: Seq<Hit>,
    similarity: Similarity,
    limit: int,
    best: Seq<Hit>,
    ordered: Seq<Hit>,
)
    requires
        0 <= limit,
        best_hits(hits, similarity, limit, best, ordered),
    ensures
        best.len() == if limit < hits.len() {
            limit
        } else {
            hits.len() as int
        },
        forall|i: int| 0 <= i < best.len() ==> hits.contains(#[trigger] best[i]),
        hits.no_duplicates() ==> best.no_duplicates(),
        forall|i: int, j: int|
            #![trigger best[i], best[j]]
            0 <= i < j < best.len() ==> match similarity {
                Similarity::Cosine => !single_below(best[i].1, best[j].1),
                Similarity::Dot => !single_below(best[i].1, best[j].1),
                Similarity::Euclidean => !single_below(best[j].1, best[i].1),
            } && (best[i].1 == best[j].1 ==> best[i].0 <= best[j].0),
        forall|k: int, i: int|
            #![trigger hits[k], best[i]]
            0 <= k < hits.len() && 0 <= i < best.len() && !best.contains(hits[k])
                ==> match similarity {
                Similarity::Cosine => !single_below(best[i].1, hits[k].1),
                Similarity::Dot => !single_below(best[i].1, hits[k].1),
                Similarity::Euclidean => !single_below(hits[k].1, best[i].1),
            } && (best[i].1 == hits[k].1 ==> best[i].0 <= hits[k].0),
{
    let nearest = nearest_first(similarity);
    law_order_compares_numbers(hits, ordered, nearest);
    assert forall|k: int| 0 <= k < hits.len() implies #[trigger] ordered.contains(hits[k]) by {}
    assert forall|k: int, i: int|
        #![trigger hits[k], best[i]]
        0 <= k < hits.len() && 0 <= i < best.len() && !best.contains(hits[k]) implies match similarity {
        Similarity::Cosine => !single_below(best[i].1, hits[k].1),
        Similarity::Dot => !single_below(best[i].1, hits[k].1),
        Similarity::Euclidean => !single_below(hits[k].1, best[i].1),
    } && (best[i].1 == hits[k].1 ==> best[i].0 <= hits[k].0) by {
        assert(ordered.contains(hits[k]));
        let m = choose|m: int| 0 <= m < ordered.len() && ordered[m] == hits[k];
        if m < best.len() {
            assert(best[m] == hits[k]);
        }
        assert(best[i] == ordered[i]);
        assert(ordered[i].1 == ordered[i].1 && ordered[m].1 == ordered[m].1);
    }
    assert forall|i: int| 0 <= i < best.len() implies hits.contains(#[trigger] best[i]) by {
        assert(best[i] == ordered[i]);
    }
}

/// What is ordered nearest first rises, what is ordered the other way falls, and equal numbers come by
/// rising identity. The hits stay the same.
pub proof fn law_order_compares_numbers(hits: Seq<Hit>, ordered: Seq<Hit>, nearest_first: bool)
    requires
        is_order(hits, ordered, nearest_first),
    ensures
        ordered.len() == hits.len(),
        forall|k: int| 0 <= k < hits.len() ==> ordered.contains(#[trigger] hits[k]),
        forall|i: int| 0 <= i < ordered.len() ==> hits.contains(#[trigger] ordered[i]),
        hits.no_duplicates() ==> ordered.no_duplicates(),
        forall|i: int, j: int|
            #![trigger ordered[i], ordered[j]]
            0 <= i < j < ordered.len() ==> (if nearest_first {
                !single_below(ordered[j].1, ordered[i].1)
            } else {
                !single_below(ordered[i].1, ordered[j].1)
            }) && (ordered[i].1 == ordered[j].1 ==> ordered[i].0 <= ordered[j].0),
{
    let keys = hit_keys(ordered, nearest_first);
    let before = hit_keys(hits, nearest_first);
    lemma_permutation(keys, before);
    assert(keys.len() == ordered.len());
    assert forall|k: int| 0 <= k < hits.len() implies ordered.contains(#[trigger] hits[k]) by {
        assert(before[k] == hit_key(hits[k], nearest_first));
        assert(before.contains(before[k]));
        assert(keys.contains(before[k]));
        let m = choose|m: int| 0 <= m < keys.len() && keys[m] == before[k];
        lemma_hit_key(ordered[m], nearest_first);
        lemma_hit_key(hits[k], nearest_first);
        assert(ordered[m] == hits[k]);
    }
    assert forall|i: int| 0 <= i < ordered.len() implies hits.contains(#[trigger] ordered[i]) by {
        assert(keys[i] == hit_key(ordered[i], nearest_first));
        assert(keys.contains(keys[i]));
        let m = choose|m: int| 0 <= m < before.len() && before[m] == keys[i];
        lemma_hit_key(ordered[i], nearest_first);
        lemma_hit_key(hits[m], nearest_first);
        assert(hits[m] == ordered[i]);
    }
    if hits.no_duplicates() {
        assert(before.no_duplicates()) by {
            assert forall|i: int, j: int| 0 <= i < before.len() && 0 <= j < before.len() && i
                != j implies before[i] != before[j] by {
                lemma_hit_key(hits[i], nearest_first);
                lemma_hit_key(hits[j], nearest_first);
            }
        }
        before.lemma_multiset_has_no_duplicates();
        keys.lemma_multiset_has_no_duplicates_conv();
        assert forall|i: int, j: int| 0 <= i < ordered.len() && 0 <= j < ordered.len() && i
            != j implies ordered[i] != ordered[j] by {
            assert(keys[i] != keys[j]);
        }
    }
    assert forall|i: int, j: int|
        #![trigger ordered[i], ordered[j]]
        0 <= i < j < ordered.len() implies (if nearest_first {
        !single_below(ordered[j].1, ordered[i].1)
    } else {
        !single_below(ordered[i].1, ordered[j].1)
    }) && (ordered[i].1 == ordered[j].1 ==> ordered[i].0 <= ordered[j].0) by {
        assert(keys[i] <= keys[j]);
        lemma_hit_key(ordered[i], nearest_first);
        lemma_hit_key(ordered[j], nearest_first);
    }
}

/// A cosine ranking is the ranking of the same hits by inner product.
pub proof fn law_cosine_ranks_like_dot(
    hits: Seq<Hit>,
    limit: int,
    best: Seq<Hit>,
    ordered: Seq<Hit>,
)
    ensures
        best_hits(hits, Similarity::Cosine, limit, best, ordered) == best_hits(
            hits,
            Similarity::Dot,
            limit,
            best,
            ordered,
        ),
{
}

fn take_hits(hits: &Vec<Hit>, limit: usize) -> (first: Vec<Hit>)
    ensures
        first@ == hits@.take(spec_min(limit as int, hits@.len() as int)),
{
    let count: usize = min_usize(limit, hits.len());
    let mut first: Vec<Hit> = Vec::with_capacity(count);
    for index in 0..count
        invariant
            count <= hits@.len(),
            first@ == hits@.take(index as int),
    {
        first.push(hits[index]);
        assert(first@ =~= hits@.take(index + 1));
    }
    first
}

/// The first place from another on that holds no smaller row.
pub open spec fn walk_to(rows: Seq<u32>, from: int, row: int) -> int
    decreases rows.len() - from,
{
    if 0 <= from < rows.len() && rows[from] < row {
        walk_to(rows, from + 1, row)
    } else {
        from
    }
}

/// Where a walk over the built rows stands at a row.
pub open spec fn built_place(rows: Seq<u32>, row: int) -> int
    decreases row,
{
    if row <= 0 {
        walk_to(rows, 0, row)
    } else {
        walk_to(rows, built_place(rows, row - 1), row)
    }
}

/// The revision that pages were built from, for a row that they hold.
pub open spec fn built_revision(pages: IvfPqIndex, row: int) -> Option<u64> {
    let place = built_place(pages.rows@, row);
    if 0 <= place < pages.rows@.len() && pages.rows@[place] == row && place
        < pages.built_versions@.len() {
        Some(pages.built_versions@[place])
    } else {
        None
    }
}

/// The row was written after the pages were built.
pub open spec fn is_stale(pages: IvfPqIndex, source: VectorIndex, row: int) -> bool {
    built_revision(pages, row) != Some(source.versions@[row])
}

/// One of the nearest positions holds the row.
pub open spec fn is_near(pages: IvfPqIndex, ordered: Seq<Hit>, count: int, row: int) -> bool {
    exists|i: int|
        0 <= i < count && i < ordered.len() && (#[trigger] ordered[i]).0 < pages.rows@.len()
            && pages.rows@[ordered[i].0 as int] == row
}

/// The rows that are scored exactly: those that count and are near or stale.
pub open spec fn is_candidate(
    pages: IvfPqIndex,
    source: VectorIndex,
    ordered: Seq<Hit>,
    limit: int,
    row: int,
) -> bool {
    &&& 0 <= row < source.row_total()
    &&& source.active@[row]
    &&& is_near(
        pages,
        ordered,
        spec_max(pages.config.candidate_budget as int, limit),
        row,
    ) || is_stale(pages, source, row)
}

/// Exactly the candidates, ascending.
pub open spec fn lists_candidates(
    pages: IvfPqIndex,
    source: VectorIndex,
    ordered: Seq<Hit>,
    limit: int,
    rows: Seq<usize>,
) -> bool {
    &&& forall|i: int, j: int| 0 <= i < j < rows.len() ==> (#[trigger] rows[i]) < (#[trigger] rows[j])
    &&& forall|row: usize| #[trigger]
        rows.contains(row) <==> is_candidate(pages, source, ordered, limit, row as int)
}

proof fn lemma_walk(rows: Seq<u32>, from: int, row: int)
    requires
        0 <= from <= rows.len(),
    ensures
        from <= walk_to(rows, from, row) <= rows.len(),
    decreases rows.len() - from,
{
    if from < rows.len() && rows[from] < row {
        lemma_walk(rows, from + 1, row);
    }
}

proof fn lemma_built_place(rows: Seq<u32>, row: int)
    ensures
        0 <= built_place(rows, row) <= rows.len(),
    decreases row,
{
    if row > 0 {
        lemma_built_place(rows, row - 1);
        lemma_walk(rows, built_place(rows, row - 1), row);
    } else {
        lemma_walk(rows, 0, row);
    }
}

/// In ascending rows a walk finds every row that is there.
pub proof fn law_walk_finds_built_rows(rows: Seq<u32>, place: int)
    requires
        forall|i: int, j: int| 0 <= i < j < rows.len() ==> (#[trigger] rows[i]) < (#[trigger] rows[j]),
        0 <= place < rows.len(),
    ensures
        built_place(rows, rows[place] as int) == place,
{
    let row = rows[place] as int;
    lemma_walk_bounds(rows, row);
    let found = built_place(rows, row);
    if found < place {
        assert(rows[found] < rows[place]);
    }
    if place < found {
        assert(rows[found - 1] < row);
        if place < found - 1 {
            assert(rows[place] < rows[found - 1]);
        }
    }
}

proof fn lemma_walk_stops(rows: Seq<u32>, from: int, row: int)
    requires
        0 <= from <= rows.len(),
        from > 0 ==> rows[from - 1] < row,
    ensures
        ({
            let place = walk_to(rows, from, row);
            &&& from <= place <= rows.len()
            &&& place < rows.len() ==> rows[place] >= row
            &&& place > 0 ==> rows[place - 1] < row
        }),
    decreases rows.len() - from,
{
    if from < rows.len() && rows[from] < row {
        lemma_walk_stops(rows, from + 1, row);
    }
}

proof fn lemma_walk_bounds(rows: Seq<u32>, row: int)
    requires
        0 <= row,
    ensures
        ({
            let place = built_place(rows, row);
            &&& 0 <= place <= rows.len()
            &&& place < rows.len() ==> rows[place] >= row
            &&& place > 0 ==> rows[place - 1] < row
        }),
    decreases row,
{
    if row > 0 {
        lemma_walk_bounds(rows, row - 1);
        lemma_walk_stops(rows, built_place(rows, row - 1), row);
    } else {
        lemma_walk_stops(rows, 0, row);
    }
}

impl IvfPqIndex {
    /// Marks the rows of the nearest positions.
    fn mark_near(&self, ordered: &Vec<Hit>, count: usize, total: usize) -> (marks: Vec<bool>)
        ensures
            marks@.len() == total,
            forall|row: int|
                0 <= row < total ==> #[trigger] marks@[row] == is_near(
                    *self,
                    ordered@,
                    count as int,
                    row,
                ),
    {
        let mut marks: Vec<bool> = vec![false; total];
        let kept: usize = min_usize(count, ordered.len());
        for index in 0..kept
            invariant
                kept == spec_min(count as int, ordered@.len() as int),
                marks@.len() == total,
                forall|row: int|
                    0 <= row < total ==> #[trigger] marks@[row] == is_near(
                        *self,
                        ordered@,
                        index as int,
                        row,
                    ),
        {
            let ghost before = marks@;
            let position: u64 = ordered[index].0;
            let mut hit: Option<usize> = None;
            if position < self.rows.len() as u64 {
                let row: usize = self.rows[position as usize] as usize;
                hit = Some(row);
                if row < total {
                    marks.set(row, true);
                }
            }
            proof {
                assert forall|row: int| 0 <= row < total implies #[trigger] marks@[row] == is_near(
                    *self,
                    ordered@,
                    index + 1,
                    row,
                ) by {
                    assert(before[row] == is_near(*self, ordered@, index as int, row));
                    if is_near(*self, ordered@, index as int, row) {
                        let i = choose|i: int|
                            0 <= i < index && i < ordered@.len() && (#[trigger] ordered@[i]).0
                                < self.rows@.len() && self.rows@[ordered@[i].0 as int] == row;
                        assert(0 <= i < index + 1 && ordered@[i].0 < self.rows@.len());
                    }
                    if is_near(*self, ordered@, index + 1, row) {
                        let i = choose|i: int|
                            0 <= i < index + 1 && i < ordered@.len() && (#[trigger] ordered@[i]).0
                                < self.rows@.len() && self.rows@[ordered@[i].0 as int] == row;
                        if i < index {
                            assert(is_near(*self, ordered@, index as int, row));
                        }
                    }
                    if hit == Some(row as usize) {
                        assert(ordered@[index as int].0 < self.rows@.len());
                    }
                }
            }
        }
        proof {
            assert forall|row: int| 0 <= row < total implies #[trigger] marks@[row] == is_near(
                *self,
                ordered@,
                count as int,
                row,
            ) by {
                assert(marks@[row] == is_near(*self, ordered@, kept as int, row));
                if is_near(*self, ordered@, count as int, row) {
                    let i = choose|i: int|
                        0 <= i < count && i < ordered@.len() && (#[trigger] ordered@[i]).0
                            < self.rows@.len() && self.rows@[ordered@[i].0 as int] == row;
                    assert(0 <= i < kept);
                }
                if is_near(*self, ordered@, kept as int, row) {
                    let i = choose|i: int|
                        0 <= i < kept && i < ordered@.len() && (#[trigger] ordered@[i]).0
                            < self.rows@.len() && self.rows@[ordered@[i].0 as int] == row;
                    assert(0 <= i < count);
                }
            }
        }
        marks
    }

    /// The rows that a search scores exactly: those of the nearest positions and those that were
    /// written since the pages were built, as far as they count.
    #[verifier::rlimit(40)]
    #[verifier::spinoff_prover]
    pub fn candidate_rows(&self, source: &VectorIndex, ordered: &Vec<Hit>, limit: usize) -> (rows: Vec<
        usize,
    >)
        requires
            source.wf(),
        ensures
            lists_candidates(*self, *source, ordered@, limit as int, rows@),
            forall|i: int| 0 <= i < rows@.len() ==> (#[trigger] rows@[i]) < source.row_total(),
    {
        let total: usize = source.entity_ids.len();
        let budget: usize = max_usize(self.config.candidate_budget, limit);
        let marks = self.mark_near(ordered, budget, total);
        let mut rows: Vec<usize> = Vec::new();
        let mut place: usize = 0;
        for row in 0..total
            invariant
                source.wf(),
                total == source.row_total(),
                budget == spec_max(self.config.candidate_budget as int, limit as int),
                marks@.len() == total,
                forall|other: int|
                    0 <= other < total ==> #[trigger] marks@[other] == is_near(
                        *self,
                        ordered@,
                        budget as int,
                        other,
                    ),
                place <= self.rows@.len(),
                row == 0 ==> place == 0,
                row > 0 ==> place == built_place(self.rows@, row - 1),
                forall|i: int, j: int|
                    0 <= i < j < rows@.len() ==> (#[trigger] rows@[i]) < (#[trigger] rows@[j]),
                forall|i: int| 0 <= i < rows@.len() ==> (#[trigger] rows@[i]) < row,
                forall|other: usize| #[trigger]
                    rows@.contains(other) <==> other < row && is_candidate(
                        *self,
                        *source,
                        ordered@,
                        limit as int,
                        other as int,
                    ),
        {
            while place < self.rows.len() && (self.rows[place] as usize) < row
                invariant
                    place <= self.rows@.len(),
                    walk_to(self.rows@, place as int, row as int) == built_place(
                        self.rows@,
                        row as int,
                    ),
                decreases self.rows@.len() - place,
            {
                place = place + 1;
            }
            let built: Option<u64> = if place < self.rows.len() && self.rows[place] as usize == row
                && place < self.built_versions.len() {
                Some(self.built_versions[place])
            } else {
                None
            };
            assert(built == built_revision(*self, row as int));
            let version: u64 = match source.versions.get(row) {
                Some(version) => *version,
                None => {
                    assert(false);
                    0
                },
            };
            let active: bool = match source.active.get(row) {
                Some(active) => *active,
                None => {
                    assert(false);
                    false
                },
            };
            let stale = match built {
                Some(revision) => revision != version,
                None => true,
            };
            let ghost before = rows@;
            let chosen = active && (marks[row] || stale);
            assert(chosen == is_candidate(
                *self,
                *source,
                ordered@,
                limit as int,
                row as int,
            ));
            if chosen {
                rows.push(row);
            }
            proof {
                assert forall|other: usize| #[trigger]
                    rows@.contains(other) <==> other < row + 1 && is_candidate(
                        *self,
                        *source,
                        ordered@,
                        limit as int,
                        other as int,
                    ) by {
                    if before.contains(other) {
                        let i = choose|i: int| 0 <= i < before.len() && before[i] == other;
                        assert(rows@[i] == other);
                    }
                    if rows@.contains(other) {
                        let i = choose|i: int| 0 <= i < rows@.len() && rows@[i] == other;
                        if i < before.len() {
                            assert(before[i] == other);
                        }
                    }
                    if other == row && chosen {
                        assert(rows@[before.len() as int] == row);
                    }
                }
            }
        }
        rows
    }

    /// The positions of the first lists, list after list.
    pub open spec fn listed(&self, lists: Seq<Hit>, count: int) -> Seq<(u64, u32)>
        decreases count,
    {
        if count <= 0 {
            Seq::empty()
        } else {
            let list = lists[count - 1].0;
            self.listed(lists, count - 1) + Seq::new(
                self.list(list as int).len(),
                |i: int| (list, self.list(list as int)[i]),
            )
        }
    }

    /// The positions of lists, each with its list.
    pub fn listed_positions(&self, lists: &Vec<Hit>) -> (positions: Vec<(u64, u32)>)
        requires
            self.lists_ok(),
            forall|i: int| 0 <= i < lists@.len() ==> (#[trigger] lists@[i]).0 < self.coarse@.len(),
        ensures
            positions@ == self.listed(lists@, lists@.len() as int),
    {
        let mut positions: Vec<(u64, u32)> = Vec::new();
        for index in 0..lists.len()
            invariant
                self.lists_ok(),
                forall|i: int|
                    0 <= i < lists@.len() ==> (#[trigger] lists@[i]).0 < self.coarse@.len(),
                positions@ == self.listed(lists@, index as int),
        {
            let list: u64 = lists[index].0;
            assert(lists@[index as int].0 < self.coarse@.len());
            let total: usize = self.coarse.len();
            let offsets: usize = self.list_offsets.len();
            assert(list < total);
            assert(self.list_ok(list as int));
            let ghost before = positions@;
            if (list as usize) < offsets && offsets - list as usize > 1 {
                let start: usize = self.list_offsets[list as usize] as usize;
                let end: usize = self.list_offsets[list as usize + 1] as usize;
                for place in start..end
                    invariant
                        list + 1 < self.list_offsets@.len(),
                        start <= place <= end <= self.list_positions@.len(),
                        start == self.list_offsets@[list as int],
                        end == self.list_offsets@[list + 1],
                        positions@ == before + Seq::new(
                            (place - start) as nat,
                            |i: int| (list, self.list(list as int)[i]),
                        ),
                {
                    let position: u32 = self.list_positions[place];
                    assert(self.list(list as int)[place - start] == position);
                    positions.push((list, position));
                    assert(positions@ =~= before + Seq::new(
                        (place + 1 - start) as nat,
                        |i: int| (list, self.list(list as int)[i]),
                    ));
                }
            }
            assert(positions@ =~= self.listed(lists@, index + 1));
        }
        positions
    }
}

/// The distance of every list.
pub open spec fn lists_measured<D: FnMut(usize) -> u32>(
    distance: D,
    lists: int,
    measured: Seq<Hit>,
) -> bool {
    measured.len() == lists && forall|i: int|
        0 <= i < lists ==> (#[trigger] measured[i]).0 == i && call_ensures(
            distance,
            (i as usize,),
            measured[i].1,
        )
}

/// The distance of every position in its list.
pub open spec fn positions_measured<P: FnMut(u64, u32) -> u32>(
    distance: P,
    positions: Seq<(u64, u32)>,
    measured: Seq<Hit>,
) -> bool {
    measured.len() == positions.len() && forall|i: int|
        0 <= i < measured.len() ==> (#[trigger] measured[i]).0 == positions[i].1 && call_ensures(
            distance,
            positions[i],
            measured[i].1,
        )
}

/// The score of every row, under its identity.
pub open spec fn rows_scored<S: FnMut(usize) -> u32>(
    score: S,
    source: VectorIndex,
    rows: Seq<usize>,
    hits: Seq<Hit>,
) -> bool {
    hits.len() == rows.len() && forall|i: int|
        0 <= i < hits.len() ==> (#[trigger] hits[i]).0 == source.entity_ids@[rows[i] as int]
            && call_ensures(score, (rows[i],), hits[i].1)
}

fn score_rows<S: FnMut(usize) -> u32>(source: &VectorIndex, rows: &Vec<usize>, score: S) -> (hits:
    Vec<Hit>)
    requires
        source.wf(),
        forall|i: int| 0 <= i < rows@.len() ==> (#[trigger] rows@[i]) < source.row_total(),
        forall|row: usize| #[trigger] call_requires(score, (row,)),
    ensures
        rows_scored(score, *source, rows@, hits@),
{
    let mut measure = score;
    let mut hits: Vec<Hit> = Vec::with_capacity(rows.len());
    for index in 0..rows.len()
        invariant
            source.wf(),
            measure == score,
            forall|row: usize| #[trigger] call_requires(score, (row,)),
            forall|i: int| 0 <= i < rows@.len() ==> (#[trigger] rows@[i]) < source.row_total(),
            hits@.len() == index,
            forall|i: int|
                0 <= i < index ==> (#[trigger] hits@[i]).0 == source.entity_ids@[rows@[i] as int]
                    && call_ensures(score, (rows@[i],), hits@[i].1),
    {
        let row: usize = rows[index];
        assert(rows@[index as int] < source.row_total());
        assert(call_requires(score, (row,)));
        let bits: u32 = measure(row);
        match source.entity_ids.get(row) {
            Some(entity) => {
                hits.push((*entity, bits));
            },
            None => {
                assert(false);
            },
        }
    }
    hits
}

impl VectorIndex {
    /// The best of all rows that count, by the scores that the caller gives them.
    pub fn exact_search<S: FnMut(usize) -> u32>(&self, limit: usize, score: S) -> (best: Vec<Hit>)
        requires
            self.wf(),
            forall|row: usize| #[trigger] call_requires(score, (row,)),
        ensures
            exists|rows: Seq<usize>, hits: Seq<Hit>, ordered: Seq<Hit>|
                #![trigger rows_scored(score, *self, rows, hits), best_hits(hits, self.similarity,
                    limit as int, best@, ordered)]
                {
                    &&& as_rows(rows) == active_rows_of(self.active@, self.active@.len() as int)
                    &&& rows_scored(score, *self, rows, hits)
                    &&& best_hits(hits, self.similarity, limit as int, best@, ordered)
                },
    {
        let rows = self.active_rows();
        let hits = score_rows(self, &rows, score);
        let best = rank_hits(&hits, self.similarity, limit);
        proof {
            let ordered = choose|ordered: Seq<Hit>| #[trigger]
                best_hits(hits@, self.similarity, limit as int, best@, ordered);
            assert(rows_scored(score, *self, rows@, hits@));
            assert(best_hits(hits@, self.similarity, limit as int, best@, ordered));
        }
        best
    }
}

/// What a search went through: distances of lists, the lists that were probed, distances of their
/// positions, the rows that were scored, and the scores.
pub struct SearchTrace {
    pub lists: Seq<Hit>,
    pub probed: Seq<Hit>,
    pub positions: Seq<Hit>,
    pub ordered: Seq<Hit>,
    pub rows: Seq<usize>,
    pub hits: Seq<Hit>,
    pub ranked: Seq<Hit>,
}

/// The trace is that of a search, and leads to these hits.
pub open spec fn searched<
    D: FnMut(usize) -> u32,
    P: FnMut(u64, u32) -> u32,
    S: FnMut(usize) -> u32,
>(
    pages: IvfPqIndex,
    source: VectorIndex,
    limit: int,
    near: D,
    far: P,
    score: S,
    trace: SearchTrace,
    best: Seq<Hit>,
) -> bool {
    let probes = spec_min(pages.config.probes as int, trace.probed.len() as int);
    let probed = trace.probed.take(probes);
    &&& lists_measured(near, pages.coarse@.len() as int, trace.lists)
    &&& is_order(trace.lists, trace.probed, true)
    &&& positions_measured(far, pages.listed(probed, probes), trace.positions)
    &&& is_order(trace.positions, trace.ordered, true)
    &&& lists_candidates(pages, source, trace.ordered, limit, trace.rows)
    &&& rows_scored(score, source, trace.rows, trace.hits)
    &&& best_hits(trace.hits, pages.similarity, limit, best, trace.ranked)
}

/// Some search leads to these hits.
pub open spec fn search_answers<
    D: FnMut(usize) -> u32,
    P: FnMut(u64, u32) -> u32,
    S: FnMut(usize) -> u32,
>(
    pages: IvfPqIndex,
    source: VectorIndex,
    limit: int,
    near: D,
    far: P,
    score: S,
    best: Seq<Hit>,
) -> bool {
    exists|trace: SearchTrace| #[trigger]
        searched(pages, source, limit, near, far, score, trace, best)
}

impl IvfPqIndex {
    fn measure_lists<D: FnMut(usize) -> u32>(&self, near: D) -> (measured: Vec<Hit>)
        requires
            forall|list: usize| #[trigger] call_requires(near, (list,)),
        ensures
            lists_measured(near, self.coarse@.len() as int, measured@),
    {
        let mut measure = near;
        let mut measured: Vec<Hit> = Vec::with_capacity(self.coarse.len());
        for list in 0..self.coarse.len()
            invariant
                measure == near,
                forall|list: usize| #[trigger] call_requires(near, (list,)),
                measured@.len() == list,
                forall|i: int|
                    0 <= i < list ==> (#[trigger] measured@[i]).0 == i && call_ensures(
                        near,
                        (i as usize,),
                        measured@[i].1,
                    ),
        {
            assert(call_requires(near, (list,)));
            let bits: u32 = measure(list);
            measured.push((list as u64, bits));
        }
        measured
    }

    fn measure_positions<P: FnMut(u64, u32) -> u32>(
        &self,
        positions: &Vec<(u64, u32)>,
        far: P,
    ) -> (measured: Vec<Hit>)
        requires
            forall|list: u64, position: u32| #[trigger] call_requires(far, (list, position)),
        ensures
            positions_measured(far, positions@, measured@),
    {
        let mut measure = far;
        let mut measured: Vec<Hit> = Vec::with_capacity(positions.len());
        for index in 0..positions.len()
            invariant
                measure == far,
                forall|list: u64, position: u32| #[trigger] call_requires(far, (list, position)),
                measured@.len() == index,
                forall|i: int|
                    0 <= i < index ==> (#[trigger] measured@[i]).0 == positions@[i].1
                        && call_ensures(far, positions@[i], measured@[i].1),
        {
            let list: u64 = positions[index].0;
            let position: u32 = positions[index].1;
            assert(call_requires(far, (list, position)));
            let bits: u32 = measure(list, position);
            assert(positions@[index as int] == (list, position));
            measured.push((position as u64, bits));
        }
        measured
    }

    /// Searches the lists whose centroids are nearest, scores the nearest positions and everything
    /// that was written since the build exactly, and returns the best hits. The caller gives the
    /// distance of a list, the distance of a position in a list, and the score of a row.
    #[verifier::rlimit(40)]
    #[verifier::spinoff_prover]
    pub fn search<D: FnMut(usize) -> u32, P: FnMut(u64, u32) -> u32, S: FnMut(usize) -> u32>(
        &self,
        source: &VectorIndex,
        limit: usize,
        near: D,
        far: P,
        score: S,
    ) -> (result: Result<Vec<Hit>>)
        requires
            source.wf(),
            self.lists_ok(),
            forall|list: usize| #[trigger] call_requires(near, (list,)),
            forall|list: u64, position: u32| #[trigger] call_requires(far, (list, position)),
            forall|row: usize| #[trigger] call_requires(score, (row,)),
        ensures
            if source.dimension != self.dimension || source.similarity != self.similarity {
                fails_with(
                    result,
                    ErrorCode::EmbeddingProfileMismatch,
                    "ANN profile does not match vector matrix"@,
                )
            } else {
                match result {
                    Ok(best) => search_answers(
                        *self,
                        *source,
                        limit as int,
                        near,
                        far,
                        score,
                        best@,
                    ),
                    Err(error) => false,
                }
            },
    {
        if source.dimension != self.dimension || !crate::index::vectors::same_similarity(
            source.similarity,
            self.similarity,
        ) {
            return Err(
                Error::new(
                    ErrorCode::EmbeddingProfileMismatch,
                    "ANN profile does not match vector matrix",
                ),
            );
        }
        let lists = self.measure_lists(near);
        let all_probed = order_hits(&lists, true);
        let probed = take_hits(&all_probed, self.config.probes);
        proof {
            lemma_ordered_lists(lists@, all_probed@, self.coarse@.len() as int);
        }
        let listed = self.listed_positions(&probed);
        let positions = self.measure_positions(&listed, far);
        let ordered = order_hits(&positions, true);
        let rows = self.candidate_rows(source, &ordered, limit);
        let hits = score_rows(source, &rows, score);
        let best = rank_hits(&hits, self.similarity, limit);
        proof {
            let ranked = choose|ranked: Seq<Hit>| #[trigger]
                best_hits(hits@, self.similarity, limit as int, best@, ranked);
            let trace = SearchTrace {
                lists: lists@,
                probed: all_probed@,
                positions: positions@,
                ordered: ordered@,
                rows: rows@,
                hits: hits@,
                ranked,
            };
            assert(searched(
                *self,
                *source,
                limit as int,
                near,
                far,
                score,
                trace,
                best@,
            ));
            assert(search_answers(*self, *source, limit as int, near, far, score, best@));
        }
        Ok(best)
    }
}

/// What is ordered was there before.
proof fn lemma_ordered_lists(lists: Seq<Hit>, ordered: Seq<Hit>, count: int)
    requires
        is_order(lists, ordered, true),
        lists.len() == count,
        forall|i: int| 0 <= i < count ==> (#[trigger] lists[i]).0 == i,
    ensures
        forall|i: int| 0 <= i < ordered.len() ==> (#[trigger] ordered[i]).0 < count,
{
    let keys = hit_keys(ordered, true);
    let before = hit_keys(lists, true);
    lemma_permutation(keys, before);
    assert forall|i: int| 0 <= i < ordered.len() implies (#[trigger] ordered[i]).0 < count by {
        assert(keys[i] == hit_key(ordered[i], true));
        assert(keys.contains(keys[i]));
        assert(before.contains(keys[i]));
        let k = choose|k: int| 0 <= k < before.len() && before[k] == keys[i];
        lemma_hit_key(ordered[i], true);
        lemma_hit_key(lists[k], true);
        assert(lists[k].0 == k);
    }
}

/// The hit has the identity of the row and a score that the caller gave the row.
pub open spec fn scored_under<S: FnMut(usize) -> u32>(
    score: S,
    index: VectorIndex,
    row: usize,
    hit: Hit,
) -> bool {
    hit.0 == index.entity_ids@[row as int] && call_ensures(score, (row,), hit.1)
}

/// The hit has the identity and a score of a row that counts.
pub open spec fn scored_and_counts<S: FnMut(usize) -> u32>(
    score: S,
    index: VectorIndex,
    hit: Hit,
) -> bool {
    exists|row: usize|
        row < index.active@.len() && index.active@[row as int] && #[trigger] scored_under(
            score,
            index,
            row,
            hit,
        )
}

/// An exact search scores every row that counts and no other, under the identity of the row. With what
/// is said of the best hits: no row that counts and was left out is better than one that was returned.
pub proof fn law_exact_search_scores_what_counts<S: FnMut(usize) -> u32>(
    score: S,
    index: VectorIndex,
    rows: Seq<usize>,
    hits: Seq<Hit>,
)
    requires
        as_rows(rows) == active_rows_of(index.active@, index.active@.len() as int),
        rows_scored(score, index, rows, hits),
        index.active@.len() <= usize::MAX,
    ensures
        forall|row: usize|
            row < index.active@.len() && #[trigger] index.active@[row as int] ==> exists|i: int|
                0 <= i < hits.len() && scored_under(score, index, row, #[trigger] hits[i]),
        forall|i: int|
            0 <= i < hits.len() ==> scored_and_counts(score, index, #[trigger] hits[i]),
{
    let active = index.active@;
    let counted = active_rows_of(active, active.len() as int);
    law_active_rows_have_their_flag(active, active.len() as int);
    assert forall|row: usize| row < active.len() && #[trigger] active[row as int] implies exists|
        i: int,
    | 0 <= i < hits.len() && scored_under(score, index, row, #[trigger] hits[i]) by {
        assert(counted.contains(row as int));
        let i = choose|i: int| 0 <= i < counted.len() && counted[i] == row as int;
        assert(as_rows(rows)[i] == row as int);
        assert(scored_under(score, index, row, hits[i]));
    }
    assert forall|i: int| 0 <= i < hits.len() implies scored_and_counts(
        score,
        index,
        #[trigger] hits[i],
    ) by {
        assert(as_rows(rows)[i] == rows[i] as int);
        assert(counted.contains(counted[i]));
        assert(scored_under(score, index, rows[i], hits[i]));
    }
}

/// A search scores no row that does not count, and every row that counts and that the pages do not
/// hold. A list that was left out is no nearer than one that was probed.
pub proof fn law_search_sees_new_rows<
    D: FnMut(usize) -> u32,
    P: FnMut(u64, u32) -> u32,
    S: FnMut(usize) -> u32,
>(
    pages: IvfPqIndex,
    source: VectorIndex,
    limit: int,
    near: D,
    far: P,
    score: S,
    trace: SearchTrace,
    best: Seq<Hit>,
)
    requires
        searched(pages, source, limit, near, far, score, trace, best),
    ensures
        forall|row: usize| #[trigger]
            trace.rows.contains(row) ==> row < source.row_total() && source.active@[row as int],
        forall|row: usize|
            row < source.row_total() && source.active@[row as int] && !pages.rows@.contains(
                row as u32,
            ) ==> #[trigger] trace.rows.contains(row),
        trace.probed.len() == pages.coarse@.len(),
        forall|i: int, j: int|
            #![trigger trace.probed[i], trace.probed[j]]
            0 <= i < j < trace.probed.len() ==> !single_below(
                trace.probed[j].1,
                trace.probed[i].1,
            ),
{
    law_order_compares_numbers(trace.lists, trace.probed, true);
    assert forall|row: usize|
        row < source.row_total() && source.active@[row as int] && !pages.rows@.contains(
            row as u32,
        ) implies #[trigger] trace.rows.contains(row) by {
        lemma_built_place(pages.rows@, row as int);
        let place = built_place(pages.rows@, row as int);
        if place < pages.rows@.len() && pages.rows@[place] == row {
            assert(pages.rows@.contains(row as u32));
        }
        assert(is_stale(pages, source, row as int));
        assert(is_candidate(pages, source, trace.ordered, limit, row as int));
    }
}

/// Where the pages hold ascending rows, every row that was written again since they were built is
/// scored, and where the budget covers every position that was listed, so is every row at one of them.
pub proof fn law_search_sees_listed_and_written_rows<
    D: FnMut(usize) -> u32,
    P: FnMut(u64, u32) -> u32,
    S: FnMut(usize) -> u32,
>(
    pages: IvfPqIndex,
    source: VectorIndex,
    limit: int,
    near: D,
    far: P,
    score: S,
    trace: SearchTrace,
    best: Seq<Hit>,
    place: int,
)
    requires
        searched(pages, source, limit, near, far, score, trace, best),
        forall|i: int, j: int|
            0 <= i < j < pages.rows@.len() ==> (#[trigger] pages.rows@[i]) < (
            #[trigger] pages.rows@[j]),
        0 <= place < pages.rows@.len(),
        pages.built_versions@.len() == pages.rows@.len(),
        pages.rows@[place] < source.row_total(),
        source.active@[pages.rows@[place] as int],
    ensures
        source.versions@[pages.rows@[place] as int] != pages.built_versions@[place]
            ==> trace.rows.contains(pages.rows@[place] as usize),
        (exists|i: int|
            0 <= i < trace.ordered.len() && (#[trigger] trace.ordered[i]).0 == place)
            && trace.ordered.len() <= pages.config.candidate_budget ==> trace.rows.contains(
            pages.rows@[place] as usize,
        ),
        (exists|i: int| 0 <= i < limit && i < trace.ordered.len() && (#[trigger] trace.ordered[i]).0
            == place) ==> trace.rows.contains(pages.rows@[place] as usize),
{
    let row = pages.rows@[place] as int;
    law_walk_finds_built_rows(pages.rows@, place);
    if source.versions@[row] != pages.built_versions@[place] {
        assert(is_stale(pages, source, row));
        assert(is_candidate(pages, source, trace.ordered, limit, row));
    }
    if (exists|i: int| 0 <= i < trace.ordered.len() && (#[trigger] trace.ordered[i]).0 == place)
        && trace.ordered.len() <= pages.config.candidate_budget {
        let i = choose|i: int|
            0 <= i < trace.ordered.len() && (#[trigger] trace.ordered[i]).0 == place;
        assert(trace.ordered[i].0 < pages.rows@.len());
        assert(is_candidate(pages, source, trace.ordered, limit, row));
    }
    if exists|i: int|
        0 <= i < limit && i < trace.ordered.len() && (#[trigger] trace.ordered[i]).0 == place {
        let i = choose|i: int|
            0 <= i < limit && i < trace.ordered.len() && (#[trigger] trace.ordered[i]).0 == place;
        assert(trace.ordered[i].0 < pages.rows@.len());
        assert(is_candidate(pages, source, trace.ordered, limit, row));
    }
}

/// Identities that an exact search and an approximate one gave for one query.
pub type Neighbors = (Vec<u64>, Vec<u64>);

/// The rows that recall is measured on, spread evenly over the rows that count.
pub open spec fn validation_rows(active: Seq<int>, queries: int) -> Seq<int> {
    Seq::new(
        queries as nat,
        |ordinal: int|
            active[spec_min(
                saturated(ordinal * active.len()) / queries,
                active.len() - 1,
            )],
    )
}

/// Exact neighbors of the first answers.
pub open spec fn expected_sum(answers: Seq<Neighbors>, count: int) -> int
    decreases count,
{
    if count <= 0 {
        0
    } else {
        expected_sum(answers, count - 1) + answers[count - 1].0@.len()
    }
}

/// Exact neighbors of the first answers that were found approximately.
pub open spec fn matched_sum(answers: Seq<Neighbors>, count: int) -> int
    decreases count,
{
    if count <= 0 {
        0
    } else {
        matched_sum(answers, count - 1) + answers[count - 1].0@.filter(
            |id: u64| answers[count - 1].1@.contains(id),
        ).len()
    }
}

/// What the caller found for every validation row.
pub open spec fn recall_measured<M: FnMut(usize, usize) -> Result<Neighbors>>(
    measure: M,
    rows: Seq<int>,
    neighbors: usize,
    answers: Seq<Neighbors>,
) -> bool {
    answers.len() == rows.len() && forall|i: int|
        0 <= i < answers.len() ==> call_ensures(
            measure,
            (rows[i] as usize, neighbors),
            Ok::<Neighbors, Error>(#[trigger] answers[i]),
        )
}

/// Recall, in basis points, that answers give.
pub open spec fn answered_recall(answers: Seq<Neighbors>) -> int {
    recall_points(
        saturated64(expected_sum(answers, answers.len() as int)) as u64,
        saturated64(matched_sum(answers, answers.len() as int)) as u64,
    )
}

/// The answers of a measurement of recall, and what they lead to.
pub open spec fn recall_outcome<M: FnMut(usize, usize) -> Result<Neighbors>>(
    measure: M,
    source: VectorIndex,
    before: IvfPqIndex,
    after: IvfPqIndex,
    published: bool,
) -> bool {
    let active = active_rows_of(source.active@, source.active@.len() as int);
    let queries = spec_min(active.len() as int, 64);
    exists|answers: Seq<Neighbors>| #[trigger]
        recall_measured(
            measure,
            validation_rows(active, queries),
            spec_min(10, active.len() as int) as usize,
            answers,
        ) && after == (IvfPqIndex {
            recall_basis_points: answered_recall(answers) as u16,
            validation_queries: queries as u16,
            ..before
        }) && published == (answered_recall(answers) >= 9000)
}

/// What is said of pages whose recall, in basis points, is too low.
pub open spec fn recall_message(recall: u16) -> Seq<char> {
    "IVF-PQ recall "@ + decimal(recall as nat) + "bp is below the "@ + decimal(9000)
        + "bp publication floor"@
}

impl IvfPqIndex {
    /// Measures recall on rows of the matrix, and refuses pages that are not good enough. The caller
    /// searches exactly and approximately, for a row and a number of neighbors.
    #[verifier::rlimit(40)]
    #[verifier::spinoff_prover]
    pub fn validate_recall<M: FnMut(usize, usize) -> Result<Neighbors>>(
        &mut self,
        source: &VectorIndex,
        measure: M,
    ) -> (result: Result<()>)
        requires
            source.active.wf(),
            forall|row: usize, neighbors: usize| #[trigger] call_requires(measure, (row, neighbors)),
        ensures
            if active_rows_of(source.active@, source.active@.len() as int).len() == 0 {
                fails_with(
                    result,
                    ErrorCode::IndexUnavailable,
                    "IVF-PQ recall validation has no active queries"@,
                ) && *final(self) == *old(self)
            } else {
                match result {
                    Ok(_) => recall_outcome(measure, *source, *old(self), *final(self), true),
                    Err(error) => {
                        ||| error.is(
                            ErrorCode::IndexUnavailable,
                            recall_message(final(self).recall_basis_points),
                        ) && recall_outcome(measure, *source, *old(self), *final(self), false)
                        ||| *final(self) == *old(self) && exists|row: usize, neighbors: usize|
                            #[trigger]
                            call_ensures(
                                measure,
                                (row, neighbors),
                                Err::<Neighbors, Error>(error),
                            )
                    },
                }
            },
    {
        let active = source.active_rows();
        let ghost rows = active_rows_of(source.active@, source.active@.len() as int);
        assert(rows.len() == active@.len());
        if active.len() == 0 {
            return Err(
                Error::new(
                    ErrorCode::IndexUnavailable,
                    "IVF-PQ recall validation has no active queries",
                ),
            );
        }
        let queries: usize = min_usize(active.len(), MAX_VALIDATION_QUERIES);
        let neighbors: usize = min_usize(VALIDATION_TOP_K, active.len());
        let mut search_row = measure;
        let mut expected: u64 = 0;
        let mut matched: u64 = 0;
        let ghost mut answers: Seq<Neighbors> = Seq::empty();
        let ghost wanted = validation_rows(rows, queries as int);
        for ordinal in 0..queries
            invariant
                *self == *old(self),
                rows == active_rows_of(source.active@, source.active@.len() as int),
                rows == as_rows(active@),
                rows.len() > 0,
                search_row == measure,
                forall|row: usize, neighbors: usize| #[trigger]
                    call_requires(measure, (row, neighbors)),
                0 < queries <= active@.len(),
                queries == spec_min(active@.len() as int, 64),
                neighbors == spec_min(10, active@.len() as int),
                wanted == validation_rows(rows, queries as int),
                answers.len() == ordinal,
                forall|i: int|
                    0 <= i < ordinal ==> call_ensures(
                        measure,
                        (wanted[i] as usize, neighbors),
                        Ok::<Neighbors, Error>(#[trigger] answers[i]),
                    ),
                expected == saturated64(expected_sum(answers, ordinal as int)),
                matched == saturated64(matched_sum(answers, ordinal as int)),
                expected_sum(answers, ordinal as int) >= 0,
                matched_sum(answers, ordinal as int) >= 0,
        {
            let place: usize = validation_row(ordinal, active.len(), queries);
            let row: usize = active[place];
            assert(wanted[ordinal as int] == row);
            assert(call_requires(measure, (row, neighbors)));
            let found = match search_row(row, neighbors) {
                Ok(found) => found,
                Err(error) => {
                    assert(call_ensures(
                        measure,
                        (row, neighbors),
                        Err::<Neighbors, Error>(error),
                    ));
                    return Err(error);
                },
            };
            let ghost before = answers;
            expected = expected.saturating_add(found.0.len() as u64);
            matched = matched.saturating_add(
                matched_neighbors(found.0.as_slice(), found.1.as_slice()) as u64,
            );
            proof {
                answers = answers.push(found);
                lemma_sums_prefix(before, answers, ordinal as int);
                assert(answers[ordinal as int] == found);
                assert forall|i: int| 0 <= i < ordinal + 1 implies call_ensures(
                    measure,
                    (wanted[i] as usize, neighbors),
                    Ok::<Neighbors, Error>(#[trigger] answers[i]),
                ) by {
                    if i < ordinal {
                        assert(answers[i] == before[i]);
                    }
                }
            }
        }
        let (points, published) = recall_gate(expected, matched);
        self.recall_basis_points = points;
        self.validation_queries = queries as u16;
        proof {
            assert(recall_measured(measure, wanted, neighbors, answers));
            assert(answers.len() == queries);
            assert(answered_recall(answers) == points);
            assert(spec_min(10, rows.len() as int) as usize == neighbors);
            assert(recall_measured(
                measure,
                validation_rows(rows, spec_min(rows.len() as int, 64)),
                spec_min(10, rows.len() as int) as usize,
                answers,
            ));
            assert(*self == (IvfPqIndex {
                recall_basis_points: answered_recall(answers) as u16,
                validation_queries: spec_min(rows.len() as int, 64) as u16,
                ..*old(self)
            }));
            assert(recall_outcome(measure, *source, *old(self), *self, published));
        }
        if !published {
            let mut message = String::from_str("IVF-PQ recall ");
            push_decimal(&mut message, self.recall_basis_points as u64);
            message.append("bp is below the ");
            push_decimal(&mut message, 9000);
            message.append("bp publication floor");
            return Err(Error { code: ErrorCode::IndexUnavailable, message });
        }
        Ok(())
    }
}

proof fn lemma_sums_prefix(left: Seq<Neighbors>, right: Seq<Neighbors>, count: int)
    requires
        0 <= count <= left.len(),
        count <= right.len(),
        forall|i: int| 0 <= i < count ==> left[i] == #[trigger] right[i],
    ensures
        expected_sum(left, count) == expected_sum(right, count),
        matched_sum(left, count) == matched_sum(right, count),
    decreases count,
{
    if count > 0 {
        lemma_sums_prefix(left, right, count - 1);
        assert(left[count - 1] == right[count - 1]);
    }
}

/// Pages are published exactly where the recall that was measured is at least nine tenths, and at most 64
/// rows are asked.
pub proof fn law_published_pages_find_most<M: FnMut(usize, usize) -> Result<Neighbors>>(
    measure: M,
    source: VectorIndex,
    before: IvfPqIndex,
    after: IvfPqIndex,
    published: bool,
)
    requires
        recall_outcome(measure, source, before, after, published),
    ensures
        published <==> after.recall_basis_points >= 9_000,
        after.recall_basis_points <= 10_000,
        after.validation_queries <= 64,
        after.rows@ == before.rows@,
        after.codes@ == before.codes@,
{
    let active = active_rows_of(source.active@, source.active@.len() as int);
    let queries = spec_min(active.len() as int, 64);
    let answers = choose|answers: Seq<Neighbors>| #[trigger]
        recall_measured(
            measure,
            validation_rows(active, queries),
            spec_min(10, active.len() as int) as usize,
            answers,
        ) && after == (IvfPqIndex {
            recall_basis_points: answered_recall(answers) as u16,
            validation_queries: queries as u16,
            ..before
        }) && published == (answered_recall(answers) >= 9000);
    lemma_recall_range(
        saturated64(expected_sum(answers, answers.len() as int)) as u64,
        saturated64(matched_sum(answers, answers.len() as int)) as u64,
    );
}

proof fn lemma_recall_range(expected: u64, matched: u64)
    ensures
        0 <= recall_points(expected, matched) <= 10_000,
{
    if expected > 0 {
        let scaled = saturated64(matched * 10_000);
        assert(0 <= scaled / expected as int) by (nonlinear_arith)
            requires
                0 <= scaled,
                0 < expected as int,
        ;
    }
}

/// Recall is measured on sixty-four rows, or on all where there are fewer, and for ten neighbors each.
pub proof fn law_recall_is_measured_on_many_rows<M: FnMut(usize, usize) -> Result<Neighbors>>(
    measure: M,
    source: VectorIndex,
    before: IvfPqIndex,
    after: IvfPqIndex,
    published: bool,
    active: Seq<int>,
)
    requires
        recall_outcome(measure, source, before, after, published),
        active == active_rows_of(source.active@, source.active@.len() as int),
    ensures
        active.len() >= 64 ==> after.validation_queries == 64,
        active.len() < 64 ==> after.validation_queries == active.len(),
        active.len() >= 10 ==> exists|row: usize, answer: Neighbors| #[trigger]
            call_ensures(measure, (row, 10usize), Ok::<Neighbors, Error>(answer)),
{
    let queries = spec_min(active.len() as int, 64);
    let answers = choose|answers: Seq<Neighbors>| #[trigger]
        recall_measured(
            measure,
            validation_rows(active, queries),
            spec_min(10, active.len() as int) as usize,
            answers,
        ) && after == (IvfPqIndex {
            recall_basis_points: answered_recall(answers) as u16,
            validation_queries: queries as u16,
            ..before
        }) && published == (answered_recall(answers) >= 9000);
    if active.len() >= 10 {
        let rows = validation_rows(active, queries);
        assert(call_ensures(measure, (rows[0] as usize, 10usize), Ok::<Neighbors, Error>(answers[0])));
    }
}

/// The rows on which recall is measured lie evenly among the rows that count.
pub proof fn law_validation_rows_lie_evenly(active: Seq<int>, queries: int, query: int, place: int)
    requires
        0 <= query < queries <= active.len(),
        query * active.len() <= usize::MAX,
        place * queries <= query * active.len() < (place + 1) * queries,
    ensures
        0 <= place < active.len(),
        validation_rows(active, queries)[query] == active[place],
{
    let count = active.len() as int;
    let product = query * count;
    assert(product >= 0) by (nonlinear_arith)
        requires
            product == query * count,
            query >= 0,
            count >= 0,
    ;
    assert((place + 1) * queries == place * queries + queries) by (nonlinear_arith);
    assert(product / queries == place) by {
        vstd::arithmetic::div_mod::lemma_fundamental_div_mod_converse(
            product,
            queries,
            place,
            product - place * queries,
        );
    }
    assert(place < count) by (nonlinear_arith)
        requires
            place * queries <= query * count,
            query < queries,
            count > 0,
            queries > 0,
    ;
    assert(place >= 0) by (nonlinear_arith)
        requires
            0 <= product < (place + 1) * queries,
            queries > 0,
    ;
}

} // verus!
