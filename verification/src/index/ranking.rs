//! Rows ranked by score.

use crate::order::{lemma_permutation, sort_keys};
use vstd::prelude::*;

verus! {

/// Where a scored row ranks: higher scores first, then lower rows.
pub open spec fn rank(row: u32, score: u32) -> int {
    (u32::MAX - score) * 0x1_0000_0000 + row
}

/// The best scored rows, at most `limit`, best first.
pub open spec fn ranking(result: Seq<(u32, u32)>, scores: Map<u128, u32>, limit: int) -> bool {
    &&& result.len() <= limit
    &&& forall|i: int, j: int|
        0 <= i < j < result.len() ==> rank((#[trigger] result[i]).0, result[i].1) < rank(
            (#[trigger] result[j]).0,
            result[j].1,
        )
    &&& forall|i: int|
        0 <= i < result.len() ==> scores.dom().contains((#[trigger] result[i]).0 as u128)
            && scores[result[i].0 as u128] == result[i].1
    &&& forall|row: u32| #[trigger]
        scores.dom().contains(row as u128) ==> ranked(result, row) || (result.len() == limit
            && forall|i: int|
            0 <= i < result.len() ==> rank((#[trigger] result[i]).0, result[i].1) < rank(
                row,
                scores[row as u128],
            ))
}

/// The row is in the ranking.
pub open spec fn ranked(result: Seq<(u32, u32)>, row: u32) -> bool {
    exists|i: int| 0 <= i < result.len() && (#[trigger] result[i]).0 == row
}

spec fn unranked(key: u128) -> (u32, u32) {
    (
        (key % 0x1_0000_0000) as u32,
        (u32::MAX - key / 0x1_0000_0000) as u32,
    )
}

proof fn lemma_unranked(row: u32, score: u32, key: u128)
    requires
        key == rank(row, score),
    ensures
        unranked(key) == (row, score),
{
}

/// Scored rows by ascending row.
pub open spec fn ascending_scores(list: Seq<(u32, u32)>) -> bool {
    forall|i: int, j: int|
        0 <= i < j < list.len() ==> (#[trigger] list[i]).0 < (#[trigger] list[j]).0
}

/// The row has the score at this place.
pub open spec fn scored_at(list: Seq<(u32, u32)>, place: int, key: u128) -> bool {
    0 <= place < list.len() && list[place].0 as u128 == key
}

/// Scores by row.
pub open spec fn score_map(list: Seq<(u32, u32)>) -> Map<u128, u32> {
    Map::new(
        |key: u128| exists|place: int| #[trigger] scored_at(list, place, key),
        |key: u128| list[choose|place: int| #[trigger] scored_at(list, place, key)].1,
    )
}

pub proof fn lemma_score_map(list: Seq<(u32, u32)>, place: int)
    requires
        ascending_scores(list),
        0 <= place < list.len(),
    ensures
        score_map(list).dom().contains(list[place].0 as u128),
        score_map(list)[list[place].0 as u128] == list[place].1,
{
    let key = list[place].0 as u128;
    assert(scored_at(list, place, key));
    let chosen = choose|place: int| #[trigger] scored_at(list, place, key);
    if chosen < place {
        assert(list[chosen].0 < list[place].0);
    } else if place < chosen {
        assert(list[place].0 < list[chosen].0);
    }
}

/// Raises the score of a row. Scores stop at the greatest one.
#[verifier::spinoff_prover]
pub(crate) fn add_score(list: &mut Vec<(u32, u32)>, row: u32, more: u32)
    requires
        ascending_scores(old(list)@),
    ensures
        ascending_scores(final(list)@),
        score_map(final(list)@) == score_map(old(list)@).insert(
            row as u128,
            raised(
                if score_map(old(list)@).dom().contains(row as u128) {
                    score_map(old(list)@)[row as u128]
                } else {
                    0
                },
                more,
            ),
        ),
{
    let ghost before = list@;
    let mut low: usize = 0;
    let mut high: usize = list.len();
    while low < high
        invariant
            list@ == before,
            low <= high <= list.len(),
            ascending_scores(before),
            forall|i: int| 0 <= i < low ==> (#[trigger] before[i]).0 < row,
            forall|i: int| high <= i < before.len() ==> (#[trigger] before[i]).0 >= row,
        decreases high - low,
    {
        let middle: usize = low + (high - low) / 2;
        if list[middle].0 < row {
            assert forall|i: int| 0 <= i < middle + 1 implies (#[trigger] before[i]).0 < row by {
                if i < middle {
                    assert(before[i].0 < before[middle as int].0);
                }
            }
            low = middle + 1;
        } else {
            assert forall|i: int| middle <= i < before.len() implies (#[trigger] before[i]).0
                >= row by {
                if i > middle {
                    assert(before[middle as int].0 < before[i].0);
                }
            }
            high = middle;
        }
    }
    let found = low < list.len() && list[low].0 == row;
    let known: u32 = if found {
        list[low].1
    } else {
        0
    };
    let score: u32 = known.saturating_add(more);
    if found {
        list.set(low, (row, score));
    } else {
        list.insert(low, (row, score));
    }
    proof {
        let after = list@;
        let shift = if found {
            0int
        } else {
            1int
        };
        assert forall|i: int| 0 <= i < after.len() implies #[trigger] after[i] == if i < low {
            before[i]
        } else if i == low {
            (row, score)
        } else {
            before[i - shift]
        } by {}
        assert forall|i: int, j: int| 0 <= i < j < after.len() implies (#[trigger] after[i]).0 < (
        #[trigger] after[j]).0 by {
            let a = if i < low {
                i
            } else {
                i - shift
            };
            let b = if j < low {
                j
            } else {
                j - shift
            };
            if i != low && j != low {
                assert(before[a].0 < before[b].0);
            } else if j == low {
                assert(before[i].0 < row);
            } else if found {
                assert(before[low as int].0 < before[j].0);
            } else {
                if b > low {
                    assert(before[low as int].0 < before[b].0);
                }
            }
        }
        if found {
            lemma_score_map(before, low as int);
        } else {
            assert(!score_map(before).dom().contains(row as u128)) by {
                if score_map(before).dom().contains(row as u128) {
                    let p = choose|p: int| #[trigger] scored_at(before, p, row as u128);
                    assert(before[p].0 == row);
                }
            }
        }
        lemma_score_map(after, low as int);
        let target = score_map(before).insert(row as u128, score);
        assert forall|key: u128| #[trigger] score_map(after).dom().contains(key)
            == target.dom().contains(key) && (target.dom().contains(key) ==> score_map(after)[key]
            == target[key]) by {
            if key != row as u128 {
                if score_map(before).dom().contains(key) {
                    let p = choose|p: int| #[trigger] scored_at(before, p, key);
                    let q = if p < low {
                        p
                    } else {
                        p + shift
                    };
                    lemma_score_map(before, p);
                    assert(after[q] == before[p]);
                    lemma_score_map(after, q);
                }
                if score_map(after).dom().contains(key) {
                    let q = choose|q: int| #[trigger] scored_at(after, q, key);
                    let p = if q < low {
                        q
                    } else {
                        q - shift
                    };
                    assert(q != low);
                    assert(scored_at(before, p, key));
                }
            }
        }
        assert(score_map(after) =~= target);
    }
}

pub open spec fn raised(score: u32, more: u32) -> u32 {
    if score + more <= u32::MAX {
        (score + more) as u32
    } else {
        u32::MAX
    }
}

/// The key is that of an entry.
spec fn is_rank(entries: Seq<(u32, u32)>, key: u128) -> bool {
    exists|k: int| 0 <= k < entries.len() && rank((#[trigger] entries[k]).0, entries[k].1) == key
}

/// Ranks rows by score.
#[verifier::rlimit(40)]
#[verifier::spinoff_prover]
pub(crate) fn rank_rows(entries: &Vec<(u32, u32)>, limit: usize) -> (result: Vec<(u32, u32)>)
    requires
        ascending_scores(entries@),
    ensures
        ranking(result@, score_map(entries@), limit as int),
{
    let ghost scores = score_map(entries@);
    let mut keys: Vec<u128> = Vec::with_capacity(entries.len());
    for index in 0..entries.len()
        invariant
            keys@.len() == index,
            forall|i: int|
                0 <= i < index ==> #[trigger] keys@[i] == rank(entries@[i].0, entries@[i].1),
    {
        let row: u32 = entries[index].0;
        let score: u32 = entries[index].1;
        keys.push((u32::MAX - score) as u128 * 0x1_0000_0000 + row as u128);
    }
    let ghost unsorted = keys@;
    sort_keys(&mut keys);
    proof {
        lemma_permutation(keys@, unsorted);
        assert forall|i: int| 0 <= i < keys@.len() implies is_rank(entries@, #[trigger] keys@[i]) by {
            assert(keys@.contains(keys@[i]));
            assert(unsorted.contains(keys@[i]));
            let k = choose|k: int| 0 <= k < unsorted.len() && unsorted[k] == keys@[i];
            assert(rank(entries@[k].0, entries@[k].1) == keys@[i]);
        }
        assert forall|i: int, j: int| 0 <= i < j < keys@.len() implies (#[trigger] keys@[i]) < (
        #[trigger] keys@[j]) by {
            lemma_keys_distinct(entries@, unsorted);
            lemma_no_duplicates_kept(unsorted, keys@);
            assert(keys@[i] <= keys@[j]);
        }
    }
    let mut result: Vec<(u32, u32)> = Vec::new();
    let mut index: usize = 0;
    while index < keys.len() && index < limit
        invariant
            index <= keys@.len(),
            index <= limit,
            result@.len() == index,
            forall|i: int| 0 <= i < keys@.len() ==> is_rank(entries@, #[trigger] keys@[i]),
            forall|i: int| 0 <= i < index ==> #[trigger] result@[i] == unranked(keys@[i]),
        decreases keys@.len() - index,
    {
        let key: u128 = keys[index];
        proof {
            assert(is_rank(entries@, keys@[index as int]));
            let k = choose|k: int|
                0 <= k < entries@.len() && rank((#[trigger] entries@[k]).0, entries@[k].1)
                    == keys@[index as int];
            lemma_unranked(entries@[k].0, entries@[k].1, key);
        }
        let row: u32 = (key % 0x1_0000_0000) as u32;
        let score: u32 = (u32::MAX as u128 - key / 0x1_0000_0000) as u32;
        result.push((row, score));
        index = index + 1;
    }
    proof {
        assert forall|i: int| 0 <= i < result@.len() implies scores.dom().contains(
            (#[trigger] result@[i]).0 as u128,
        ) && scores[result@[i].0 as u128] == result@[i].1 && rank(result@[i].0, result@[i].1)
            == keys@[i] by {
            assert(is_rank(entries@, keys@[i]));
            let k = choose|k: int|
                0 <= k < entries@.len() && rank((#[trigger] entries@[k]).0, entries@[k].1)
                    == keys@[i];
            lemma_unranked(entries@[k].0, entries@[k].1, keys@[i]);
            lemma_score_map(entries@, k);
        }
        assert forall|i: int, j: int| 0 <= i < j < result@.len() implies rank(
            (#[trigger] result@[i]).0,
            result@[i].1,
        ) < rank((#[trigger] result@[j]).0, result@[j].1) by {
            assert(keys@[i] < keys@[j]);
        }
        assert forall|row: u32| #[trigger]
            scores.dom().contains(row as u128) implies ranked(result@, row) || (result@.len()
            == limit && forall|i: int|
            0 <= i < result@.len() ==> rank((#[trigger] result@[i]).0, result@[i].1) < rank(
                row,
                scores[row as u128],
            )) by {
            let k = choose|k: int| #[trigger] scored_at(entries@, k, row as u128);
            lemma_score_map(entries@, k);
            assert(unsorted[k] == rank(row, scores[row as u128]));
            assert(unsorted.contains(unsorted[k]));
            assert(keys@.contains(unsorted[k]));
            let p = choose|p: int| 0 <= p < keys@.len() && keys@[p] == unsorted[k];
            lemma_unranked(row, scores[row as u128], keys@[p]);
            if p < result@.len() {
                assert(result@[p].0 == row);
            } else {
                assert forall|i: int| 0 <= i < result@.len() implies rank(
                    (#[trigger] result@[i]).0,
                    result@[i].1,
                ) < rank(row, scores[row as u128]) by {
                    assert(keys@[i] < keys@[p]);
                }
            }
        }
    }
    result
}

proof fn lemma_keys_distinct(entries: Seq<(u32, u32)>, keys: Seq<u128>)
    requires
        keys.len() == entries.len(),
        ascending_scores(entries),
        forall|i: int|
            0 <= i < keys.len() ==> #[trigger] keys[i] == rank(entries[i].0, entries[i].1),
    ensures
        keys.no_duplicates(),
{
    assert forall|i: int, j: int| 0 <= i < keys.len() && 0 <= j < keys.len() && i != j implies keys[i]
        != keys[j] by {
        lemma_unranked(entries[i].0, entries[i].1, keys[i]);
        lemma_unranked(entries[j].0, entries[j].1, keys[j]);
        if i < j {
            assert(entries[i].0 < entries[j].0);
        } else {
            assert(entries[j].0 < entries[i].0);
        }
    }
}

proof fn lemma_no_duplicates_kept(left: Seq<u128>, right: Seq<u128>)
    requires
        left.no_duplicates(),
        left.to_multiset() == right.to_multiset(),
    ensures
        right.no_duplicates(),
{
    left.lemma_multiset_has_no_duplicates();
    right.lemma_multiset_has_no_duplicates_conv();
}

/// Rows with a higher score come first, and of those with the same score the smaller. A row that is left
/// out gives way to a full list of rows that come before it.
pub proof fn law_higher_scores_come_first(
    result: Seq<(u32, u32)>,
    scores: Map<u128, u32>,
    limit: int,
    place: int,
    later: int,
    row: u32,
)
    requires
        ranking(result, scores, limit),
        0 <= place < result.len(),
    ensures
        place < later < result.len() ==> result[place].1 > result[later].1 || (result[place].1
            == result[later].1 && result[place].0 < result[later].0),
        scores.dom().contains(row as u128) && !ranked(result, row) ==> result.len() == limit && (
        result[place].1 > scores[row as u128] || (result[place].1 == scores[row as u128]
            && result[place].0 < row)),
{
    if place < later < result.len() {
        assert(rank(result[place].0, result[place].1) < rank(result[later].0, result[later].1));
    }
    if scores.dom().contains(row as u128) && !ranked(result, row) {
        assert(rank(result[place].0, result[place].1) < rank(row, scores[row as u128]));
    }
}

} // verus!
