//! Coarsening of communities and the multilevel loop.

use crate::algorithms::components::{canonical, occurs_before, Components};
use crate::algorithms::louvain::{
    asks_on_the_way, assigned, comes_to_rest, local_move_result, louvain_local_move, movable,
    settled_node, singletons, stays,
};
use crate::algorithms::metrics::undirected_neighbors;
use crate::algorithms::strong::mirrored;
use crate::algorithms::traversal::{lemma_marked_bounds, lemma_marked_step, marked, never_cancelled};
use crate::algorithms::unit::{
    lemma_unit_targets, lemma_unit_total, lemma_unit_undirected, unit_graph, unit_row, unit_weights,
};
use crate::algorithms::weights::{
    between, community_degree, degree_of, every_pair, every_target, flipped, from_node, gain,
        joined, law_merge_changes_modularity, leaving, lemma_bounds, lemma_either_way,
    lemma_one_source, lemma_partial_bounds, lemma_partial_grows, lemma_row_sum_bounds,
        lemma_row_sum_same, lemma_same, modularity, partial_weight, row_sum,
    squared_degrees, link, other_member, targets_inside, together, total_weight, undirected,
        weight_where,
    WeightedGraph,
};
use crate::cancel::{ask, goes_on};
use crate::csr::Csr;
use crate::error::{fails_with, Error, ErrorCode, Result};
use vstd::prelude::*;

verus! {

/// A predicate on communities, read on nodes.
pub open spec fn pulled(
    wanted: spec_fn(int, int) -> bool,
    membership: Seq<usize>,
) -> spec_fn(int, int) -> bool {
    |from: int, to: int| wanted(membership[from] as int, membership[to] as int)
}

/// The coarse graph weighs between communities what the fine graph weighs between their members.
#[verifier::opaque]
pub open spec fn coarsens(
    coarse: Seq<Vec<(usize, u64)>>,
    fine: Seq<Vec<(usize, u64)>>,
    membership: Seq<usize>,
) -> bool {
    forall|wanted: spec_fn(int, int) -> bool| #[trigger]
        weight_where(coarse, wanted) == weight_where(fine, pulled(wanted, membership))
}

proof fn lemma_merged_weight(
    coarse: Seq<Vec<(usize, u64)>>,
    fine: Seq<Vec<(usize, u64)>>,
    membership: Seq<usize>,
    wanted: spec_fn(int, int) -> bool,
)
    requires
        coarsens(coarse, fine, membership),
    ensures
        weight_where(coarse, wanted) == weight_where(fine, pulled(wanted, membership)),
{
    reveal(coarsens);
}

proof fn lemma_row_update(row: Seq<(usize, u64)>, index: int, weight: u64, wanted: spec_fn(int) -> bool)
    requires
        0 <= index < row.len(),
    ensures
        row_sum(row.update(index, (row[index].0, weight)), wanted) == row_sum(row, wanted) + if wanted(
            row[index].0 as int,
        ) {
            weight - row[index].1
        } else {
            0
        },
    decreases row.len(),
{
    let after = row.update(index, (row[index].0, weight));
    if index == row.len() - 1 {
        assert(after.drop_last() =~= row.drop_last());
    } else {
        lemma_row_update(row.drop_last(), index, weight, wanted);
        assert(after.drop_last() =~= row.drop_last().update(index, (row[index].0, weight)));
        assert(after.last() == row.last());
    }
}

proof fn lemma_row_insert(
    row: Seq<(usize, u64)>,
    index: int,
    entry: (usize, u64),
    wanted: spec_fn(int) -> bool,
)
    requires
        0 <= index <= row.len(),
    ensures
        row_sum(row.insert(index, entry), wanted) == row_sum(row, wanted) + if wanted(
            entry.0 as int,
        ) {
            entry.1 as int
        } else {
            0
        },
    decreases row.len(),
{
    let after = row.insert(index, entry);
    if index == row.len() {
        assert(after.drop_last() =~= row);
    } else {
        lemma_row_insert(row.drop_last(), index, entry, wanted);
        assert(after.drop_last() =~= row.drop_last().insert(index, entry));
        assert(after.last() == row.last());
    }
}

proof fn lemma_entry_bound(row: Seq<(usize, u64)>, index: int)
    requires
        0 <= index < row.len(),
    ensures
        row[index].1 <= row_sum(row, every_target()),
    decreases row.len(),
{
    lemma_row_sum_bounds(row.drop_last(), every_target());
    if index < row.len() - 1 {
        lemma_entry_bound(row.drop_last(), index);
    }
}

/// Targets in strictly ascending order.
pub open spec fn ascending_row(row: Seq<(usize, u64)>) -> bool {
    forall|i: int, j: int|
        0 <= i < j < row.len() ==> (#[trigger] row[i]).0 < (#[trigger] row[j]).0
}

/// No entry is without weight.
pub open spec fn positive_row(row: Seq<(usize, u64)>) -> bool {
    forall|i: int| 0 <= i < row.len() ==> (#[trigger] row[i]).1 > 0
}

/// No entry of any row is without weight.
pub open spec fn positive_rows(graph: Seq<Vec<(usize, u64)>>) -> bool {
    forall|node: int| 0 <= node < graph.len() ==> positive_row((#[trigger] graph[node])@)
}

/// Targets ascend in every row.
pub open spec fn ascending_rows(graph: Seq<Vec<(usize, u64)>>) -> bool {
    forall|node: int| 0 <= node < graph.len() ==> ascending_row((#[trigger] graph[node])@)
}

/// Adds weight towards a target to an ascending row.
fn add_weight(row: &mut Vec<(usize, u64)>, target: usize, weight: u64)
    requires
        ascending_row(old(row)@),
        row_sum(old(row)@, every_target()) + weight <= u64::MAX,
    ensures
        ascending_row(final(row)@),
        weight > 0 && positive_row(old(row)@) ==> positive_row(final(row)@),
        forall|wanted: spec_fn(int) -> bool| #[trigger]
            row_sum(final(row)@, wanted) == row_sum(old(row)@, wanted) + if wanted(target as int) {
                weight as int
            } else {
                0
            },
        forall|i: int|
            0 <= i < final(row).len() ==> (#[trigger] final(row)@[i]).0 == target || exists|j: int|
                0 <= j < old(row).len() && (#[trigger] old(row)@[j]).0 == final(row)@[i].0,
{
    let ghost before = row@;
    let mut low: usize = 0;
    let mut high: usize = row.len();
    while low < high
        invariant
            row@ == before,
            low <= high <= row.len(),
            ascending_row(before),
            forall|i: int| 0 <= i < low ==> (#[trigger] before[i]).0 < target,
            forall|i: int| high <= i < before.len() ==> (#[trigger] before[i]).0 >= target,
        decreases high - low,
    {
        let middle: usize = low + (high - low) / 2;
        if row[middle].0 < target {
            assert forall|i: int| 0 <= i < middle + 1 implies (#[trigger] before[i]).0 < target by {
                if i < middle {
                    assert(before[i].0 < before[middle as int].0);
                }
            }
            low = middle + 1;
        } else {
            assert forall|i: int| middle <= i < before.len() implies (#[trigger] before[i]).0
                >= target by {
                if i > middle {
                    assert(before[middle as int].0 < before[i].0);
                }
            }
            high = middle;
        }
    }
    if low < row.len() && row[low].0 == target {
        proof {
            lemma_entry_bound(before, low as int);
        }
        let sum: u64 = row[low].1 + weight;
        row.set(low, (target, sum));
        proof {
            assert(row@ =~= before.update(low as int, (before[low as int].0, sum)));
            assert forall|wanted: spec_fn(int) -> bool| #[trigger]
                row_sum(row@, wanted) == row_sum(before, wanted) + if wanted(target as int) {
                    weight as int
                } else {
                    0
                } by {
                lemma_row_update(before, low as int, sum, wanted);
            }
            assert forall|i: int, j: int| 0 <= i < j < row.len() implies (#[trigger] row@[i]).0 < (
            #[trigger] row@[j]).0 by {
                assert(before[i].0 < before[j].0);
            }
            assert forall|i: int| 0 <= i < row.len() implies (#[trigger] row@[i]).0 == target
                || exists|j: int| 0 <= j < before.len() && (#[trigger] before[j]).0 == row@[i].0 by {
                assert(before[i].0 == row@[i].0);
            }
        }
    } else {
        row.insert(low, (target, weight));
        proof {
            assert forall|wanted: spec_fn(int) -> bool| #[trigger]
                row_sum(row@, wanted) == row_sum(before, wanted) + if wanted(target as int) {
                    weight as int
                } else {
                    0
                } by {
                lemma_row_insert(before, low as int, (target, weight), wanted);
            }
            assert forall|i: int| 0 <= i < row.len() implies #[trigger] row@[i] == if i < low {
                before[i]
            } else if i == low {
                (target, weight)
            } else {
                before[i - 1]
            } by {}
            assert(low < before.len() ==> before[low as int].0 > target);
            assert forall|i: int, j: int| 0 <= i < j < row.len() implies (#[trigger] row@[i]).0 < (
            #[trigger] row@[j]).0 by {
                if j < low {
                    assert(before[i].0 < before[j].0);
                } else if i > low {
                    assert(before[i - 1].0 < before[j - 1].0);
                } else if i < low && j > low {
                    assert(before[i].0 < before[j - 1].0);
                } else if i == low {
                    if j - 1 > low {
                        assert(before[low as int].0 < before[j - 1].0);
                    }
                }
            }
            assert forall|i: int| 0 <= i < row.len() implies (#[trigger] row@[i]).0 == target
                || exists|j: int| 0 <= j < before.len() && (#[trigger] before[j]).0 == row@[i].0 by {
                if i < low {
                    assert(before[i].0 == row@[i].0);
                } else if i > low {
                    assert(before[i - 1].0 == row@[i].0);
                }
            }
        }
    }
}

/// Replacing one row changes the weight by the difference of the two rows.
proof fn lemma_row_replaced(
    before: Seq<Vec<(usize, u64)>>,
    after: Seq<Vec<(usize, u64)>>,
    node: int,
    wanted: spec_fn(int, int) -> bool,
    count: int,
)
    requires
        after.len() == before.len(),
        0 <= node < before.len(),
        0 <= count <= before.len(),
        forall|x: int| 0 <= x < before.len() && x != node ==> #[trigger] after[x]@ == before[x]@,
    ensures
        partial_weight(after, wanted, count) == partial_weight(before, wanted, count) + if node
            < count {
            row_sum(after[node]@, from_row(wanted, node)) - row_sum(
                before[node]@,
                from_row(wanted, node),
            )
        } else {
            0
        },
    decreases count,
{
    if count > 0 {
        lemma_row_replaced(before, after, node, wanted, count - 1);
        lemma_row_sum_same(
            after[count - 1]@,
            |to: int| wanted(count - 1, to),
            from_row(wanted, count - 1),
        );
        lemma_row_sum_same(
            before[count - 1]@,
            |to: int| wanted(count - 1, to),
            from_row(wanted, count - 1),
        );
    }
}

/// A predicate on edges, read on the targets of one row.
spec fn from_row(wanted: spec_fn(int, int) -> bool, from: int) -> spec_fn(int) -> bool {
    |to: int| wanted(from, to)
}

/// One entry of the fine graph, added to the coarse one.
proof fn lemma_entry_added(
    before: Seq<Vec<(usize, u64)>>,
    after: Seq<Vec<(usize, u64)>>,
    source: int,
    target: int,
    weight: u64,
    wanted: spec_fn(int, int) -> bool,
)
    requires
        after.len() == before.len(),
        0 <= source < before.len(),
        forall|x: int| 0 <= x < before.len() && x != source ==> #[trigger] after[x]@ == before[x]@,
        forall|g: spec_fn(int) -> bool| #[trigger]
            row_sum(after[source]@, g) == row_sum(before[source]@, g) + if g(target) {
                weight as int
            } else {
                0
            },
    ensures
        weight_where(after, wanted) == weight_where(before, wanted) + if wanted(source, target) {
            weight as int
        } else {
            0
        },
{
    lemma_row_replaced(before, after, source, wanted, before.len() as int);
    let g = from_row(wanted, source);
    assert(row_sum(after[source]@, g) == row_sum(before[source]@, g) + if g(target) {
        weight as int
    } else {
        0
    });
}

/// Communities that hold an active node.
pub open spec fn occupied(active: Seq<bool>, membership: Seq<usize>, community: int) -> bool {
    exists|node: int|
        0 <= node < active.len() && active[node] && #[trigger] membership[node] == community
}

/// Weight added so far when the first `rows` rows and the first `entries` entries of the next row
/// are read.
spec fn read_weight(
    graph: Seq<Vec<(usize, u64)>>,
    membership: Seq<usize>,
    wanted: spec_fn(int, int) -> bool,
    rows: int,
    entries: int,
) -> int {
    partial_weight(graph, pulled(wanted, membership), rows) + if 0 <= rows < graph.len() {
        row_sum(
            graph[rows]@.subrange(0, entries),
            from_row(pulled(wanted, membership), rows),
        )
    } else {
        0
    }
}

/// The coarse rows built so far.
spec fn coarse_rows(
    coarse: Seq<Vec<(usize, u64)>>,
    active: Seq<bool>,
    membership: Seq<usize>,
) -> bool {
    &&& forall|community: int|
        0 <= community < coarse.len() ==> ascending_row((#[trigger] coarse[community])@)
    &&& forall|community: int, i: int|
        0 <= community < coarse.len() && 0 <= i < coarse[community]@.len() ==> occupied(
            active,
            membership,
            (#[trigger] coarse[community]@[i]).0 as int,
        ) && coarse[community]@[i].0 < coarse.len()
    &&& forall|community: int|
        0 <= community < coarse.len() && (#[trigger] coarse[community])@.len() > 0 ==> occupied(
            active,
            membership,
            community,
        )
}

/// Merges the nodes of each community into one.
#[verifier::rlimit(60)]
#[verifier::spinoff_prover]
pub(crate) fn coarsen_communities<F: FnMut() -> Result<()>>(
    graph: &WeightedGraph,
    membership: &Vec<usize>,
    active: &Vec<bool>,
    check: &mut F,
) -> (result: Result<WeightedGraph>)
    requires
        movable(graph@, active@),
        assigned(active@, membership@),
        call_requires(*old(check), ()),
    ensures
        *final(check) == *old(check),
        match result {
            Ok(coarse) => {
                &&& positive_rows(graph@) ==> positive_rows(coarse@)
                &&& ascending_rows(coarse@)
                &&& asks_on_the_way(active@) ==> goes_on(*old(check))
                &&& coarse.len() == graph.len()
                &&& coarsens(coarse@, graph@, membership@)
                &&& coarse_graph(coarse@, active@, membership@)
            },
            Err(error) => call_ensures(*old(check), (), Err::<(), Error>(error)),
        },
{
    let node_count: usize = graph.len();
    let mut coarse: WeightedGraph = Vec::with_capacity(node_count);
    for node in 0..node_count
        invariant
            coarse.len() == node,
            forall|x: int| 0 <= x < node ==> (#[trigger] coarse@[x])@.len() == 0,
    {
        coarse.push(Vec::new());
    }
    proof {
        assert forall|wanted: spec_fn(int, int) -> bool| #[trigger]
            weight_where(coarse@, wanted) == read_weight(graph@, membership@, wanted, 0, 0) by {
            lemma_empty_weight(coarse@, wanted, node_count as int);
        }
    }
    for source in 0..node_count
        invariant
            node_count == graph.len(),
            movable(graph@, active@),
            assigned(active@, membership@),
            *check == *old(check),
            call_requires(*check, ()),
            coarse.len() == node_count,
            coarse_rows(coarse@, active@, membership@),
            positive_rows(graph@) ==> positive_rows(coarse@),
            forall|v: int|
                0 <= v < source && #[trigger] active@[v] && v % 256 == 0 ==> goes_on(*old(check)),
            forall|wanted: spec_fn(int, int) -> bool| #[trigger]
                weight_where(coarse@, wanted) == read_weight(
                    graph@,
                    membership@,
                    wanted,
                    source as int,
                    0,
                ),
    {
        let row = &graph[source];
        let row_len: usize = row.len();
        if active[source] {
            if source % 256 == 0 {
                match ask(check) {
                    Ok(_) => {},
                    Err(error) => {
                        return Err(error);
                    },
                }
            }
            let community: usize = membership[source];
            for index in 0..row_len
                invariant
                    node_count == graph.len(),
                    movable(graph@, active@),
                    assigned(active@, membership@),
                    source < node_count,
                    *row == graph@[source as int],
                    row_len == row.len(),
                    active@[source as int],
                    community == membership@[source as int],
                    coarse.len() == node_count,
                    coarse_rows(coarse@, active@, membership@),
                    positive_rows(graph@) ==> positive_rows(coarse@),
                    forall|wanted: spec_fn(int, int) -> bool| #[trigger]
                        weight_where(coarse@, wanted) == read_weight(
                            graph@,
                            membership@,
                            wanted,
                            source as int,
                            index as int,
                        ),
            {
                let (neighbor, weight) = row[index];
                let ghost before = coarse@;
                proof {
                    assert(graph@[source as int]@[index as int].0 < graph.len());
                    assert(active@[graph@[source as int]@[index as int].0 as int]);
                    lemma_room(
                        graph@,
                        membership@,
                        before,
                        source as int,
                        index as int,
                        community as int,
                    );
                }
                let target: usize = membership[neighbor];
                add_weight(&mut coarse[community], target, weight);
                proof {
                    let after = coarse@;
                    assert(forall|x: int|
                        0 <= x < before.len() && x != community ==> #[trigger] after[x] == before[x]);
                    if positive_rows(graph@) {
                        assert(positive_row(graph@[source as int]@));
                        assert(row@[index as int].1 > 0);
                        assert(positive_row(before[community as int]@));
                        assert forall|x: int| 0 <= x < after.len() implies positive_row(
                            (#[trigger] after[x])@,
                        ) by {
                            assert(positive_row(before[x]@));
                        }
                    }
                    assert forall|wanted: spec_fn(int, int) -> bool| #[trigger]
                        weight_where(after, wanted) == read_weight(
                            graph@,
                            membership@,
                            wanted,
                            source as int,
                            index + 1,
                        ) by {
                        lemma_entry_added(
                            before,
                            after,
                            community as int,
                            target as int,
                            weight,
                            wanted,
                        );
                        assert(weight_where(before, wanted) == read_weight(
                            graph@,
                            membership@,
                            wanted,
                            source as int,
                            index as int,
                        ));
                        let longer = row@.subrange(0, index + 1);
                        assert(longer.drop_last() =~= row@.subrange(0, index as int));
                    }
                    assert(occupied(active@, membership@, community as int));
                    assert(occupied(active@, membership@, target as int));
                    assert forall|c: int, i: int|
                        0 <= c < after.len() && 0 <= i < after[c]@.len() implies occupied(
                        active@,
                        membership@,
                        (#[trigger] after[c]@[i]).0 as int,
                    ) && after[c]@[i].0 < after.len() by {
                        if c == community {
                            if after[c]@[i].0 != target {
                                let j = choose|j: int|
                                    0 <= j < before[c]@.len() && (#[trigger] before[c]@[j]).0
                                        == after[c]@[i].0;
                                assert(occupied(active@, membership@, before[c]@[j].0 as int));
                            }
                        } else {
                            assert(after[c] == before[c]);
                            assert(occupied(active@, membership@, before[c]@[i].0 as int));
                        }
                    }
                }
            }
        }
        proof {
            assert forall|wanted: spec_fn(int, int) -> bool| #[trigger]
                weight_where(coarse@, wanted) == read_weight(
                    graph@,
                    membership@,
                    wanted,
                    source + 1,
                    0,
                ) by {
                assert(weight_where(coarse@, wanted) == read_weight(
                    graph@,
                    membership@,
                    wanted,
                    source as int,
                    row@.len() as int,
                ));
                lemma_row_read(graph@, membership@, wanted, source as int);
            }
        }
    }
    proof {
        reveal(coarsens);
        assert forall|wanted: spec_fn(int, int) -> bool| #[trigger]
            weight_where(coarse@, wanted) == weight_where(graph@, pulled(wanted, membership@)) by {
            assert(weight_where(coarse@, wanted) == read_weight(
                graph@,
                membership@,
                wanted,
                node_count as int,
                0,
            ));
        }
    }
    Ok(coarse)
}

/// Rows lead from occupied communities to occupied communities, in ascending order.
pub closed spec fn coarse_graph(
    coarse: Seq<Vec<(usize, u64)>>,
    active: Seq<bool>,
    membership: Seq<usize>,
) -> bool {
    coarse_rows(coarse, active, membership)
}

proof fn lemma_empty_weight(
    graph: Seq<Vec<(usize, u64)>>,
    wanted: spec_fn(int, int) -> bool,
    count: int,
)
    requires
        0 <= count <= graph.len(),
        forall|x: int| 0 <= x < graph.len() ==> (#[trigger] graph[x])@.len() == 0,
    ensures
        partial_weight(graph, wanted, count) == 0,
    decreases count,
{
    if count > 0 {
        lemma_empty_weight(graph, wanted, count - 1);
        assert(graph[count - 1]@.len() == 0);
    }
}

/// A row that is read completely counts as one of the rows read.
proof fn lemma_row_read(
    graph: Seq<Vec<(usize, u64)>>,
    membership: Seq<usize>,
    wanted: spec_fn(int, int) -> bool,
    row: int,
)
    requires
        0 <= row < graph.len(),
    ensures
        read_weight(graph, membership, wanted, row + 1, 0) == read_weight(
            graph,
            membership,
            wanted,
            row,
            graph[row]@.len() as int,
        ),
{
    let seen = pulled(wanted, membership);
    assert(graph[row]@.subrange(0, graph[row]@.len() as int) =~= graph[row]@);
    lemma_row_sum_same(graph[row]@, |to: int| seen(row, to), from_row(seen, row));
    if row + 1 < graph.len() {
        assert(graph[row + 1]@.subrange(0, 0) =~= Seq::empty());
    }
}

/// One more entry fits: everything added so far is part of the total weight.
proof fn lemma_room(
    graph: Seq<Vec<(usize, u64)>>,
    membership: Seq<usize>,
    coarse: Seq<Vec<(usize, u64)>>,
    source: int,
    index: int,
    community: int,
)
    requires
        coarse.len() == graph.len(),
        0 <= source < graph.len(),
        0 <= index < graph[source]@.len(),
        0 <= community < coarse.len(),
        total_weight(graph) <= u64::MAX,
        forall|wanted: spec_fn(int, int) -> bool| #[trigger]
            weight_where(coarse, wanted) == read_weight(graph, membership, wanted, source, index),
    ensures
        row_sum(coarse[community]@, every_target()) + graph[source]@[index].1 <= u64::MAX,
{
    let all = every_pair();
    let seen = pulled(all, membership);
    assert(weight_where(coarse, all) == read_weight(graph, membership, all, source, index));
    // What the coarse graph holds, with the next entry, is read from the fine graph.
    let row = graph[source]@;
    let head = row.subrange(0, index);
    let longer = row.subrange(0, index + 1);
    assert(longer.drop_last() =~= head);
    assert(row_sum(longer, from_row(seen, source)) == row_sum(head, from_row(seen, source))
        + row[index].1);
    lemma_prefix_all(row, from_row(seen, source), index + 1);
    lemma_row_sum_bounds(row, from_row(seen, source));
    lemma_partial_all(graph, seen, source);
    lemma_row_sum_same(row, |to: int| every_pair()(source, to), every_target());
    lemma_partial_grows(graph, every_pair(), source + 1, graph.len() as int);
    // One coarse row is part of the coarse graph.
    lemma_one_source(
        coarse,
        community,
        every_target(),
        coarse.len() as int,
    );
    lemma_bounds(coarse, from_node(community, every_target()));
}

proof fn lemma_prefix_all(row: Seq<(usize, u64)>, wanted: spec_fn(int) -> bool, count: int)
    requires
        0 <= count <= row.len(),
    ensures
        row_sum(row.subrange(0, count), wanted) <= row_sum(row, wanted),
    decreases row.len() - count,
{
    if count < row.len() {
        lemma_prefix_all(row, wanted, count + 1);
        assert(row.subrange(0, count + 1).drop_last() =~= row.subrange(0, count));
    } else {
        assert(row.subrange(0, count) =~= row);
    }
}

proof fn lemma_partial_all(
    graph: Seq<Vec<(usize, u64)>>,
    wanted: spec_fn(int, int) -> bool,
    count: int,
)
    requires
        0 <= count <= graph.len(),
    ensures
        partial_weight(graph, wanted, count) <= partial_weight(graph, every_pair(), count),
{
    lemma_partial_bounds(graph, wanted, count);
}


/// A membership of the nodes of a coarse graph, read on the nodes that were merged.
pub open spec fn composed(membership: Seq<usize>, merged: Seq<usize>) -> Seq<usize> {
    Seq::new(merged.len(), |node: int| membership[merged[node] as int])
}

/// Labels that are nodes.
spec fn labels_inside(labels: Seq<usize>, count: nat) -> bool {
    labels.len() == count && forall|node: int| 0 <= node < count ==> #[trigger] labels[node] < count
}

/// A coarse graph has the modularity of what it was merged from.
proof fn lemma_modularity_kept(
    coarse: Seq<Vec<(usize, u64)>>,
    fine: Seq<Vec<(usize, u64)>>,
    merged: Seq<usize>,
    membership: Seq<usize>,
)
    requires
        coarse.len() == fine.len(),
        targets_inside(fine),
        labels_inside(merged, fine.len()),
        labels_inside(membership, fine.len()),
        coarsens(coarse, fine, merged),
    ensures
        modularity(coarse, membership) == modularity(fine, composed(membership, merged)),
        total_weight(coarse) == total_weight(fine),
{
    let both = composed(membership, merged);
    lemma_same(fine, pulled(every_pair(), merged), every_pair());
    lemma_merged_weight(coarse, fine, merged, every_pair());
    lemma_same(fine, pulled(together(membership), merged), together(both));
    lemma_merged_weight(coarse, fine, merged, together(membership));
    lemma_degrees_kept(coarse, fine, merged, membership, fine.len() as int);
}

proof fn lemma_community_kept(
    coarse: Seq<Vec<(usize, u64)>>,
    fine: Seq<Vec<(usize, u64)>>,
    merged: Seq<usize>,
    membership: Seq<usize>,
    community: int,
)
    requires
        coarse.len() == fine.len(),
        targets_inside(fine),
        labels_inside(merged, fine.len()),
        coarsens(coarse, fine, merged),
    ensures
        community_degree(coarse, membership, community) == community_degree(
            fine,
            composed(membership, merged),
            community,
        ),
{
    let wanted = leaving(membership, community);
    lemma_same(fine, pulled(wanted, merged), leaving(composed(membership, merged), community));
    lemma_merged_weight(coarse, fine, merged, wanted);
}

proof fn lemma_degrees_kept(
    coarse: Seq<Vec<(usize, u64)>>,
    fine: Seq<Vec<(usize, u64)>>,
    merged: Seq<usize>,
    membership: Seq<usize>,
    count: int,
)
    requires
        coarse.len() == fine.len(),
        targets_inside(fine),
        labels_inside(merged, fine.len()),
        coarsens(coarse, fine, merged),
    ensures
        squared_degrees(coarse, membership, count) == squared_degrees(
            fine,
            composed(membership, merged),
            count,
        ),
    decreases count,
{
    if count > 0 {
        lemma_degrees_kept(coarse, fine, merged, membership, count - 1);
        lemma_community_kept(coarse, fine, merged, membership, count - 1);
    }
}

/// Merging twice is merging once.
proof fn lemma_coarsened_twice(
    coarsest: Seq<Vec<(usize, u64)>>,
    coarse: Seq<Vec<(usize, u64)>>,
    fine: Seq<Vec<(usize, u64)>>,
    merged: Seq<usize>,
    membership: Seq<usize>,
)
    requires
        coarse.len() == fine.len(),
        targets_inside(fine),
        labels_inside(merged, fine.len()),
        coarsens(coarse, fine, merged),
        coarsens(coarsest, coarse, membership),
    ensures
        coarsens(coarsest, fine, composed(membership, merged)),
{
    let both = composed(membership, merged);
    reveal(coarsens);
    assert forall|wanted: spec_fn(int, int) -> bool| #[trigger]
        weight_where(coarsest, wanted) == weight_where(fine, pulled(wanted, both)) by {
        let once = pulled(wanted, membership);
        lemma_merged_weight(coarsest, coarse, membership, wanted);
        lemma_merged_weight(coarse, fine, merged, once);
        lemma_same(fine, pulled(once, merged), pulled(wanted, both));
    }
}

/// Merging the nodes of an undirected graph leaves it undirected.
proof fn lemma_coarse_undirected(
    coarse: Seq<Vec<(usize, u64)>>,
    fine: Seq<Vec<(usize, u64)>>,
    merged: Seq<usize>,
)
    requires
        targets_inside(fine),
        undirected(fine),
        coarsens(coarse, fine, merged),
    ensures
        undirected(coarse),
{
    reveal(undirected);
    assert forall|wanted: spec_fn(int, int) -> bool| #[trigger]
        weight_where(coarse, wanted) == weight_where(coarse, flipped(wanted)) by {
        let seen = pulled(wanted, merged);
        lemma_merged_weight(coarse, fine, merged, wanted);
        lemma_either_way(fine, seen);
        lemma_merged_weight(coarse, fine, merged, flipped(wanted));
        lemma_same(fine, flipped(seen), pulled(flipped(wanted), merged));
    }
}

/// Merging two communities gains no modularity: the weight between them is at most what their
/// degrees would give at random.
pub open spec fn worth_parting(
    graph: Seq<Vec<(usize, u64)>>,
    membership: Seq<usize>,
    left: int,
    right: int,
) -> bool {
    total_weight(graph) * weight_where(graph, between(membership, left, right))
        <= community_degree(graph, membership, left) * community_degree(graph, membership, right)
}

/// No two communities can be merged with a gain.
pub open spec fn no_merge_gains(graph: Seq<Vec<(usize, u64)>>, membership: Seq<usize>) -> bool {
    forall|left: int, right: int|
        left != right ==> #[trigger] worth_parting(graph, membership, left, right)
}

/// Where no two communities can be merged with a gain, merging two of them never raises modularity.
pub proof fn law_merging_raises_no_modularity(
    graph: Seq<Vec<(usize, u64)>>,
    membership: Seq<usize>,
    left: usize,
    right: usize,
)
    requires
        targets_inside(graph),
        undirected(graph),
        membership.len() == graph.len(),
        left < graph.len(),
        right < graph.len(),
        left != right,
        no_merge_gains(graph, membership),
    ensures
        modularity(graph, joined(membership, left, right)) <= modularity(graph, membership),
{
    assert(worth_parting(graph, membership, left as int, right as int));
    law_merge_changes_modularity(graph, membership, left, right);
}

/// Active nodes have communities of their own.
spec fn parted(active: Seq<bool>, membership: Seq<usize>) -> bool {
    forall|a: int, b: int|
        #![trigger membership[a], membership[b]]
        0 <= a < active.len() && 0 <= b < active.len() && active[a] && active[b] && membership[a]
            == membership[b] ==> a == b
}

proof fn lemma_row_entry(row: Seq<(usize, u64)>, wanted: spec_fn(int) -> bool) -> (index: int)
    requires
        row_sum(row, wanted) > 0,
    ensures
        0 <= index < row.len(),
        wanted(row[index].0 as int),
    decreases row.len(),
{
    if wanted(row.last().0 as int) {
        row.len() - 1
    } else {
        lemma_row_entry(row.drop_last(), wanted)
    }
}

/// Weight comes from some entry.
proof fn lemma_some_entry(
    graph: Seq<Vec<(usize, u64)>>,
    wanted: spec_fn(int, int) -> bool,
    count: int,
) -> (entry: (int, int))
    requires
        0 <= count <= graph.len(),
        partial_weight(graph, wanted, count) > 0,
    ensures
        0 <= entry.0 < count,
        0 <= entry.1 < graph[entry.0]@.len(),
        wanted(entry.0, graph[entry.0]@[entry.1].0 as int),
    decreases count,
{
    let last = |to: int| wanted(count - 1, to);
    if row_sum(graph[count - 1]@, last) > 0 {
        (count - 1, lemma_row_entry(graph[count - 1]@, last))
    } else {
        lemma_some_entry(graph, wanted, count - 1)
    }
}

/// Where each node that can move is in a community of its own, or all are in one, and none can move
/// with a gain, no two communities can be merged with a gain.
proof fn lemma_settled_communities(
    graph: Seq<Vec<(usize, u64)>>,
    active: Seq<bool>,
    membership: Seq<usize>,
)
    requires
        movable(graph, active),
        local_move_result(graph, active, membership),
        parted(active, membership) || forall|a: int, b: int|
            #![trigger membership[a], membership[b]]
            0 <= a < active.len() && 0 <= b < active.len() && active[a] && active[b]
                ==> membership[a] == membership[b],
    ensures
        no_merge_gains(graph, membership),
{
    assert forall|left: int, right: int| left != right implies #[trigger] worth_parting(
        graph,
        membership,
        left,
        right,
    ) by {
        let wanted = between(membership, left, right);
        let weight = weight_where(graph, wanted);
        let a_degree = community_degree(graph, membership, left);
        let b_degree = community_degree(graph, membership, right);
        lemma_bounds(graph, wanted);
        lemma_bounds(graph, leaving(membership, left));
        lemma_bounds(graph, leaving(membership, right));
        if weight > 0 {
            let entry = lemma_some_entry(graph, wanted, graph.len() as int);
            let a = entry.0;
            let b = graph[a]@[entry.1].0 as int;
            assert(active[b]);
            assert(active[a]);
            assert(membership[a] == left && membership[b] == right);
            assert(parted(active, membership));
            assert(settled_node(graph, membership, a));
            assert(stays(graph, membership, a, b));
            lemma_lone_source(graph, active, membership, a);
            let inside = other_member(membership, a, right);
            let own = other_member(membership, a, left);
            // The community of `a` holds `a` alone.
            assert(link(graph, membership, a, left) == 0) by {
                lemma_row_sum_bounds(graph[a]@, own);
                if row_sum(graph[a]@, own) > 0 {
                    let i = lemma_row_entry(graph[a]@, own);
                    let to = graph[a]@[i].0 as int;
                    assert(active[to]);
                    assert(membership[to] == membership[a]);
                }
            }
            assert(weight == link(graph, membership, a, right)) by {
                lemma_one_source(graph, a, inside, graph.len() as int);
                lemma_same_entries(graph, wanted, from_node(a, inside));
            }
            assert(gain(graph, membership, a, right) == total_weight(graph) * weight - degree_of(
                graph,
                a,
            ) * b_degree) by {
                assert(a_degree == degree_of(graph, a));
                assert(b_degree - a_degree + degree_of(graph, a) == b_degree);
                assert(link(graph, membership, a, right) - link(graph, membership, a, left) == weight);
            }
        } else {
            assert(total_weight(graph) * weight == 0) by (nonlinear_arith)
                requires
                    weight == 0,
            ;
            assert(0 <= a_degree * b_degree) by (nonlinear_arith)
                requires
                    0 <= a_degree,
                    0 <= b_degree,
            ;
        }
    }
}

/// Predicates that agree on the entries of a graph weigh the same.
proof fn lemma_same_entries(
    graph: Seq<Vec<(usize, u64)>>,
    left: spec_fn(int, int) -> bool,
    right: spec_fn(int, int) -> bool,
)
    requires
        forall|x: int, i: int|
            #![trigger graph[x]@[i]]
            0 <= x < graph.len() && 0 <= i < graph[x]@.len() ==> left(x, graph[x]@[i].0 as int)
                == right(x, graph[x]@[i].0 as int),
    ensures
        weight_where(graph, left) == weight_where(graph, right),
{
    lemma_same_entries_below(graph, left, right, graph.len() as int);
}

proof fn lemma_same_entries_below(
    graph: Seq<Vec<(usize, u64)>>,
    left: spec_fn(int, int) -> bool,
    right: spec_fn(int, int) -> bool,
    count: int,
)
    requires
        0 <= count <= graph.len(),
        forall|x: int, i: int|
            #![trigger graph[x]@[i]]
            0 <= x < graph.len() && 0 <= i < graph[x]@.len() ==> left(x, graph[x]@[i].0 as int)
                == right(x, graph[x]@[i].0 as int),
    ensures
        partial_weight(graph, left, count) == partial_weight(graph, right, count),
    decreases count,
{
    if count > 0 {
        lemma_same_entries_below(graph, left, right, count - 1);
        lemma_row_sum_same(
            graph[count - 1]@,
            |to: int| left(count - 1, to),
            |to: int| right(count - 1, to),
        );
    }
}

/// A community of one node weighs what the node weighs.
proof fn lemma_lone_source(
    graph: Seq<Vec<(usize, u64)>>,
    active: Seq<bool>,
    membership: Seq<usize>,
    node: int,
)
    requires
        movable(graph, active),
        membership.len() == graph.len(),
        parted(active, membership),
        0 <= node < graph.len(),
        active[node],
    ensures
        community_degree(graph, membership, membership[node] as int) == degree_of(graph, node),
{
    let left = leaving(membership, membership[node] as int);
    let right = from_node(node, every_target());
    assert forall|x: int, i: int|
        #![trigger graph[x]@[i]]
        0 <= x < graph.len() && 0 <= i < graph[x]@.len() implies left(x, graph[x]@[i].0 as int)
        == right(x, graph[x]@[i].0 as int) by {
        assert(active[x]);
        if membership[x] == membership[node] {
            assert(x == node);
        }
    }
    lemma_same_entries(graph, left, right);
    lemma_one_source(graph, node, every_target(), graph.len() as int);
}

/// What no merge gains on a coarse graph, none gains on the graph it was merged from.
proof fn lemma_no_merge_kept(
    coarse: Seq<Vec<(usize, u64)>>,
    fine: Seq<Vec<(usize, u64)>>,
    merged: Seq<usize>,
    membership: Seq<usize>,
)
    requires
        coarse.len() == fine.len(),
        targets_inside(fine),
        labels_inside(merged, fine.len()),
        labels_inside(membership, fine.len()),
        coarsens(coarse, fine, merged),
        no_merge_gains(coarse, membership),
    ensures
        no_merge_gains(fine, composed(membership, merged)),
{
    let both = composed(membership, merged);
    assert forall|left: int, right: int| left != right implies #[trigger] worth_parting(
        fine,
        both,
        left,
        right,
    ) by {
        assert(worth_parting(coarse, membership, left, right));
        lemma_modularity_kept(coarse, fine, merged, membership);
        lemma_community_kept(coarse, fine, merged, membership, left);
        lemma_community_kept(coarse, fine, merged, membership, right);
        let wanted = between(membership, left, right);
        lemma_same(fine, pulled(wanted, merged), between(both, left, right));
        lemma_merged_weight(coarse, fine, merged, wanted);
    }
}

/// Communities of nodes that were named in the order in which they first occur.
pub open spec fn same_groups(labels: Seq<usize>, component: Seq<u32>) -> bool {
    &&& component.len() == labels.len()
    &&& forall|u: int, v: int|
        #![trigger component[u], component[v]]
        0 <= u < labels.len() && 0 <= v < labels.len() ==> (component[u] == component[v]
            <==> labels[u] == labels[v])
}

/// One level of the method: a graph of merged nodes, those of them that have edges, the merged node
/// of every node, and the communities of the merged nodes.
pub struct Level {
    pub graph: Seq<Vec<(usize, u64)>>,
    pub active: Seq<bool>,
    pub merged: Seq<usize>,
    pub membership: Seq<usize>,
}

/// The communities that hold an active node.
pub open spec fn occupied_marks(active: Seq<bool>, membership: Seq<usize>) -> Seq<bool> {
    Seq::new(active.len(), |community: int| occupied(active, membership, community))
}

/// At the first level every node stands for itself.
pub open spec fn begins(
    first: Seq<Vec<(usize, u64)>>,
    graph: Seq<Vec<(usize, u64)>>,
    active: Seq<bool>,
    merged: Seq<usize>,
) -> bool {
    &&& graph == first
    &&& active == Seq::new(first.len(), |node: int| first[node]@.len() > 0)
    &&& merged == singletons(first.len())
}

/// At a further level the communities of the level before have become nodes.
pub open spec fn continues(
    before: Level,
    graph: Seq<Vec<(usize, u64)>>,
    active: Seq<bool>,
    merged: Seq<usize>,
) -> bool {
    &&& graph.len() == before.graph.len()
    &&& coarsens(graph, before.graph, before.membership)
    &&& ascending_rows(graph)
    &&& positive_rows(graph)
    &&& active == occupied_marks(before.active, before.membership)
    &&& merged == composed(before.membership, before.merged)
}

/// The level after these.
pub open spec fn stands(
    first: Seq<Vec<(usize, u64)>>,
    levels: Seq<Level>,
    graph: Seq<Vec<(usize, u64)>>,
    active: Seq<bool>,
    merged: Seq<usize>,
) -> bool {
    if levels.len() == 0 {
        begins(first, graph, active, merged)
    } else {
        continues(levels.last(), graph, active, merged)
    }
}

/// Nothing was merged, or nothing is left to merge.
pub open spec fn stops(level: Level) -> bool {
    let left = marked(occupied_marks(level.active, level.membership));
    left == marked(level.active) || left <= 1
}

/// Each level follows those before it, and local moving gave its communities.
pub open spec fn level_chain(first: Seq<Vec<(usize, u64)>>, levels: Seq<Level>) -> bool {
    forall|i: int|
        0 <= i < levels.len() ==> {
            let level = #[trigger] levels[i];
            &&& stands(first, levels.take(i), level.graph, level.active, level.merged)
            &&& comes_to_rest(level.graph, level.active, level.membership)
            &&& i < levels.len() - 1 ==> !stops(level)
        }
}

/// The levels from a graph up to the first that stops, and the community of every node there.
pub open spec fn multilevel(
    first: Seq<Vec<(usize, u64)>>,
    levels: Seq<Level>,
    labels: Seq<usize>,
) -> bool {
    &&& levels.len() > 0
    &&& level_chain(first, levels)
    &&& stops(levels.last())
    &&& labels == composed(levels.last().membership, levels.last().merged)
}

/// One more level on top of levels that all go on.
proof fn lemma_level_added(first: Seq<Vec<(usize, u64)>>, levels: Seq<Level>, level: Level)
    requires
        level_chain(first, levels),
        levels.len() > 0 ==> !stops(levels.last()),
        stands(first, levels, level.graph, level.active, level.merged),
        comes_to_rest(level.graph, level.active, level.membership),
    ensures
        level_chain(first, levels.push(level)),
{
    let longer = levels.push(level);
    assert forall|i: int| 0 <= i < longer.len() implies {
        let level = #[trigger] longer[i];
        &&& stands(first, longer.take(i), level.graph, level.active, level.merged)
        &&& comes_to_rest(level.graph, level.active, level.membership)
        &&& i < longer.len() - 1 ==> !stops(level)
    } by {
        assert(longer.take(i) =~= levels.take(i));
        if i < levels.len() {
            let held = levels[i];
        } else {
            assert(levels.take(i) =~= levels);
        }
    }
}

/// What the multilevel method gives: the communities of its last level, named in the order in which
/// they first occur. They are at least as good as single nodes, no two of them can be merged with a
/// gain, and each node without a neighbor stays alone.
pub open spec fn communities_found(
    outgoing: Csr,
    incoming: Csr,
    component: Seq<u32>,
    count: int,
) -> bool {
    &&& component.len() == outgoing.node_total()
    &&& canonical(component, count)
    &&& exists|graph: Seq<Vec<(usize, u64)>>, labels: Seq<usize>| #[trigger]
        unit_graph(outgoing, incoming, graph) && #[trigger] same_groups(labels, component)
            && good_communities(graph, labels) && exists|levels: Seq<Level>| #[trigger]
            multilevel(graph, levels, labels)
}

/// Communities at least as good as single nodes, which neither merging two of them nor adding a node
/// without a neighbor improves.
pub open spec fn good_communities(graph: Seq<Vec<(usize, u64)>>, labels: Seq<usize>) -> bool {
    &&& labels.len() == graph.len()
    &&& forall|node: int| 0 <= node < labels.len() ==> #[trigger] labels[node] < graph.len()
    &&& modularity(graph, labels) >= modularity(graph, singletons(graph.len()))
    &&& no_merge_gains(graph, labels)
    &&& forall|node: int, other: int|
        #![trigger labels[node], labels[other]]
        0 <= node < graph.len() && 0 <= other < graph.len() && graph[node]@.len() == 0
            && labels[node] == labels[other] ==> node == other
}

/// Names in use are below `next`, each for one label.
spec fn named(labels: Seq<usize>, names: Seq<Option<u32>>, result: Seq<u32>, next: int) -> bool {
    &&& result.len() <= labels.len()
    &&& 0 <= next <= result.len()
    &&& forall|v: int|
        0 <= v < result.len() ==> names[labels[v] as int] == Some(#[trigger] result[v]) && result[v]
            < next
    &&& forall|a: int, b: int|
        0 <= a < names.len() && 0 <= b < names.len() && #[trigger] names[a] == #[trigger] names[b]
            && names[a] is Some ==> a == b
    &&& forall|a: int|
        0 <= a < names.len() && (#[trigger] names[a]) is Some ==> names[a]->Some_0 < next
    &&& forall|id: int|
        0 <= id < next ==> #[trigger] occurs_before(result, result.len() as int, id)
    &&& forall|v: int, id: int|
        0 <= v < result.len() && 0 <= id < result[v] ==> #[trigger] occurs_before(result, v, id)
}

/// Names communities in the order in which they first occur.
fn name_communities(labels: &Vec<usize>) -> (components: Components)
    requires
        labels.len() <= u32::MAX,
        labels_inside(labels@, labels@.len()),
    ensures
        canonical(components.component@, components.count as int),
        same_groups(labels@, components.component@),
{
    let mut names: Vec<Option<u32>> = vec![None; labels.len()];
    let mut result: Vec<u32> = Vec::with_capacity(labels.len());
    let mut next: u32 = 0;
    for index in 0..labels.len()
        invariant
            labels.len() <= u32::MAX,
            labels_inside(labels@, labels@.len()),
            names.len() == labels.len(),
            result.len() == index,
            named(labels@, names@, result@, next as int),
    {
        let label: usize = labels[index];
        let ghost result0 = result@;
        let ghost names0 = names@;
        let ghost next0 = next;
        let id: u32 = match names[label] {
            Some(id) => id,
            None => {
                let id: u32 = next;
                names.set(label, Some(id));
                next = next + 1;
                id
            },
        };
        result.push(id);
        proof {
            assert forall|v: int| 0 <= v < result.len() implies names@[labels@[v] as int] == Some(
                #[trigger] result@[v],
            ) && result@[v] < next by {
                if v < index {
                    assert(result@[v] == result0[v]);
                    assert(names0[labels@[v] as int] == Some(result0[v]));
                } else {
                    assert(names@[label as int] == Some(id));
                }
            }
            assert forall|i: int| 0 <= i < next implies #[trigger] occurs_before(
                result@,
                result@.len() as int,
                i,
            ) by {
                if i < next0 {
                    assert(occurs_before(result0, index as int, i));
                    let u = choose|u: int| 0 <= u < index && #[trigger] result0[u] == i;
                    assert(result@[u] == i);
                } else {
                    assert(result@[index as int] == i);
                }
            }
            assert forall|v: int, i: int| 0 <= v < result.len()
                && 0 <= i < result@[v] implies #[trigger] occurs_before(
                result@,
                v,
                i,
            ) by {
                if v < index {
                    assert(occurs_before(result0, v, i));
                    let u = choose|u: int| 0 <= u < v && #[trigger] result0[u] == i;
                    assert(result@[u] == i);
                } else {
                    assert(i < next0);
                    assert(occurs_before(result0, index as int, i));
                    let u = choose|u: int| 0 <= u < index && #[trigger] result0[u] == i;
                    assert(result@[u] == i);
                }
            }
        }
    }
    proof {
        assert forall|u: int, v: int|
            #![trigger result@[u], result@[v]]
            0 <= u < labels.len() && 0 <= v < labels.len() implies (result@[u] == result@[v]
            <==> labels@[u] == labels@[v]) by {
            let a = labels@[u] as int;
            let b = labels@[v] as int;
            assert(names@[a] == Some(result@[u]));
            assert(names@[b] == Some(result@[v]));
        }
    }
    Components { component: result, count: next }
}

/// Counts marks.
fn count_marked(marks: &Vec<bool>) -> (count: usize)
    ensures
        count == marked(marks@),
{
    let mut count: usize = 0;
    for index in 0..marks.len()
        invariant
            count == marked(marks@.subrange(0, index as int)),
            count <= index,
    {
        if marks[index] {
            count = count + 1;
        }
        assert(marks@.subrange(0, index + 1).drop_last() =~= marks@.subrange(0, index as int));
    }
    assert(marks@.subrange(0, marks@.len() as int) =~= marks@);
    count
}

/// Marks the communities that hold an active node.
fn mark_occupied(active: &Vec<bool>, membership: &Vec<usize>) -> (occupied_by: Vec<bool>)
    requires
        assigned(active@, membership@),
    ensures
        occupied_by.len() == active.len(),
        forall|community: int|
            0 <= community < active.len() ==> #[trigger] occupied_by@[community] == occupied(
                active@,
                membership@,
                community,
            ),
        marked(occupied_by@) <= marked(active@),
        marked(occupied_by@) == marked(active@) ==> parted(active@, membership@),
        occupied_by@ == occupied_marks(active@, membership@),
{
    let node_count: usize = active.len();
    let mut next: Vec<bool> = vec![false; node_count];
    proof {
        lemma_marked_bounds(next@);
    }
    for node in 0..node_count
        invariant
            node_count == active.len(),
            assigned(active@, membership@),
            next.len() == node_count,
            forall|community: int|
                0 <= community < node_count ==> #[trigger] next@[community] == occupied(
                    active@.subrange(0, node as int),
                    membership@,
                    community,
                ),
            marked(next@) <= marked(active@.subrange(0, node as int)),
            marked(next@) == marked(active@.subrange(0, node as int)) ==> parted(
                active@.subrange(0, node as int),
                membership@,
            ),
    {
        let ghost seen = active@.subrange(0, node as int);
        let ghost more = active@.subrange(0, node + 1);
        let ghost before = next@;
        assert(more.drop_last() =~= seen);
        assert(more.last() == active@[node as int]);
        if active[node] {
            let community: usize = membership[node];
            proof {
                if !before[community as int] {
                    lemma_marked_step(before, community as int);
                } else {
                    assert(before.update(community as int, true) =~= before);
                }
            }
            next.set(community, true);
        }
        proof {
            assert forall|c: int| 0 <= c < node_count implies #[trigger] next@[c] == occupied(
                more,
                membership@,
                c,
            ) by {
                assert(before[c] == occupied(seen, membership@, c));
                if occupied(seen, membership@, c) {
                    let x = choose|x: int|
                        0 <= x < seen.len() && seen[x] && #[trigger] membership@[x] == c;
                    assert(more[x] && membership@[x] == c);
                }
                if occupied(more, membership@, c) {
                    let x = choose|x: int|
                        0 <= x < more.len() && more[x] && #[trigger] membership@[x] == c;
                    if x < node {
                        assert(seen[x] && membership@[x] == c);
                    }
                }
                if active@[node as int] && c == membership@[node as int] {
                    assert(more[node as int]);
                    assert(occupied(more, membership@, c));
                }
            }
            if marked(next@) == marked(more) {
                assert(parted(seen, membership@));
                assert forall|a: int, b: int|
                    #![trigger membership@[a], membership@[b]]
                    0 <= a < more.len() && 0 <= b < more.len() && more[a] && more[b]
                        && membership@[a] == membership@[b] implies a == b by {
                    if a < node && b < node {
                        assert(seen[a] && seen[b]);
                    } else if a != b {
                        let other = if a < node {
                            a
                        } else {
                            b
                        };
                        assert(seen[other]);
                        assert(occupied(seen, membership@, membership@[other] as int));
                        assert(before[membership@[node as int] as int]);
                    }
                }
            }
        }
    }
    assert(active@.subrange(0, node_count as int) =~= active@);
    assert(next@ =~= occupied_marks(active@, membership@));
    next
}

/// Where at most one community is occupied, all active nodes are in it.
proof fn lemma_one_community(active: Seq<bool>, membership: Seq<usize>, next: Seq<bool>)
    requires
        assigned(active, membership),
        next.len() == active.len(),
        forall|community: int|
            0 <= community < active.len() ==> #[trigger] next[community] == occupied(
                active,
                membership,
                community,
            ),
        marked(next) <= 1,
    ensures
        forall|a: int, b: int|
            #![trigger membership[a], membership[b]]
            0 <= a < active.len() && 0 <= b < active.len() && active[a] && active[b]
                ==> membership[a] == membership[b],
{
    assert forall|a: int, b: int|
        #![trigger membership[a], membership[b]]
        0 <= a < active.len() && 0 <= b < active.len() && active[a] && active[b] implies membership[a]
        == membership[b] by {
        assert(occupied(active, membership, membership[a] as int));
        assert(occupied(active, membership, membership[b] as int));
        if membership[a] != membership[b] {
            lemma_two_marks(next, membership[a] as int, membership[b] as int);
        }
    }
}

proof fn lemma_two_marks(marks: Seq<bool>, left: int, right: int)
    requires
        0 <= left < marks.len(),
        0 <= right < marks.len(),
        left != right,
        marks[left],
        marks[right],
    ensures
        marked(marks) >= 2,
{
    let one = marks.update(left, false);
    let none = one.update(right, false);
    lemma_marked_step(one, left);
    assert(one.update(left, true) =~= marks);
    lemma_marked_step(none, right);
    assert(none.update(right, true) =~= one);
    lemma_marked_bounds(none);
}

/// Deterministic multilevel Louvain.
pub fn louvain_communities(outgoing: &Csr, incoming: &Csr) -> (result: Result<Components>)
    requires
        outgoing.targets_are_rows(),
        incoming.targets_are_rows(),
        mirrored(*outgoing, *incoming),
        outgoing.node_total() <= u32::MAX,
    ensures
        if outgoing.spec_offsets().len() == incoming.spec_offsets().len() {
            result matches Ok(components) && communities_found(
                *outgoing,
                *incoming,
                components.component@,
                components.count as int,
            )
        } else {
            fails_with(result, ErrorCode::InvalidData, "CSR and CSC node counts differ"@)
        },
{
    louvain_communities_cancellable(outgoing, incoming, never_cancelled)
}

/// Where the multilevel loop stands: `graph` is `first` with the nodes merged that `merged` gives one
/// label.
spec fn level(
    first: Seq<Vec<(usize, u64)>>,
    graph: Seq<Vec<(usize, u64)>>,
    merged: Seq<usize>,
    active: Seq<bool>,
) -> bool {
    &&& graph.len() == first.len()
    &&& targets_inside(first)
    &&& undirected(first)
    &&& total_weight(first) <= u64::MAX
    &&& labels_inside(merged, first.len())
    &&& coarsens(graph, first, merged)
    &&& movable(graph, active)
    &&& modularity(first, merged) >= modularity(first, singletons(first.len()))
    &&& positive_rows(graph)
    &&& forall|node: int|
        0 <= node < first.len() ==> if (#[trigger] first[node])@.len() == 0 {
            merged[node] == node && !active[node]
        } else {
            active[merged[node] as int]
        }
}

proof fn lemma_first_level(first: Seq<Vec<(usize, u64)>>, merged: Seq<usize>, active: Seq<bool>)
    requires
        first.len() <= usize::MAX,
        targets_inside(first),
        undirected(first),
        positive_rows(first),
        total_weight(first) <= u64::MAX,
        merged == singletons(first.len()),
        active.len() == first.len(),
        forall|node: int|
            0 <= node < first.len() ==> #[trigger] active[node] == (first[node]@.len() > 0),
        forall|node: int, i: int|
            0 <= node < first.len() && 0 <= i < first[node]@.len() ==> first[(
            #[trigger] first[node]@[i]).0 as int]@.len() > 0,
    ensures
        level(first, first, merged, active),
{
    reveal(coarsens);
    assert forall|wanted: spec_fn(int, int) -> bool| #[trigger]
        weight_where(first, wanted) == weight_where(first, pulled(wanted, merged)) by {
        lemma_same(first, pulled(wanted, merged), wanted);
    }
    assert forall|node: int, i: int|
        0 <= node < first.len() && 0 <= i < first[node]@.len() implies active[(
    #[trigger] first[node]@[i]).0 as int] by {
        assert(first[first[node]@[i].0 as int]@.len() > 0);
    }
}

/// One more level: the communities of a level, and the level that merging them gives.
proof fn lemma_next_level(
    first: Seq<Vec<(usize, u64)>>,
    graph: Seq<Vec<(usize, u64)>>,
    merged: Seq<usize>,
    active: Seq<bool>,
    membership: Seq<usize>,
    next: Seq<bool>,
)
    requires
        first.len() <= usize::MAX,
        level(first, graph, merged, active),
        local_move_result(graph, active, membership),
        next.len() == active.len(),
        forall|community: int|
            0 <= community < active.len() ==> #[trigger] next[community] == occupied(
                active,
                membership,
                community,
            ),
    ensures
        labels_inside(composed(membership, merged), first.len()),
        modularity(first, composed(membership, merged)) >= modularity(
            first,
            singletons(first.len()),
        ),
        forall|node: int|
            0 <= node < first.len() ==> if (#[trigger] first[node])@.len() == 0 {
                composed(membership, merged)[node] == node && !next[node]
            } else {
                next[composed(membership, merged)[node] as int]
            },
{
    let both = composed(membership, merged);
    lemma_modularity_kept(graph, first, merged, membership);
    lemma_modularity_kept(graph, first, merged, singletons(first.len()));
    assert(composed(singletons(first.len()), merged) =~= merged);
    assert forall|node: int| 0 <= node < first.len() implies if (#[trigger] first[node])@.len()
        == 0 {
        both[node] == node && !next[node]
    } else {
        next[both[node] as int]
    } by {
        if first[node]@.len() == 0 {
            if occupied(active, membership, node) {
                let x = choose|x: int|
                    0 <= x < active.len() && active[x] && #[trigger] membership[x] == node;
                assert(active[membership[x] as int]);
            }
        } else {
            let x = merged[node] as int;
            assert(active[x] && membership[x] == both[node]);
            assert(occupied(active, membership, both[node] as int));
        }
    }
}

/// Deterministic multilevel Louvain with cancellation checks.
#[verifier::rlimit(40)]
#[verifier::spinoff_prover]
pub fn louvain_communities_cancellable<F: FnMut() -> Result<()>>(
    outgoing: &Csr,
    incoming: &Csr,
    check: F,
) -> (result: Result<Components>)
    requires
        outgoing.targets_are_rows(),
        incoming.targets_are_rows(),
        mirrored(*outgoing, *incoming),
        outgoing.node_total() <= u32::MAX,
        call_requires(check, ()),
    ensures
        if outgoing.spec_offsets().len() == incoming.spec_offsets().len() {
            match result {
                Ok(components) => {
                    &&& communities_found(
                        *outgoing,
                        *incoming,
                        components.component@,
                        components.count as int,
                    )
                    &&& outgoing.node_total() > 0 ==> goes_on(check)
                },
                Err(error) => outgoing.node_total() > 0 && call_ensures(
                    check,
                    (),
                    Err::<(), Error>(error),
                ),
            }
        } else {
            fails_with(result, ErrorCode::InvalidData, "CSR and CSC node counts differ"@)
        },
{
    let mut poll = check;
    let lists = match undirected_neighbors(outgoing, incoming) {
        Ok(lists) => lists,
        Err(error) => {
            return Err(error);
        },
    };
    let node_count: usize = lists.len();
    let mut graph: WeightedGraph = unit_weights(&lists, Ghost(*outgoing), Ghost(*incoming));
    let ghost first = graph@;
    let mut merged: Vec<usize> = Vec::with_capacity(node_count);
    // Nodes without a neighbor cannot move with a gain, and stay out of local moving.
    let mut active: Vec<bool> = Vec::with_capacity(node_count);
    for node in 0..node_count
        invariant
            node_count == graph.len(),
            graph@ == first,
            merged.len() == node,
            active.len() == node,
            forall|x: int| 0 <= x < node ==> #[trigger] merged@[x] == x,
            forall|x: int| 0 <= x < node ==> #[trigger] active@[x] == (first[x]@.len() > 0),
    {
        merged.push(node);
        active.push(graph[node].len() > 0);
    }
    let mut active_count: usize = count_marked(&active);
    proof {
        lemma_unit_undirected(*outgoing, *incoming, first);
        lemma_unit_total(*outgoing, *incoming, first);
        assert(node_count * node_count <= u64::MAX) by (nonlinear_arith)
            requires
                0 <= node_count <= u32::MAX,
        ;
        assert forall|node: int, i: int|
            0 <= node < first.len() && 0 <= i < first[node]@.len() implies first[(
        #[trigger] first[node]@[i]).0 as int]@.len() > 0 by {
            lemma_unit_targets(*outgoing, *incoming, first, node, i);
        }
        assert(merged@ =~= singletons(first.len()));
        assert forall|node: int| 0 <= node < first.len() implies positive_row(
            (#[trigger] first[node])@,
        ) by {
            assert(unit_row(*outgoing, *incoming, node, first[node]@));
        }
        lemma_first_level(first, merged@, active@);
        assert(active@ =~= Seq::new(first.len(), |node: int| first[node]@.len() > 0));
    }
    let ghost mut levels: Seq<Level> = Seq::empty();
    let mut done = false;
    while !done
        invariant
            node_count == first.len(),
            node_count == outgoing.node_total(),
            node_count <= u32::MAX,
            unit_graph(*outgoing, *incoming, first),
            outgoing.spec_offsets().len() == incoming.spec_offsets().len(),
            poll == check,
            call_requires(poll, ()),
            level_chain(first, levels),
            done ==> good_communities(first, merged@) && multilevel(first, levels, merged@),
            done && node_count > 0 ==> goes_on(check),
            !done ==> stands(first, levels, graph@, active@, merged@) && (levels.len() > 0
                ==> !stops(levels.last())),
            !done ==> level(first, graph@, merged@, active@) && active_count == marked(active@),
        decreases active_count, !done as int,
    {
        if node_count > 0 {
            match ask(&mut poll) {
                Ok(_) => {},
                Err(error) => {
                    return Err(error);
                },
            }
        }
        let membership: Vec<usize> = match louvain_local_move(&graph, &active, &mut poll) {
            Ok(membership) => membership,
            Err(error) => {
                return Err(error);
            },
        };
        let next_active: Vec<bool> = mark_occupied(&active, &membership);
        let community_count: usize = count_marked(&next_active);
        let ghost before = merged@;
        for node in 0..node_count
            invariant
                node_count == before.len(),
                merged.len() == node_count,
                labels_inside(before, node_count as nat),
                membership.len() == node_count,
                forall|x: int| 0 <= x < node ==> #[trigger] merged@[x] == membership@[before[x] as int],
                forall|x: int| node <= x < node_count ==> #[trigger] merged@[x] == before[x],
        {
            let label: usize = membership[merged[node]];
            merged.set(node, label);
        }
        proof {
            assert(merged@ =~= composed(membership@, before));
            lemma_next_level(first, graph@, before, active@, membership@, next_active@);
            let current = Level {
                graph: graph@,
                active: active@,
                merged: before,
                membership: membership@,
            };
            lemma_level_added(first, levels, current);
            levels = levels.push(current);
        }
        if community_count == active_count || community_count <= 1 {
            proof {
                if community_count <= 1 {
                    lemma_one_community(active@, membership@, next_active@);
                }
                lemma_settled_communities(graph@, active@, membership@);
                lemma_no_merge_kept(graph@, first, before, membership@);
                assert forall|node: int, other: int|
                    #![trigger merged@[node], merged@[other]]
                    0 <= node < first.len() && 0 <= other < first.len() && first[node]@.len() == 0
                        && merged@[node] == merged@[other] implies node == other by {
                    assert(first[other]@.len() == 0 || next_active@[merged@[other] as int]);
                }
            }
            done = true;
        } else {
            let coarse: WeightedGraph = match coarsen_communities(
                &graph,
                &membership,
                &active,
                &mut poll,
            ) {
                Ok(coarse) => coarse,
                Err(error) => {
                    return Err(error);
                },
            };
            proof {
                lemma_coarsened_twice(coarse@, graph@, first, before, membership@);
                lemma_coarse_undirected(coarse@, first, merged@);
                lemma_modularity_kept(coarse@, first, merged@, merged@);
                assert(movable(coarse@, next_active@));
            }
            graph = coarse;
            active = next_active;
            active_count = community_count;
        }
    }
    let components = name_communities(&merged);
    proof {
        assert(same_groups(merged@, components.component@));
        assert(multilevel(first, levels, merged@));
    }
    Ok(components)
}

} // verus!
