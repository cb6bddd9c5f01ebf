//! The weighted graph that the adjacency of nodes gives: every edge weighs one from each end.

use crate::algorithms::metrics::{adjacent, is_neighbor_list, neighbor_lists};
use crate::algorithms::strong::mirrored;
use crate::algorithms::traversal::lemma_leads_row;
use crate::algorithms::weights::{
    every_pair, flipped, partial_weight, row_sum, targets_inside, total_weight, undirected,
    weight_where, WeightedGraph,
};
use crate::csr::Csr;
use vstd::prelude::*;

verus! {

/// Each row lists the neighbors of its node in ascending order, with weight one.
pub open spec fn unit_graph(
    outgoing: Csr,
    incoming: Csr,
    graph: Seq<Vec<(usize, u64)>>,
) -> bool {
    &&& graph.len() == outgoing.node_total()
    &&& forall|node: int|
        0 <= node < graph.len() ==> unit_row(outgoing, incoming, node, (#[trigger] graph[node])@)
}

pub open spec fn unit_row(
    outgoing: Csr,
    incoming: Csr,
    node: int,
    row: Seq<(usize, u64)>,
) -> bool {
    &&& ascending_units(row)
    &&& forall|other: int|
        #![trigger lists_target(row, other)]
        lists_target(row, other) <==> adjacent(outgoing, incoming, node, other)
}

/// The row has an entry for the target.
pub open spec fn lists_target(row: Seq<(usize, u64)>, target: int) -> bool {
    exists|i: int| 0 <= i < row.len() && (#[trigger] row[i]).0 == target
}

pub open spec fn ascending_units(row: Seq<(usize, u64)>) -> bool {
    &&& forall|i: int| 0 <= i < row.len() ==> (#[trigger] row[i]).1 == 1
    &&& forall|i: int, j: int|
        0 <= i < j < row.len() ==> (#[trigger] row[i]).0 < (#[trigger] row[j]).0
}

/// How many numbers below a bound satisfy a predicate.
spec fn count_below(bound: int, wanted: spec_fn(int) -> bool) -> int
    decreases bound,
{
    if bound <= 0 {
        0
    } else {
        count_below(bound - 1, wanted) + if wanted(bound - 1) {
            1int
        } else {
            0
        }
    }
}

proof fn lemma_count_same(bound: int, left: spec_fn(int) -> bool, right: spec_fn(int) -> bool)
    requires
        forall|i: int| 0 <= i < bound ==> #[trigger] left(i) == right(i),
    ensures
        count_below(bound, left) == count_below(bound, right),
    decreases bound,
{
    if bound > 0 {
        lemma_count_same(bound - 1, left, right);
        assert(left(bound - 1) == right(bound - 1));
    }
}

proof fn lemma_count_one_more(
    bound: int,
    left: spec_fn(int) -> bool,
    right: spec_fn(int) -> bool,
    extra: int,
)
    requires
        0 <= extra < bound,
        !left(extra),
        right(extra),
        forall|i: int| 0 <= i < bound && i != extra ==> #[trigger] left(i) == right(i),
    ensures
        count_below(bound, right) == count_below(bound, left) + 1,
    decreases bound,
{
    if extra == bound - 1 {
        lemma_count_same(bound - 1, left, right);
    } else {
        lemma_count_one_more(bound - 1, left, right, extra);
        assert(left(bound - 1) == right(bound - 1));
    }
}

proof fn lemma_count_bounds(bound: int, wanted: spec_fn(int) -> bool)
    requires
        0 <= bound,
    ensures
        0 <= count_below(bound, wanted) <= bound,
    decreases bound,
{
    if bound > 0 {
        lemma_count_bounds(bound - 1, wanted);
    }
}

/// A listed target that satisfies a predicate.
spec fn listed_and(row: Seq<(usize, u64)>, wanted: spec_fn(int) -> bool) -> spec_fn(int) -> bool {
    |to: int| lists_target(row, to) && wanted(to)
}

/// A unit row weighs as much as it has wanted targets.
proof fn lemma_row_count(row: Seq<(usize, u64)>, wanted: spec_fn(int) -> bool, bound: int)
    requires
        0 <= bound,
        ascending_units(row),
        forall|i: int| 0 <= i < row.len() ==> (#[trigger] row[i]).0 < bound,
    ensures
        row_sum(row, wanted) == count_below(bound, listed_and(row, wanted)),
    decreases row.len(),
{
    let now = listed_and(row, wanted);
    if row.len() == 0 {
        let none = |to: int| false;
        lemma_count_same(bound, now, none);
        lemma_count_none(bound, none);
    } else {
        let rest = row.drop_last();
        let before = listed_and(rest, wanted);
        let last = row.last().0 as int;
        assert forall|i: int| 0 <= i < rest.len() implies (#[trigger] rest[i]).1 == 1 by {
            assert(row[i].1 == 1);
        }
        assert forall|i: int, j: int| 0 <= i < j < rest.len() implies (#[trigger] rest[i]).0 < (
        #[trigger] rest[j]).0 by {
            assert(row[i].0 < row[j].0);
        }
        assert forall|i: int| 0 <= i < rest.len() implies (#[trigger] rest[i]).0 < bound by {
            assert(row[i].0 < bound);
        }
        lemma_row_count(rest, wanted, bound);
        assert(row[row.len() - 1].1 == 1 && row[row.len() - 1].0 < bound);
        assert forall|to: int| to != last implies lists_target(row, to) == #[trigger] lists_target(
            rest,
            to,
        ) by {
            if lists_target(row, to) {
                let i = choose|i: int| 0 <= i < row.len() && (#[trigger] row[i]).0 == to;
                assert(rest[i].0 == to);
            }
            if lists_target(rest, to) {
                let i = choose|i: int| 0 <= i < rest.len() && (#[trigger] rest[i]).0 == to;
                assert(row[i].0 == to);
            }
        }
        assert(lists_target(row, last)) by {
            assert(row[row.len() - 1].0 == last);
        }
        assert(!lists_target(rest, last)) by {
            if lists_target(rest, last) {
                let i = choose|i: int| 0 <= i < rest.len() && (#[trigger] rest[i]).0 == last;
                assert(row[i].0 < row[row.len() - 1].0);
            }
        }
        assert forall|to: int| 0 <= to < bound && to != last implies #[trigger] before(to) == now(
            to,
        ) by {
            assert(lists_target(row, to) == lists_target(rest, to));
        }
        if wanted(last) {
            lemma_count_one_more(bound, before, now, last);
        } else {
            lemma_count_same(bound, before, now);
        }
    }
}

proof fn lemma_count_none(bound: int, wanted: spec_fn(int) -> bool)
    requires
        forall|i: int| 0 <= i < bound ==> !#[trigger] wanted(i),
    ensures
        count_below(bound, wanted) == 0,
    decreases bound,
{
    if bound > 0 {
        lemma_count_none(bound - 1, wanted);
        assert(!wanted(bound - 1));
    }
}

/// Pairs below two bounds that satisfy a predicate, counted row by row.
spec fn count_pairs(rows: int, columns: int, wanted: spec_fn(int, int) -> bool) -> int
    decreases rows,
{
    if rows <= 0 {
        0
    } else {
        count_pairs(rows - 1, columns, wanted) + count_below(columns, row_of(wanted, rows - 1))
    }
}

spec fn row_of(wanted: spec_fn(int, int) -> bool, row: int) -> spec_fn(int) -> bool {
    |column: int| wanted(row, column)
}

proof fn lemma_last_column(rows: int, columns: int, wanted: spec_fn(int, int) -> bool)
    requires
        0 <= rows,
        0 < columns,
    ensures
        count_pairs(rows, columns, wanted) == count_pairs(rows, columns - 1, wanted) + count_below(
            rows,
            row_of(flipped(wanted), columns - 1),
        ),
    decreases rows,
{
    if rows > 0 {
        lemma_last_column(rows - 1, columns, wanted);
        assert(row_of(flipped(wanted), columns - 1)(rows - 1) == wanted(rows - 1, columns - 1));
        assert(row_of(wanted, rows - 1)(columns - 1) == wanted(rows - 1, columns - 1));
    }
}

/// Counting by rows and by columns gives the same.
proof fn lemma_pairs_flipped(rows: int, columns: int, wanted: spec_fn(int, int) -> bool)
    requires
        0 <= rows,
        0 <= columns,
    ensures
        count_pairs(rows, columns, wanted) == count_pairs(columns, rows, flipped(wanted)),
    decreases columns,
{
    if columns > 0 {
        lemma_last_column(rows, columns, wanted);
        lemma_pairs_flipped(rows, columns - 1, wanted);
    } else {
        lemma_no_columns(rows, wanted);
    }
}

proof fn lemma_no_columns(rows: int, wanted: spec_fn(int, int) -> bool)
    ensures
        count_pairs(rows, 0, wanted) == 0,
    decreases rows,
{
    if rows > 0 {
        lemma_no_columns(rows - 1, wanted);
    }
}

proof fn lemma_pairs_same(
    rows: int,
    columns: int,
    left: spec_fn(int, int) -> bool,
    right: spec_fn(int, int) -> bool,
)
    requires
        forall|x: int, y: int|
            0 <= x < rows && 0 <= y < columns ==> #[trigger] left(x, y) == right(x, y),
    ensures
        count_pairs(rows, columns, left) == count_pairs(rows, columns, right),
    decreases rows,
{
    if rows > 0 {
        lemma_pairs_same(rows - 1, columns, left, right);
        assert forall|y: int| 0 <= y < columns implies #[trigger] row_of(left, rows - 1)(y)
            == row_of(right, rows - 1)(y) by {
            assert(left(rows - 1, y) == right(rows - 1, y));
        }
        lemma_count_same(columns, row_of(left, rows - 1), row_of(right, rows - 1));
    }
}

/// Adjacent nodes that satisfy a predicate.
spec fn adjacent_and(
    outgoing: Csr,
    incoming: Csr,
    wanted: spec_fn(int, int) -> bool,
) -> spec_fn(int, int) -> bool {
    |from: int, to: int| adjacent(outgoing, incoming, from, to) && wanted(from, to)
}

/// The weight of a unit graph is the number of wanted adjacent pairs.
proof fn lemma_unit_weight(
    outgoing: Csr,
    incoming: Csr,
    graph: Seq<Vec<(usize, u64)>>,
    wanted: spec_fn(int, int) -> bool,
    count: int,
)
    requires
        unit_graph(outgoing, incoming, graph),
        targets_inside(graph),
        0 <= count <= graph.len(),
    ensures
        partial_weight(graph, wanted, count) == count_pairs(
            count,
            graph.len() as int,
            adjacent_and(outgoing, incoming, wanted),
        ),
    decreases count,
{
    if count > 0 {
        lemma_unit_weight(outgoing, incoming, graph, wanted, count - 1);
        let row = graph[count - 1]@;
        let last = |to: int| wanted(count - 1, to);
        assert(unit_row(outgoing, incoming, count - 1, row));
        assert forall|i: int| 0 <= i < row.len() implies (#[trigger] row[i]).0 < graph.len() by {
            assert(graph[count - 1]@[i].0 < graph.len());
        }
        lemma_row_count(row, last, graph.len() as int);
        let seen = row_of(adjacent_and(outgoing, incoming, wanted), count - 1);
        assert forall|to: int| 0 <= to < graph.len() implies #[trigger] listed_and(row, last)(to)
            == seen(to) by {
            assert(lists_target(row, to) == adjacent(outgoing, incoming, count - 1, to));
        }
        lemma_count_same(graph.len() as int, listed_and(row, last), seen);
    }
}

/// Where one adjacency mirrors the other, a unit graph is undirected.
pub proof fn lemma_unit_undirected(outgoing: Csr, incoming: Csr, graph: Seq<Vec<(usize, u64)>>)
    requires
        unit_graph(outgoing, incoming, graph),
        targets_inside(graph),
        mirrored(outgoing, incoming),
    ensures
        undirected(graph),
{
    reveal(undirected);
    let n = graph.len() as int;
    assert forall|wanted: spec_fn(int, int) -> bool| #[trigger]
        weight_where(graph, wanted) == weight_where(graph, flipped(wanted)) by {
        let seen = adjacent_and(outgoing, incoming, wanted);
        let back = adjacent_and(outgoing, incoming, flipped(wanted));
        lemma_unit_weight(outgoing, incoming, graph, wanted, n);
        lemma_unit_weight(outgoing, incoming, graph, flipped(wanted), n);
        lemma_pairs_flipped(n, n, seen);
        assert forall|x: int, y: int| 0 <= x < n && 0 <= y < n implies #[trigger] flipped(seen)(x, y)
            == back(x, y) by {
            assert(incoming.leads(x, y) <==> outgoing.leads(y, x));
            assert(incoming.leads(y, x) <==> outgoing.leads(x, y));
        }
        lemma_pairs_same(n, n, flipped(seen), back);
    }
}

/// The weight of a unit graph is at most the number of pairs of nodes.
pub proof fn lemma_unit_total(outgoing: Csr, incoming: Csr, graph: Seq<Vec<(usize, u64)>>)
    requires
        unit_graph(outgoing, incoming, graph),
        targets_inside(graph),
    ensures
        total_weight(graph) <= graph.len() * graph.len(),
{
    let n = graph.len() as int;
    lemma_unit_weight(outgoing, incoming, graph, every_pair(), n);
    lemma_pairs_bound(n, n, adjacent_and(outgoing, incoming, every_pair()));
}

proof fn lemma_pairs_bound(rows: int, columns: int, wanted: spec_fn(int, int) -> bool)
    requires
        0 <= rows,
        0 <= columns,
    ensures
        count_pairs(rows, columns, wanted) <= rows * columns,
    decreases rows,
{
    if rows > 0 {
        lemma_pairs_bound(rows - 1, columns, wanted);
        lemma_count_bounds(columns, row_of(wanted, rows - 1));
        assert(rows * columns == (rows - 1) * columns + columns) by (nonlinear_arith);
    } else {
        assert(rows * columns == 0) by (nonlinear_arith)
            requires
                rows == 0,
        ;
    }
}

/// Where one adjacency mirrors the other, what a unit row lists has a row of its own.
pub proof fn lemma_unit_targets(
    outgoing: Csr,
    incoming: Csr,
    graph: Seq<Vec<(usize, u64)>>,
    node: int,
    index: int,
)
    requires
        unit_graph(outgoing, incoming, graph),
        targets_inside(graph),
        mirrored(outgoing, incoming),
        0 <= node < graph.len(),
        0 <= index < graph[node]@.len(),
    ensures
        graph[graph[node]@[index].0 as int]@.len() > 0,
{
    let other = graph[node]@[index].0 as int;
    assert(unit_row(outgoing, incoming, node, graph[node]@));
    assert(lists_target(graph[node]@, other));
    assert(incoming.leads(node, other) <==> outgoing.leads(other, node));
    assert(incoming.leads(other, node) <==> outgoing.leads(node, other));
    assert(adjacent(outgoing, incoming, other, node));
    assert(unit_row(outgoing, incoming, other, graph[other]@));
    assert(lists_target(graph[other]@, node));
}

/// Builds the unit graph of neighbor lists.
pub(crate) fn unit_weights(
    lists: &Vec<Vec<u32>>,
    Ghost(outgoing): Ghost<Csr>,
    Ghost(incoming): Ghost<Csr>,
) -> (graph: WeightedGraph)
    requires
        neighbor_lists(outgoing, incoming, lists@),
        lists.len() <= u32::MAX,
        outgoing.targets_are_rows(),
        incoming.targets_are_rows(),
        incoming.node_total() == outgoing.node_total(),
    ensures
        unit_graph(outgoing, incoming, graph@),
        targets_inside(graph@),
        forall|node: int|
            0 <= node < graph.len() ==> (#[trigger] graph@[node])@.len() == lists@[node]@.len(),
{
    let mut graph: WeightedGraph = Vec::with_capacity(lists.len());
    for node in 0..lists.len()
        invariant
            neighbor_lists(outgoing, incoming, lists@),
            lists.len() <= u32::MAX,
            outgoing.targets_are_rows(),
            incoming.targets_are_rows(),
            incoming.node_total() == outgoing.node_total(),
            graph.len() == node,
            forall|x: int|
                0 <= x < node ==> unit_row(outgoing, incoming, x, (#[trigger] graph@[x])@)
                    && graph@[x]@.len() == lists@[x]@.len(),
    {
        let list = &lists[node];
        let mut row: Vec<(usize, u64)> = Vec::with_capacity(list.len());
        for index in 0..list.len()
            invariant
                row.len() == index,
                forall|i: int| 0 <= i < index ==> #[trigger] row@[i] == (list@[i] as usize, 1u64),
        {
            row.push((list[index] as usize, 1));
        }
        proof {
            assert(is_neighbor_list(outgoing, incoming, node as int, list@));
            assert forall|i: int, j: int| 0 <= i < j < row.len() implies (#[trigger] row@[i]).0 < (
            #[trigger] row@[j]).0 by {
                assert(list@[i] < list@[j]);
            }
            assert forall|other: int|
                #![trigger lists_target(row@, other)]
                lists_target(row@, other) <==> adjacent(outgoing, incoming, node as int, other) by {
                if lists_target(row@, other) {
                    let i = choose|i: int| 0 <= i < row.len() && (#[trigger] row@[i]).0 == other;
                    assert(list@.contains(list@[i]));
                }
                if adjacent(outgoing, incoming, node as int, other) {
                    lemma_adjacent_inside(outgoing, incoming, node as int, other);
                    assert(list@.contains(other as u32));
                    let i = choose|i: int| 0 <= i < list@.len() && list@[i] == other as u32;
                    assert(row@[i].0 == other);
                }
            }
        }
        graph.push(row);
    }
    proof {
        assert forall|node: int, i: int|
            0 <= node < graph.len() && 0 <= i < graph@[node]@.len() implies (
        #[trigger] graph@[node]@[i]).0 < graph.len() by {
            let other = graph@[node]@[i].0 as int;
            assert(unit_row(outgoing, incoming, node, graph@[node]@));
            assert(lists_target(graph@[node]@, other));
            lemma_adjacent_inside(outgoing, incoming, node, other);
        }
    }
    graph
}

proof fn lemma_adjacent_inside(outgoing: Csr, incoming: Csr, node: int, other: int)
    requires
        outgoing.targets_are_rows(),
        incoming.targets_are_rows(),
        incoming.node_total() == outgoing.node_total(),
        adjacent(outgoing, incoming, node, other),
    ensures
        0 <= other < outgoing.node_total(),
{
    if outgoing.leads(node, other) {
        lemma_leads_row(outgoing, node, other);
    } else {
        lemma_leads_row(incoming, node, other);
    }
}

} // verus!
