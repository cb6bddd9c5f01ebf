//! Weighted graphs and exact modularity.

use vstd::prelude::*;

verus! {

/// For each node, its neighbors with integer edge weights.
pub type WeightedGraph = Vec<Vec<(usize, u64)>>;

/// Total weight of the entries of a row whose target satisfies a predicate.
pub open spec fn row_sum(row: Seq<(usize, u64)>, wanted: spec_fn(int) -> bool) -> int
    decreases row.len(),
{
    if row.len() == 0 {
        0
    } else {
        row_sum(row.drop_last(), wanted) + if wanted(row.last().0 as int) {
            row.last().1 as int
        } else {
            0
        }
    }
}

/// Total weight of the entries of the first `count` rows whose source and target satisfy a
/// predicate.
pub open spec fn partial_weight(
    graph: Seq<Vec<(usize, u64)>>,
    wanted: spec_fn(int, int) -> bool,
    count: int,
) -> int
    decreases count,
{
    if count <= 0 {
        0
    } else {
        partial_weight(graph, wanted, count - 1) + row_sum(
            graph[count - 1]@,
            |to: int| wanted(count - 1, to),
        )
    }
}

/// Total weight of the entries whose source and target satisfy a predicate.
pub open spec fn weight_where(
    graph: Seq<Vec<(usize, u64)>>,
    wanted: spec_fn(int, int) -> bool,
) -> int {
    partial_weight(graph, wanted, graph.len() as int)
}

pub open spec fn every_pair() -> spec_fn(int, int) -> bool {
    |from: int, to: int| true
}

pub open spec fn every_target() -> spec_fn(int) -> bool {
    |to: int| true
}

/// Sum of all weights: every undirected edge counts once from each end.
pub open spec fn total_weight(graph: Seq<Vec<(usize, u64)>>) -> int {
    weight_where(graph, every_pair())
}

/// Sum of the weights of one row.
pub open spec fn degree_of(graph: Seq<Vec<(usize, u64)>>, node: int) -> int {
    row_sum(graph[node]@, every_target())
}

/// Both ends are in one community.
pub open spec fn together(membership: Seq<usize>) -> spec_fn(int, int) -> bool {
    |from: int, to: int| membership[from] == membership[to]
}

/// The source is in a community.
pub open spec fn leaving(membership: Seq<usize>, community: int) -> spec_fn(int, int) -> bool {
    |from: int, to: int| membership[from] == community
}

/// Sum of the degrees of the members of a community.
pub open spec fn community_degree(
    graph: Seq<Vec<(usize, u64)>>,
    membership: Seq<usize>,
    community: int,
) -> int {
    weight_where(graph, leaving(membership, community))
}

/// Squared community degrees of the first `count` communities.
pub open spec fn squared_degrees(
    graph: Seq<Vec<(usize, u64)>>,
    membership: Seq<usize>,
    count: int,
) -> int
    decreases count,
{
    if count <= 0 {
        0
    } else {
        squared_degrees(graph, membership, count - 1) + community_degree(
            graph,
            membership,
            count - 1,
        ) * community_degree(graph, membership, count - 1)
    }
}

/// Modularity times the squared total weight: internal weight times total weight, less the squared
/// community degrees.
pub open spec fn modularity(graph: Seq<Vec<(usize, u64)>>, membership: Seq<usize>) -> int {
    total_weight(graph) * weight_where(graph, together(membership)) - squared_degrees(
        graph,
        membership,
        graph.len() as int,
    )
}

/// A predicate with source and target exchanged.
pub open spec fn flipped(wanted: spec_fn(int, int) -> bool) -> spec_fn(int, int) -> bool {
    |from: int, to: int| wanted(to, from)
}

/// Every entry targets a row.
pub open spec fn targets_inside(graph: Seq<Vec<(usize, u64)>>) -> bool {
    forall|node: int, i: int|
        0 <= node < graph.len() && 0 <= i < graph[node]@.len() ==> (
        #[trigger] graph[node]@[i]).0 < graph.len()
}

/// Weights do not depend on the direction in which an edge is read.
#[verifier::opaque]
pub open spec fn undirected(graph: Seq<Vec<(usize, u64)>>) -> bool {
    forall|wanted: spec_fn(int, int) -> bool| #[trigger]
        weight_where(graph, wanted) == weight_where(graph, flipped(wanted))
}

pub proof fn lemma_either_way(graph: Seq<Vec<(usize, u64)>>, wanted: spec_fn(int, int) -> bool)
    requires
        undirected(graph),
    ensures
        weight_where(graph, wanted) == weight_where(graph, flipped(wanted)),
{
    reveal(undirected);
}

pub proof fn lemma_row_sum_same(
    row: Seq<(usize, u64)>,
    left: spec_fn(int) -> bool,
    right: spec_fn(int) -> bool,
)
    requires
        forall|i: int|
            0 <= i < row.len() ==> left((#[trigger] row[i]).0 as int) == right(row[i].0 as int),
    ensures
        row_sum(row, left) == row_sum(row, right),
    decreases row.len(),
{
    if row.len() > 0 {
        let rest = row.drop_last();
        assert forall|i: int| 0 <= i < rest.len() implies left((#[trigger] rest[i]).0 as int)
            == right(rest[i].0 as int) by {
            assert(rest[i] == row[i]);
        }
        lemma_row_sum_same(rest, left, right);
        assert(left(row[row.len() - 1].0 as int) == right(row[row.len() - 1].0 as int));
    }
}

pub proof fn lemma_row_sum_split(
    row: Seq<(usize, u64)>,
    both: spec_fn(int) -> bool,
    left: spec_fn(int) -> bool,
    right: spec_fn(int) -> bool,
)
    requires
        forall|i: int|
            0 <= i < row.len() ==> both((#[trigger] row[i]).0 as int) == (left(row[i].0 as int)
                || right(row[i].0 as int)) && !(left(row[i].0 as int) && right(row[i].0 as int)),
    ensures
        row_sum(row, both) == row_sum(row, left) + row_sum(row, right),
    decreases row.len(),
{
    if row.len() > 0 {
        let rest = row.drop_last();
        assert forall|i: int| 0 <= i < rest.len() implies both((#[trigger] rest[i]).0 as int) == (
        left(rest[i].0 as int) || right(rest[i].0 as int)) && !(left(rest[i].0 as int) && right(
            rest[i].0 as int,
        )) by {
            assert(rest[i] == row[i]);
        }
        lemma_row_sum_split(rest, both, left, right);
        let last = row[row.len() - 1];
        assert(both(last.0 as int) == (left(last.0 as int) || right(last.0 as int)));
    }
}

pub proof fn lemma_row_sum_bounds(row: Seq<(usize, u64)>, wanted: spec_fn(int) -> bool)
    ensures
        0 <= row_sum(row, wanted) <= row_sum(row, every_target()),
        (forall|i: int| 0 <= i < row.len() ==> !wanted((#[trigger] row[i]).0 as int)) ==> row_sum(
            row,
            wanted,
        ) == 0,
    decreases row.len(),
{
    if row.len() > 0 {
        let rest = row.drop_last();
        lemma_row_sum_bounds(rest, wanted);
        if forall|i: int| 0 <= i < row.len() ==> !wanted((#[trigger] row[i]).0 as int) {
            assert forall|i: int| 0 <= i < rest.len() implies !wanted(
                (#[trigger] rest[i]).0 as int,
            ) by {
                assert(rest[i] == row[i]);
            }
            assert(!wanted(row[row.len() - 1].0 as int));
        }
    }
}

pub proof fn lemma_partial_same(
    graph: Seq<Vec<(usize, u64)>>,
    left: spec_fn(int, int) -> bool,
    right: spec_fn(int, int) -> bool,
    count: int,
)
    requires
        0 <= count <= graph.len(),
        targets_inside(graph),
        forall|x: int, y: int|
            0 <= x < graph.len() && 0 <= y < graph.len() ==> #[trigger] left(x, y) == right(x, y),
    ensures
        partial_weight(graph, left, count) == partial_weight(graph, right, count),
    decreases count,
{
    if count > 0 {
        lemma_partial_same(graph, left, right, count - 1);
        lemma_row_sum_same(
            graph[count - 1]@,
            |to: int| left(count - 1, to),
            |to: int| right(count - 1, to),
        );
    }
}

pub proof fn lemma_same(
    graph: Seq<Vec<(usize, u64)>>,
    left: spec_fn(int, int) -> bool,
    right: spec_fn(int, int) -> bool,
)
    requires
        targets_inside(graph),
        forall|x: int, y: int|
            0 <= x < graph.len() && 0 <= y < graph.len() ==> #[trigger] left(x, y) == right(x, y),
    ensures
        weight_where(graph, left) == weight_where(graph, right),
{
    lemma_partial_same(graph, left, right, graph.len() as int);
}

pub proof fn lemma_partial_split(
    graph: Seq<Vec<(usize, u64)>>,
    both: spec_fn(int, int) -> bool,
    left: spec_fn(int, int) -> bool,
    right: spec_fn(int, int) -> bool,
    count: int,
)
    requires
        0 <= count <= graph.len(),
        targets_inside(graph),
        forall|x: int, y: int|
            0 <= x < graph.len() && 0 <= y < graph.len() ==> #[trigger] both(x, y) == (left(x, y)
                || right(x, y)) && !(left(x, y) && right(x, y)),
    ensures
        partial_weight(graph, both, count) == partial_weight(graph, left, count) + partial_weight(
            graph,
            right,
            count,
        ),
    decreases count,
{
    if count > 0 {
        lemma_partial_split(graph, both, left, right, count - 1);
        let from = count - 1;
        let row = graph[from]@;
        let row_both = |to: int| both(from, to);
        let row_left = |to: int| left(from, to);
        let row_right = |to: int| right(from, to);
        assert forall|i: int| 0 <= i < row.len() implies row_both((#[trigger] row[i]).0 as int) == (
        row_left(row[i].0 as int) || row_right(row[i].0 as int)) && !(row_left(row[i].0 as int)
            && row_right(row[i].0 as int)) by {
            let to = graph[from]@[i].0 as int;
            assert(0 <= to < graph.len());
            assert(both(from, to) == (left(from, to) || right(from, to)));
        }
        lemma_row_sum_split(row, row_both, row_left, row_right);
    }
}

pub proof fn lemma_split(
    graph: Seq<Vec<(usize, u64)>>,
    both: spec_fn(int, int) -> bool,
    left: spec_fn(int, int) -> bool,
    right: spec_fn(int, int) -> bool,
)
    requires
        targets_inside(graph),
        forall|x: int, y: int|
            0 <= x < graph.len() && 0 <= y < graph.len() ==> #[trigger] both(x, y) == (left(x, y)
                || right(x, y)) && !(left(x, y) && right(x, y)),
    ensures
        weight_where(graph, both) == weight_where(graph, left) + weight_where(graph, right),
{
    lemma_partial_split(graph, both, left, right, graph.len() as int);
}

pub proof fn lemma_partial_bounds(
    graph: Seq<Vec<(usize, u64)>>,
    wanted: spec_fn(int, int) -> bool,
    count: int,
)
    requires
        0 <= count <= graph.len(),
    ensures
        0 <= partial_weight(graph, wanted, count) <= partial_weight(graph, every_pair(), count),
    decreases count,
{
    if count > 0 {
        lemma_partial_bounds(graph, wanted, count - 1);
        let row = graph[count - 1]@;
        lemma_row_sum_bounds(row, |to: int| wanted(count - 1, to));
        lemma_row_sum_same(row, |to: int| every_pair()(count - 1, to), every_target());
    }
}

pub proof fn lemma_bounds(graph: Seq<Vec<(usize, u64)>>, wanted: spec_fn(int, int) -> bool)
    ensures
        0 <= weight_where(graph, wanted) <= total_weight(graph),
{
    lemma_partial_bounds(graph, wanted, graph.len() as int);
}

/// The first rows never weigh more than all.
pub proof fn lemma_partial_grows(
    graph: Seq<Vec<(usize, u64)>>,
    wanted: spec_fn(int, int) -> bool,
    low: int,
    high: int,
)
    requires
        0 <= low <= high <= graph.len(),
    ensures
        partial_weight(graph, wanted, low) <= partial_weight(graph, wanted, high),
    decreases high,
{
    if low < high {
        lemma_partial_grows(graph, wanted, low, high - 1);
        lemma_row_sum_bounds(graph[high - 1]@, |to: int| wanted(high - 1, to));
    }
}

/// The source is a node and the target satisfies a predicate.
pub open spec fn from_node(node: int, wanted: spec_fn(int) -> bool) -> spec_fn(
    int,
    int,
) -> bool {
    |from: int, to: int| from == node && wanted(to)
}

/// The weight of entries that leave one node is what its row holds.
pub proof fn lemma_one_source(
    graph: Seq<Vec<(usize, u64)>>,
    node: int,
    wanted: spec_fn(int) -> bool,
    count: int,
)
    requires
        0 <= node < graph.len(),
        0 <= count <= graph.len(),
    ensures
        partial_weight(graph, from_node(node, wanted), count) == if node < count {
            row_sum(graph[node]@, wanted)
        } else {
            0
        },
    decreases count,
{
    let both = from_node(node, wanted);
    if count > 0 {
        lemma_one_source(graph, node, wanted, count - 1);
        let row = graph[count - 1]@;
        if count - 1 == node {
            lemma_row_sum_same(row, |to: int| both(count - 1, to), wanted);
        } else {
            lemma_row_sum_bounds(row, |to: int| both(count - 1, to));
        }
    }
}

/// A community without a node weighs at most what the other nodes weigh.
pub proof fn lemma_community_without(
    graph: Seq<Vec<(usize, u64)>>,
    membership: Seq<usize>,
    community: int,
    node: int,
)
    requires
        targets_inside(graph),
        0 <= node < graph.len(),
        membership.len() == graph.len(),
    ensures
        membership[node] != community ==> 0 <= community_degree(graph, membership, community)
            <= total_weight(graph) - degree_of(graph, node),
        membership[node] == community ==> degree_of(graph, node) <= community_degree(
            graph,
            membership,
            community,
        ) <= total_weight(graph),
        0 <= degree_of(graph, node) <= total_weight(graph),
{
    let own = from_node(node, every_target());
    let others = |from: int, to: int| from != node;
    lemma_one_source(graph, node, every_target(), graph.len() as int);
    lemma_split(graph, every_pair(), own, others);
    lemma_bounds(graph, others);
    lemma_bounds(graph, own);
    let members = leaving(membership, community);
    lemma_bounds(graph, members);
    if membership[node] != community {
        let rest = |from: int, to: int| from != node && membership[from] != community;
        lemma_split(graph, others, members, rest);
        lemma_bounds(graph, rest);
    } else {
        let rest = |from: int, to: int| from != node && membership[from] == community;
        lemma_split(graph, members, own, rest);
        lemma_bounds(graph, rest);
    }
}

/// Weight between a node and the other members of a community.
pub open spec fn link(
    graph: Seq<Vec<(usize, u64)>>,
    membership: Seq<usize>,
    node: int,
    community: int,
) -> int {
    row_sum(graph[node]@, other_member(membership, node, community))
}

/// A node other than `node` in a community.
pub open spec fn other_member(
    membership: Seq<usize>,
    node: int,
    community: int,
) -> spec_fn(int) -> bool {
    |to: int| to != node && membership[to] == community
}

/// Half of what modularity gains when a node joins a community it is not in.
pub open spec fn gain(
    graph: Seq<Vec<(usize, u64)>>,
    membership: Seq<usize>,
    node: int,
    community: int,
) -> int {
    total_weight(graph) * (link(graph, membership, node, community) - link(
        graph,
        membership,
        node,
        membership[node] as int,
    )) - degree_of(graph, node) * (community_degree(graph, membership, community)
        - community_degree(graph, membership, membership[node] as int) + degree_of(graph, node))
}

/// Moving one node changes the degrees of two communities only.
pub proof fn lemma_moved_degrees(
    graph: Seq<Vec<(usize, u64)>>,
    membership: Seq<usize>,
    node: int,
    community: usize,
    other: int,
)
    requires
        targets_inside(graph),
        membership.len() == graph.len(),
        0 <= node < graph.len(),
        membership[node] != community,
    ensures
        ({
            let after = membership.update(node, community);
            community_degree(graph, after, other) == community_degree(graph, membership, other)
                + if other == community {
                degree_of(graph, node)
            } else if other == membership[node] {
                -degree_of(graph, node)
            } else {
                0
            }
        }),
{
    let after = membership.update(node, community);
    let own = from_node(node, every_target());
    lemma_one_source(graph, node, every_target(), graph.len() as int);
    if other == community {
        lemma_split(graph, leaving(after, other), leaving(membership, other), own);
    } else if other == membership[node] {
        lemma_split(graph, leaving(membership, other), leaving(after, other), own);
    } else {
        lemma_same(graph, leaving(after, other), leaving(membership, other));
    }
}

proof fn lemma_moved_squares(
    graph: Seq<Vec<(usize, u64)>>,
    membership: Seq<usize>,
    node: int,
    community: usize,
    count: int,
)
    requires
        targets_inside(graph),
        membership.len() == graph.len(),
        0 <= node < graph.len(),
        membership[node] != community,
        0 <= count <= graph.len(),
    ensures
        ({
            let after = membership.update(node, community);
            let degree = degree_of(graph, node);
            let source = community_degree(graph, membership, membership[node] as int);
            let target = community_degree(graph, membership, community as int);
            squared_degrees(graph, after, count) == squared_degrees(graph, membership, count) + (
            if membership[node] < count {
                (source - degree) * (source - degree) - source * source
            } else {
                0
            }) + (if community < count {
                (target + degree) * (target + degree) - target * target
            } else {
                0
            })
        }),
    decreases count,
{
    if count > 0 {
        lemma_moved_squares(graph, membership, node, community, count - 1);
        lemma_moved_degrees(graph, membership, node, community, count - 1);
    }
}

/// Moving a node between communities changes the internal weight by twice the difference of its
/// links.
proof fn lemma_moved_internal(
    graph: Seq<Vec<(usize, u64)>>,
    membership: Seq<usize>,
    node: int,
    community: usize,
)
    requires
        targets_inside(graph),
        undirected(graph),
        membership.len() == graph.len(),
        0 <= node < graph.len(),
        membership[node] != community,
    ensures
        weight_where(graph, together(membership.update(node, community))) == weight_where(
            graph,
            together(membership),
        ) + 2 * (link(graph, membership, node, community as int) - link(
            graph,
            membership,
            node,
            membership[node] as int,
        )),
{
    let after = membership.update(node, community);
    lemma_internal_parts(graph, membership, membership, node);
    lemma_internal_parts(graph, membership, after, node);
}

/// Both ends are in one community, and neither is the node.
spec fn apart(membership: Seq<usize>, node: int) -> spec_fn(int, int) -> bool {
    |x: int, y: int| x != node && y != node && membership[x] == membership[y]
}

/// Both ends are the node.
spec fn loop_at(node: int) -> spec_fn(int, int) -> bool {
    |x: int, y: int| x == node && y == node
}

/// The internal weight: among the other nodes, from and to the node, and at the node itself. The
/// links may be read off any membership that agrees on the other nodes.
proof fn lemma_internal_parts(
    graph: Seq<Vec<(usize, u64)>>,
    others: Seq<usize>,
    membership: Seq<usize>,
    node: int,
)
    requires
        targets_inside(graph),
        undirected(graph),
        membership.len() == graph.len(),
        others.len() == graph.len(),
        0 <= node < graph.len(),
        forall|x: int| 0 <= x < graph.len() && x != node ==> membership[x] == others[x],
    ensures
        weight_where(graph, together(membership)) == weight_where(graph, apart(others, node)) + 2
            * link(graph, others, node, membership[node] as int) + weight_where(
            graph,
            loop_at(node),
        ),
{
    let own = membership[node] as int;
    let touching = |x: int, y: int| (x == node || y == node) && membership[x] == membership[y];
    lemma_split(graph, together(membership), apart(others, node), touching);
    let out = |x: int, y: int| x == node && (y != node && others[y] == own);
    let inward = |x: int, y: int| (x == node && y == node) || (y == node && x != node && others[x]
        == own);
    lemma_split(graph, touching, out, inward);
    lemma_split(graph, inward, loop_at(node), flipped(out));
    lemma_either_way(graph, out);
    let wanted = other_member(others, node, own);
    lemma_one_source(graph, node, wanted, graph.len() as int);
    lemma_same(graph, out, from_node(node, wanted));
}

/// Moving a node to another community changes modularity by twice its gain.
pub proof fn law_move_changes_modularity(
    graph: Seq<Vec<(usize, u64)>>,
    membership: Seq<usize>,
    node: int,
    community: usize,
)
    requires
        targets_inside(graph),
        undirected(graph),
        membership.len() == graph.len(),
        forall|x: int| 0 <= x < membership.len() ==> #[trigger] membership[x] < graph.len(),
        0 <= node < graph.len(),
        community < graph.len(),
        membership[node] != community,
    ensures
        modularity(graph, membership.update(node, community)) == modularity(graph, membership) + 2
            * gain(graph, membership, node, community as int),
{
    let after = membership.update(node, community);
    let degree = degree_of(graph, node);
    let source = community_degree(graph, membership, membership[node] as int);
    let target = community_degree(graph, membership, community as int);
    let total = total_weight(graph);
    let inside = weight_where(graph, together(membership));
    let near = link(graph, membership, node, community as int);
    let left = link(graph, membership, node, membership[node] as int);
    lemma_moved_squares(graph, membership, node, community, graph.len() as int);
    lemma_moved_internal(graph, membership, node, community);
    assert((source - degree) * (source - degree) - source * source + (target + degree) * (target
        + degree) - target * target == 2 * (degree * (target - source + degree)))
        by (nonlinear_arith);
    assert(total * (inside + 2 * (near - left)) == total * inside + 2 * (total * (near - left)))
        by (nonlinear_arith);
}

/// The source is in one community and the target in another.
pub open spec fn between(membership: Seq<usize>, left: int, right: int) -> spec_fn(
    int,
    int,
) -> bool {
    |from: int, to: int| membership[from] == left && membership[to] == right
}

/// The communities once one of them has taken another in.
pub open spec fn joined(membership: Seq<usize>, left: usize, right: usize) -> Seq<usize> {
    Seq::new(
        membership.len(),
        |node: int|
            if membership[node] == right {
                left
            } else {
                membership[node]
            },
    )
}

proof fn lemma_joined_squares(
    graph: Seq<Vec<(usize, u64)>>,
    membership: Seq<usize>,
    left: usize,
    right: usize,
    count: int,
)
    requires
        targets_inside(graph),
        membership.len() == graph.len(),
        left != right,
        0 <= count <= graph.len(),
    ensures
        ({
            let taker = community_degree(graph, membership, left as int);
            let taken = community_degree(graph, membership, right as int);
            squared_degrees(graph, joined(membership, left, right), count) == squared_degrees(
                graph,
                membership,
                count,
            ) + (if left < count {
                (taker + taken) * (taker + taken) - taker * taker
            } else {
                0
            }) - (if right < count {
                taken * taken
            } else {
                0
            })
        }),
    decreases count,
{
    if count > 0 {
        lemma_joined_squares(graph, membership, left, right, count - 1);
        let after = joined(membership, left, right);
        let last = count - 1;
        if last == left {
            lemma_split(
                graph,
                leaving(after, last),
                leaving(membership, left as int),
                leaving(membership, right as int),
            );
        } else if last == right {
            lemma_none(graph, leaving(after, last));
            assert(0 * 0 == 0) by (nonlinear_arith);
        } else {
            lemma_same(graph, leaving(after, last), leaving(membership, last));
        }
    }
}

/// A predicate that no pair meets weighs nothing.
proof fn lemma_none(graph: Seq<Vec<(usize, u64)>>, wanted: spec_fn(int, int) -> bool)
    requires
        targets_inside(graph),
        forall|x: int, y: int|
            0 <= x < graph.len() && 0 <= y < graph.len() ==> !#[trigger] wanted(x, y),
    ensures
        weight_where(graph, wanted) == 0,
{
    lemma_split(graph, wanted, wanted, wanted);
}

/// Merging two communities changes modularity by twice the weight between them times the total weight,
/// less twice the product of their degrees.
pub proof fn law_merge_changes_modularity(
    graph: Seq<Vec<(usize, u64)>>,
    membership: Seq<usize>,
    left: usize,
    right: usize,
)
    requires
        targets_inside(graph),
        undirected(graph),
        membership.len() == graph.len(),
        left < graph.len(),
        right < graph.len(),
        left != right,
    ensures
        modularity(graph, joined(membership, left, right)) == modularity(graph, membership) + 2 * (
        total_weight(graph) * weight_where(graph, between(membership, left as int, right as int))
            - community_degree(graph, membership, left as int) * community_degree(
            graph,
            membership,
            right as int,
        )),
{
    let after = joined(membership, left, right);
    let there = between(membership, left as int, right as int);
    let back = between(membership, right as int, left as int);
    let across = |x: int, y: int| there(x, y) || back(x, y);
    lemma_split(graph, together(after), together(membership), across);
    lemma_split(graph, across, there, back);
    lemma_either_way(graph, there);
    lemma_same(graph, flipped(there), back);
    lemma_joined_squares(graph, membership, left, right, graph.len() as int);
    let total = total_weight(graph);
    let inside = weight_where(graph, together(membership));
    let shared = weight_where(graph, there);
    let taker = community_degree(graph, membership, left as int);
    let taken = community_degree(graph, membership, right as int);
    assert(total * (inside + 2 * shared) == total * inside + 2 * (total * shared))
        by (nonlinear_arith);
    assert((taker + taken) * (taker + taken) - taker * taker - taken * taken == 2 * (taker * taken))
        by (nonlinear_arith);
}

/// Modularity never exceeds the squared total weight.
pub proof fn lemma_modularity_bound(graph: Seq<Vec<(usize, u64)>>, membership: Seq<usize>)
    ensures
        modularity(graph, membership) <= total_weight(graph) * total_weight(graph),
{
    lemma_bounds(graph, together(membership));
    lemma_squares_nonnegative(graph, membership, graph.len() as int);
    let total = total_weight(graph);
    let inside = weight_where(graph, together(membership));
    assert(total * inside <= total * total) by (nonlinear_arith)
        requires
            0 <= inside <= total,
    ;
}

proof fn lemma_squares_nonnegative(
    graph: Seq<Vec<(usize, u64)>>,
    membership: Seq<usize>,
    count: int,
)
    ensures
        squared_degrees(graph, membership, count) >= 0,
    decreases count,
{
    if count > 0 {
        lemma_squares_nonnegative(graph, membership, count - 1);
        let degree = community_degree(graph, membership, count - 1);
        assert(degree * degree >= 0) by (nonlinear_arith);
    }
}

/// All nodes in one community have no modularity: every edge is inside, and as many would be at random.
pub proof fn law_one_community_has_no_modularity(
    graph: Seq<Vec<(usize, u64)>>,
    membership: Seq<usize>,
)
    requires
        targets_inside(graph),
        graph.len() > 0,
        membership.len() == graph.len(),
        forall|node: int| 0 <= node < membership.len() ==> #[trigger] membership[node] == 0,
    ensures
        modularity(graph, membership) == 0,
{
    lemma_same(graph, together(membership), every_pair());
    lemma_one_square(graph, membership, graph.len() as int);
}

proof fn lemma_one_square(graph: Seq<Vec<(usize, u64)>>, membership: Seq<usize>, count: int)
    requires
        targets_inside(graph),
        membership.len() == graph.len(),
        0 < count <= graph.len(),
        forall|node: int| 0 <= node < membership.len() ==> #[trigger] membership[node] == 0,
    ensures
        squared_degrees(graph, membership, count) == total_weight(graph) * total_weight(graph),
    decreases count,
{
    if count == 1 {
        lemma_same(graph, leaving(membership, 0), every_pair());
        assert(squared_degrees(graph, membership, 0) == 0);
    } else {
        lemma_one_square(graph, membership, count - 1);
        lemma_none(graph, leaving(membership, count - 1));
        assert(0 * 0 == 0) by (nonlinear_arith);
    }
}

} // verus!
