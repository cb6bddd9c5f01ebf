//! Deterministic multilevel Louvain communities over exact integer modularity.

use crate::algorithms::weights::{
    community_degree, degree_of, every_pair, every_target, gain, law_move_changes_modularity,
    leaving, lemma_community_without, lemma_modularity_bound, lemma_partial_grows,
    lemma_row_sum_bounds, lemma_row_sum_same, lemma_same, link, modularity, other_member,
    partial_weight, row_sum, targets_inside, total_weight, undirected, WeightedGraph,
};
use crate::cancel::{ask, goes_on};
use crate::error::{fails_with, Error, ErrorCode, Result};
use vstd::prelude::*;

verus! {

/// Every node is its own community.
pub open spec fn singletons(count: nat) -> Seq<usize> {
    Seq::new(count, |node: int| node as usize)
}

/// A graph whose weights can be moved about: edges read the same from both ends, the weights fit,
/// and rows lead from active nodes to active nodes only.
pub open spec fn movable(graph: Seq<Vec<(usize, u64)>>, active: Seq<bool>) -> bool {
    &&& targets_inside(graph)
    &&& undirected(graph)
    &&& total_weight(graph) <= u64::MAX
    &&& active.len() == graph.len()
    &&& forall|node: int|
        0 <= node < graph.len() && !#[trigger] active[node] ==> graph[node]@.len() == 0
    &&& forall|node: int, i: int|
        0 <= node < graph.len() && 0 <= i < graph[node]@.len() ==> active[(
        #[trigger] graph[node]@[i]).0 as int]
}

/// Communities are active nodes, and a node without edges stays alone.
pub open spec fn assigned(active: Seq<bool>, membership: Seq<usize>) -> bool {
    &&& membership.len() == active.len()
    &&& forall|node: int|
        0 <= node < membership.len() ==> #[trigger] membership[node] < active.len()
    &&& forall|node: int|
        0 <= node < membership.len() && active[node] ==> active[#[trigger] membership[node] as int]
    &&& forall|node: int|
        0 <= node < membership.len() && !active[node] ==> #[trigger] membership[node] == node
}

/// No move of this node to the community of a neighbor improves modularity.
pub open spec fn settled_node(
    graph: Seq<Vec<(usize, u64)>>,
    membership: Seq<usize>,
    node: int,
) -> bool {
    forall|i: int|
        0 <= i < graph[node]@.len() ==> stays(
            graph,
            membership,
            node,
            (#[trigger] graph[node]@[i]).0 as int,
        )
}

pub open spec fn stays(
    graph: Seq<Vec<(usize, u64)>>,
    membership: Seq<usize>,
    node: int,
    neighbor: int,
) -> bool {
    membership[neighbor] != membership[node] ==> gain(
        graph,
        membership,
        node,
        membership[neighbor] as int,
    ) <= 0
}

/// The community degrees that go with a membership.
spec fn tallied(
    graph: Seq<Vec<(usize, u64)>>,
    membership: Seq<usize>,
    community_weight: Seq<u64>,
) -> bool {
    &&& community_weight.len() == graph.len()
    &&& forall|community: int|
        0 <= community < graph.len() ==> #[trigger] community_weight[community]
            == community_degree(graph, membership, community)
}

spec fn all_zero(links: Seq<u64>, count: int) -> bool {
    links.len() == count && forall|i: int| 0 <= i < count ==> #[trigger] links[i] == 0
}

/// What joining a community is worth to a node: its links there against the degrees of the others.
pub open spec fn score(
    graph: Seq<Vec<(usize, u64)>>,
    membership: Seq<usize>,
    node: int,
    community: int,
) -> int {
    link(graph, membership, node, community) * total_weight(graph) - degree_of(graph, node)
        * others_degree(graph, membership, node, community)
}

/// Degrees of the members of a community other than the node.
pub open spec fn others_degree(
    graph: Seq<Vec<(usize, u64)>>,
    membership: Seq<usize>,
    node: int,
    community: int,
) -> int {
    community_degree(graph, membership, community) - if membership[node] == community {
        degree_of(graph, node)
    } else {
        0
    }
}

/// One community is worth more to a node than another, or as much and comes first.
pub open spec fn preferred(
    graph: Seq<Vec<(usize, u64)>>,
    membership: Seq<usize>,
    node: int,
    left: usize,
    right: usize,
) -> bool {
    let first = score(graph, membership, node, left as int);
    let second = score(graph, membership, node, right as int);
    first > second || first == second && left < right
}

/// The preferred community among that of the node and those of its first `count` neighbors.
pub open spec fn best_community(
    graph: Seq<Vec<(usize, u64)>>,
    membership: Seq<usize>,
    node: int,
    count: int,
) -> usize
    decreases count,
{
    if count <= 0 {
        membership[node]
    } else {
        let best = best_community(graph, membership, node, count - 1);
        let candidate = membership[graph[node]@[count - 1].0 as int];
        if preferred(graph, membership, node, candidate, best) {
            candidate
        } else {
            best
        }
    }
}

/// The membership once a node has gone to its preferred community, if that is worth more to it than
/// the one it is in.
pub open spec fn moved(
    graph: Seq<Vec<(usize, u64)>>,
    membership: Seq<usize>,
    node: int,
) -> Seq<usize> {
    let best = best_community(graph, membership, node, graph[node]@.len() as int);
    if score(graph, membership, node, best as int) > score(
        graph,
        membership,
        node,
        membership[node] as int,
    ) {
        membership.update(node, best)
    } else {
        membership
    }
}

/// The membership once the first `count` nodes, one after the other, have moved where they gain.
pub open spec fn swept(
    graph: Seq<Vec<(usize, u64)>>,
    active: Seq<bool>,
    membership: Seq<usize>,
    count: int,
) -> Seq<usize>
    decreases count,
{
    if count <= 0 {
        membership
    } else {
        let before = swept(graph, active, membership, count - 1);
        if active[count - 1] {
            moved(graph, before, count - 1)
        } else {
            before
        }
    }
}

/// Nodes among the first `count` that moved.
pub open spec fn moves(
    graph: Seq<Vec<(usize, u64)>>,
    active: Seq<bool>,
    membership: Seq<usize>,
    count: int,
) -> int
    decreases count,
{
    if count <= 0 {
        0
    } else {
        moves(graph, active, membership, count - 1) + if swept(graph, active, membership, count)
            == swept(graph, active, membership, count - 1) {
            0int
        } else {
            1
        }
    }
}

/// A pass over all nodes leads from one membership to the other and raises modularity.
pub open spec fn next_sweep(
    graph: Seq<Vec<(usize, u64)>>,
    active: Seq<bool>,
    earlier: Seq<usize>,
    later: Seq<usize>,
) -> bool {
    &&& later == swept(graph, active, earlier, graph.len() as int)
    &&& moves(graph, active, earlier, graph.len() as int) > 0
    &&& modularity(graph, later) > modularity(graph, earlier)
}

/// Memberships from singleton communities on, each the next pass after the one before.
pub open spec fn sweeping(
    graph: Seq<Vec<(usize, u64)>>,
    active: Seq<bool>,
    trace: Seq<Seq<usize>>,
) -> bool {
    &&& trace.len() > 0
    &&& trace[0] == singletons(graph.len())
    &&& forall|i: int|
        0 < i < trace.len() ==> next_sweep(graph, active, trace[i - 1], #[trigger] trace[i])
}

/// The passes up to one that moves no node.
pub open spec fn sweeps(
    graph: Seq<Vec<(usize, u64)>>,
    active: Seq<bool>,
    trace: Seq<Seq<usize>>,
) -> bool {
    &&& sweeping(graph, active, trace)
    &&& swept(graph, active, trace.last(), graph.len() as int) == trace.last()
}

/// A membership and a number of moves were reported, and accepted.
pub open spec fn reported<G: FnMut(&Vec<usize>, usize) -> Result<()>>(
    observe: G,
    membership: Seq<usize>,
    moved: int,
) -> bool {
    exists|held: &Vec<usize>, count: usize|
        held@ == membership && count == moved && #[trigger] call_ensures(
            observe,
            (held, count),
            Ok::<(), Error>(()),
        )
}

/// Every membership of the trace was reported with the moves that led to it.
pub open spec fn all_reported<G: FnMut(&Vec<usize>, usize) -> Result<()>>(
    graph: Seq<Vec<(usize, u64)>>,
    active: Seq<bool>,
    observe: G,
    trace: Seq<Seq<usize>>,
) -> bool {
    forall|i: int|
        0 <= i < trace.len() ==> reported(
            observe,
            #[trigger] trace[i],
            if i == 0 {
                0
            } else {
                moves(graph, active, trace[i - 1], graph.len() as int)
            },
        )
}

/// Some active node is one at which a pass asks whether to go on.
pub open spec fn asks_on_the_way(active: Seq<bool>) -> bool {
    exists|node: int| 0 <= node < active.len() && #[trigger] active[node] && node % 256 == 0
}

proof fn lemma_score_gain(
    graph: Seq<Vec<(usize, u64)>>,
    membership: Seq<usize>,
    node: int,
    community: int,
)
    requires
        0 <= node < graph.len(),
        membership.len() == graph.len(),
        membership[node] != community,
    ensures
        gain(graph, membership, node, community) == score(graph, membership, node, community)
            - score(graph, membership, node, membership[node] as int),
{
    let total = total_weight(graph);
    let degree = degree_of(graph, node);
    let near = link(graph, membership, node, community);
    let own = link(graph, membership, node, membership[node] as int);
    let target = community_degree(graph, membership, community);
    let source = community_degree(graph, membership, membership[node] as int);
    assert(total * (near - own) - degree * (target - source + degree) == (near * total - degree
        * target) - (own * total - degree * (source - degree))) by (nonlinear_arith);
}

/// Products that compare scores fit 128 bits.
proof fn lemma_product_fits(link: int, total: int, degree: int, others: int)
    requires
        0 <= link <= degree,
        0 <= others <= total - degree,
        0 <= degree <= total <= u64::MAX,
    ensures
        0 <= link * total,
        0 <= degree * others,
        link * total + degree * others <= u128::MAX,
{
    assert(0 <= link * total) by (nonlinear_arith)
        requires
            0 <= link,
            0 <= total,
    ;
    assert(0 <= degree * others) by (nonlinear_arith)
        requires
            0 <= degree,
            0 <= others,
    ;
    assert(link * total <= degree * total) by (nonlinear_arith)
        requires
            link <= degree,
            0 <= total,
    ;
    assert(degree * others <= degree * (total - degree)) by (nonlinear_arith)
        requires
            others <= total - degree,
            0 <= degree,
    ;
    assert(degree * total + degree * (total - degree) <= total * total) by (nonlinear_arith)
        requires
            0 <= degree <= total,
    ;
    assert(total * total <= u64::MAX * u64::MAX) by (nonlinear_arith)
        requires
            0 <= total <= u64::MAX,
    ;
}

proof fn lemma_link_bounds(
    graph: Seq<Vec<(usize, u64)>>,
    membership: Seq<usize>,
    node: int,
    community: int,
)
    requires
        targets_inside(graph),
        0 <= node < graph.len(),
        membership.len() == graph.len(),
    ensures
        0 <= link(graph, membership, node, community) <= degree_of(graph, node),
        0 <= others_degree(graph, membership, node, community) <= total_weight(graph) - degree_of(
            graph,
            node,
        ),
        0 <= degree_of(graph, node) <= total_weight(graph),
{
    lemma_row_sum_bounds(graph[node]@, other_member(membership, node, community));
    lemma_community_without(graph, membership, community, node);
}

/// Adds up the links of a node by community.
fn add_links(
    graph: &WeightedGraph,
    node: usize,
    membership: &Vec<usize>,
    links: &mut Vec<u64>,
)
    requires
        targets_inside(graph@),
        total_weight(graph@) <= u64::MAX,
        node < graph.len(),
        membership.len() == graph.len(),
        forall|x: int| 0 <= x < membership.len() ==> #[trigger] membership@[x] < graph.len(),
        all_zero(old(links)@, graph.len() as int),
    ensures
        final(links).len() == graph.len(),
        forall|community: int|
            0 <= community < graph.len() ==> #[trigger] final(links)@[community] == link(
                graph@,
                membership@,
                node as int,
                community,
            ),
{
    let row = &graph[node];
    for index in 0..row.len()
        invariant
            targets_inside(graph@),
            total_weight(graph@) <= u64::MAX,
            node < graph.len(),
            *row == graph@[node as int],
            membership.len() == graph.len(),
            forall|x: int| 0 <= x < membership.len() ==> #[trigger] membership@[x] < graph.len(),
            links.len() == graph.len(),
            forall|community: int|
                0 <= community < graph.len() ==> #[trigger] links@[community] == row_sum(
                    row@.subrange(0, index as int),
                    other_member(membership@, node as int, community),
                ),
    {
        let (neighbor, weight) = row[index];
        let ghost head = row@.subrange(0, index as int);
        let ghost longer = row@.subrange(0, index + 1);
        let ghost before = links@;
        proof {
            assert(graph@[node as int]@[index as int].0 < graph.len());
            assert(longer.drop_last() =~= head);
        }
        if neighbor != node {
            let community: usize = membership[neighbor];
            proof {
                let wanted = other_member(membership@, node as int, community as int);
                assert(row_sum(longer, wanted) == row_sum(head, wanted) + weight);
                lemma_prefix_sum(row@, wanted, index + 1);
                lemma_row_sum_bounds(row@, wanted);
                lemma_community_without(graph@, membership@, community as int, node as int);
            }
            links.set(community, links[community] + weight);
        }
        proof {
            assert forall|community: int| 0 <= community < graph.len() implies #[trigger] links@[community]
                == row_sum(longer, other_member(membership@, node as int, community)) by {
                assert(before[community] == row_sum(
                    head,
                    other_member(membership@, node as int, community),
                ));
            }
        }
    }
    assert(row@.subrange(0, row@.len() as int) =~= row@);
}

proof fn lemma_prefix_sum(row: Seq<(usize, u64)>, wanted: spec_fn(int) -> bool, count: int)
    requires
        0 <= count <= row.len(),
    ensures
        0 <= row_sum(row.subrange(0, count), wanted) <= row_sum(row, wanted),
    decreases row.len() - count,
{
    lemma_row_sum_bounds(row.subrange(0, count), wanted);
    if count < row.len() {
        lemma_prefix_sum(row, wanted, count + 1);
        assert(row.subrange(0, count + 1).drop_last() =~= row.subrange(0, count));
    } else {
        assert(row.subrange(0, count) =~= row);
    }
}

/// Some entry of a row, at `from` or later, leads to another member of a community.
spec fn linked_from(
    row: Seq<(usize, u64)>,
    membership: Seq<usize>,
    node: int,
    community: int,
    from: int,
) -> bool {
    exists|i: int|
        from <= i < row.len() && (#[trigger] row[i]).0 != node && membership[row[i].0 as int]
            == community
}

/// Clears the links of a node.
fn clear_links(graph: &WeightedGraph, node: usize, membership: &Vec<usize>, links: &mut Vec<u64>)
    requires
        targets_inside(graph@),
        node < graph.len(),
        membership.len() == graph.len(),
        forall|x: int| 0 <= x < membership.len() ==> #[trigger] membership@[x] < graph.len(),
        old(links).len() == graph.len(),
        forall|community: int|
            0 <= community < graph.len() ==> #[trigger] old(links)@[community] == link(
                graph@,
                membership@,
                node as int,
                community,
            ),
    ensures
        all_zero(final(links)@, graph.len() as int),
{
    let row = &graph[node];
    proof {
        assert forall|community: int|
            0 <= community < graph.len() && #[trigger] links@[community] != 0 implies linked_from(
            row@,
            membership@,
            node as int,
            community,
            0,
        ) by {
            let wanted = other_member(membership@, node as int, community);
            lemma_row_sum_bounds(row@, wanted);
            if !linked_from(row@, membership@, node as int, community, 0) {
                assert forall|i: int| 0 <= i < row@.len() implies !wanted(
                    (#[trigger] row@[i]).0 as int,
                ) by {}
            }
        }
    }
    for index in 0..row.len()
        invariant
            targets_inside(graph@),
            node < graph.len(),
            *row == graph@[node as int],
            membership.len() == graph.len(),
            forall|x: int| 0 <= x < membership.len() ==> #[trigger] membership@[x] < graph.len(),
            links.len() == graph.len(),
            forall|community: int|
                0 <= community < graph.len() && #[trigger] links@[community] != 0 ==> linked_from(
                    row@,
                    membership@,
                    node as int,
                    community,
                    index as int,
                ),
    {
        let (neighbor, _) = row[index];
        assert(graph@[node as int]@[index as int].0 < graph.len());
        let ghost before = links@;
        if neighbor != node {
            links.set(membership[neighbor], 0);
        }
        proof {
            assert forall|community: int|
                0 <= community < graph.len() && #[trigger] links@[community] != 0 implies linked_from(
                row@,
                membership@,
                node as int,
                community,
                index + 1,
            ) by {
                assert(before[community] != 0);
                let i = choose|i: int|
                    index <= i < row@.len() && (#[trigger] row@[i]).0 != node
                        && membership@[row@[i].0 as int] == community;
                assert(i != index);
            }
        }
    }
    proof {
        assert forall|i: int| 0 <= i < graph.len() implies #[trigger] links@[i] == 0 by {
            assert(!linked_from(row@, membership@, node as int, i, row@.len() as int));
        }
    }
}

/// Moves one node to the best community among its own and those of its neighbors, if that improves
/// modularity. The smallest of equally good communities is best.
#[verifier::rlimit(80)]
#[verifier::spinoff_prover]
fn move_node(
    graph: &WeightedGraph,
    active: &Vec<bool>,
    node: usize,
    degree: u64,
    total: u64,
    membership: &mut Vec<usize>,
    community_weight: &mut Vec<u64>,
    links: &mut Vec<u64>,
) -> (moved: bool)
    requires
        movable(graph@, active@),
        assigned(active@, old(membership)@),
        tallied(graph@, old(membership)@, old(community_weight)@),
        all_zero(old(links)@, graph.len() as int),
        node < graph.len(),
        active@[node as int],
        degree == degree_of(graph@, node as int),
        total == total_weight(graph@),
    ensures
        assigned(active@, final(membership)@),
        tallied(graph@, final(membership)@, final(community_weight)@),
        all_zero(final(links)@, graph.len() as int),
        final(membership)@ == self::moved(graph@, old(membership)@, node as int),
        moved == (final(membership)@ != old(membership)@),
        if moved {
            modularity(graph@, final(membership)@) > modularity(graph@, old(membership)@)
        } else {
            final(membership)@ == old(membership)@ && settled_node(
                graph@,
                old(membership)@,
                node as int,
            )
        },
{
    let ghost before = membership@;
    let ghost rows = graph@;
    let ghost at = node as int;
    add_links(graph, node, membership, links);
    let current: usize = membership[node];
    proof {
        lemma_link_bounds(rows, before, at, current as int);
    }
    let current_link: u64 = links[current];
    let current_others: u64 = community_weight[current] - degree;
    let mut best: usize = current;
    let mut best_link: u64 = current_link;
    let mut best_others: u64 = current_others;
    let row = &graph[node];
    for index in 0..row.len()
        invariant
            movable(graph@, active@),
            assigned(active@, before),
            membership@ == before,
            tallied(graph@, before, community_weight@),
            rows == graph@,
            at == node,
            node < graph.len(),
            *row == rows[at],
            active@[at],
            degree == degree_of(rows, at),
            total == total_weight(rows),
            current == before[at],
            current_others == others_degree(rows, before, at, current as int),
            links.len() == graph.len(),
            forall|community: int|
                0 <= community < graph.len() ==> #[trigger] links@[community] == link(
                    rows,
                    before,
                    at,
                    community,
                ),
            best < graph.len(),
            active@[best as int],
            best_link == link(rows, before, at, best as int),
            best_others == others_degree(rows, before, at, best as int),
            best == best_community(rows, before, at, index as int),
            score(rows, before, at, best as int) >= score(rows, before, at, current as int),
            forall|i: int|
                0 <= i < index ==> score(
                    rows,
                    before,
                    at,
                    before[(#[trigger] row@[i]).0 as int] as int,
                ) <= score(rows, before, at, best as int),
    {
        let (neighbor, _) = row[index];
        assert(rows[at]@[index as int].0 < rows.len());
        assert(active@[rows[at]@[index as int].0 as int]);
        let candidate: usize = membership[neighbor];
        let candidate_link: u64 = links[candidate];
        proof {
            lemma_link_bounds(rows, before, at, candidate as int);
            lemma_link_bounds(rows, before, at, best as int);
            lemma_product_fits(
                candidate_link as int,
                total as int,
                degree as int,
                best_others as int,
            );
        }
        let candidate_others: u64 = if candidate == current {
            current_others
        } else {
            community_weight[candidate]
        };
        proof {
            lemma_product_fits(
                best_link as int,
                total as int,
                degree as int,
                candidate_others as int,
            );
        }
        let left: u128 = (candidate_link as u128) * (total as u128) + (degree as u128) * (
        best_others as u128);
        let right: u128 = (best_link as u128) * (total as u128) + (degree as u128) * (
        candidate_others as u128);
        if left > right || (left == right && candidate < best) {
            best = candidate;
            best_link = candidate_link;
            best_others = candidate_others;
        }
    }
    proof {
        lemma_link_bounds(rows, before, at, best as int);
        lemma_link_bounds(rows, before, at, current as int);
        lemma_product_fits(best_link as int, total as int, degree as int, current_others as int);
        lemma_product_fits(current_link as int, total as int, degree as int, best_others as int);
    }
    let improvement_left: u128 = (best_link as u128) * (total as u128) + (degree as u128) * (
    current_others as u128);
    let improvement_right: u128 = (current_link as u128) * (total as u128) + (degree as u128) * (
    best_others as u128);
    clear_links(graph, node, membership, links);
    if best != current && improvement_left > improvement_right {
        proof {
            lemma_score_gain(rows, before, at, best as int);
            law_move_changes_modularity(rows, before, at, best);
            lemma_community_without(rows, before, best as int, at);
            lemma_retally(rows, before, community_weight@, at, best);
        }
        community_weight.set(current, community_weight[current] - degree);
        community_weight.set(best, community_weight[best] + degree);
        membership.set(node, best);
        assert(membership@[at] != before[at]);
        true
    } else {
        proof {
            assert forall|i: int| 0 <= i < rows[at]@.len() implies stays(
                rows,
                before,
                at,
                (#[trigger] rows[at]@[i]).0 as int,
            ) by {
                let community = before[row@[i].0 as int];
                if community != before[at] {
                    lemma_score_gain(rows, before, at, community as int);
                }
            }
        }
        false
    }
}

/// Community degrees after one move.
proof fn lemma_retally(
    graph: Seq<Vec<(usize, u64)>>,
    membership: Seq<usize>,
    community_weight: Seq<u64>,
    node: int,
    community: usize,
)
    requires
        targets_inside(graph),
        membership.len() == graph.len(),
        0 <= node < graph.len(),
        community < graph.len(),
        membership[node] < graph.len(),
        membership[node] != community,
        tallied(graph, membership, community_weight),
        total_weight(graph) <= u64::MAX,
    ensures
        ({
            let degree = degree_of(graph, node);
            let source = membership[node] as int;
            let first = community_weight.update(source, (community_weight[source] - degree) as u64);
            tallied(
                graph,
                membership.update(node, community),
                first.update(
                    community as int,
                    (community_weight[community as int] + degree) as u64,
                ),
            )
        }),
        community_weight[membership[node] as int] >= degree_of(graph, node),
        community_weight[community as int] + degree_of(graph, node) <= u64::MAX,
{
    let after = membership.update(node, community);
    lemma_community_without(graph, membership, community as int, node);
    lemma_community_without(graph, membership, membership[node] as int, node);
    assert forall|other: int| 0 <= other < graph.len() implies community_degree(graph, after, other)
        == #[trigger] community_weight[other] + if other == community {
        degree_of(graph, node)
    } else if other == membership[node] {
        -degree_of(graph, node)
    } else {
        0
    } by {
        crate::algorithms::weights::lemma_moved_degrees(graph, membership, node, community, other);
    }
}

/// No move of any active node improves modularity.
pub open spec fn locally_optimal(
    graph: Seq<Vec<(usize, u64)>>,
    active: Seq<bool>,
    membership: Seq<usize>,
) -> bool {
    forall|node: int|
        0 <= node < graph.len() && #[trigger] active[node] ==> settled_node(graph, membership, node)
}

/// The degree of every node.
spec fn node_degrees(graph: Seq<Vec<(usize, u64)>>, degree: Seq<u64>) -> bool {
    &&& degree.len() == graph.len()
    &&& forall|node: int|
        0 <= node < graph.len() ==> #[trigger] degree[node] == degree_of(graph, node)
}

fn row_degree(graph: &WeightedGraph, node: usize) -> (degree: u64)
    requires
        targets_inside(graph@),
        total_weight(graph@) <= u64::MAX,
        node < graph.len(),
    ensures
        degree == degree_of(graph@, node as int),
{
    let row = &graph[node];
    let mut degree: u64 = 0;
    proof {
        let membership: Seq<usize> = Seq::new(graph.len() as nat, |i: int| 0usize);
        lemma_community_without(graph@, membership, 0, node as int);
    }
    for index in 0..row.len()
        invariant
            node < graph.len(),
            *row == graph@[node as int],
            degree_of(graph@, node as int) <= u64::MAX,
            degree == row_sum(row@.subrange(0, index as int), every_target()),
    {
        proof {
            assert(row@.subrange(0, index + 1).drop_last() =~= row@.subrange(0, index as int));
            lemma_prefix_sum(row@, every_target(), index + 1);
        }
        degree = degree + row[index].1;
    }
    assert(row@.subrange(0, row@.len() as int) =~= row@);
    degree
}

/// One local-moving pass: every active node in ascending order. A pass that moves a node strictly
/// increases modularity; a pass that moves none leaves a local optimum.
pub fn louvain_pass<F: FnMut() -> Result<()>>(
    graph: &WeightedGraph,
    active: &Vec<bool>,
    degree: &Vec<u64>,
    total: u64,
    membership: &mut Vec<usize>,
    community_weight: &mut Vec<u64>,
    check: &mut F,
) -> (result: Result<usize>)
    requires
        movable(graph@, active@),
        degrees_match(graph@, degree@, total),
        assigned(active@, old(membership)@),
        communities_match(graph@, old(membership)@, old(community_weight)@),
        call_requires(*old(check), ()),
    ensures
        *final(check) == *old(check),
        assigned(active@, final(membership)@),
        communities_match(graph@, final(membership)@, final(community_weight)@),
        match result {
            Ok(accepted) => {
                &&& final(membership)@ == swept(
                    graph@,
                    active@,
                    old(membership)@,
                    graph@.len() as int,
                )
                &&& accepted == moves(graph@, active@, old(membership)@, graph@.len() as int)
                &&& asks_on_the_way(active@) ==> goes_on(*old(check))
                &&& if accepted == 0 {
                    &&& final(membership)@ == old(membership)@
                    &&& locally_optimal(graph@, active@, final(membership)@)
                } else {
                    modularity(graph@, final(membership)@) > modularity(graph@, old(membership)@)
                }
            },
            Err(error) => call_ensures(*old(check), (), Err::<(), Error>(error)),
        },
{
    let node_count: usize = graph.len();
    let mut links: Vec<u64> = vec![0u64; node_count];
    let mut accepted: usize = 0;
    let ghost before = membership@;
    for node in 0..node_count
        invariant
            node_count == graph.len(),
            movable(graph@, active@),
            degrees_match(graph@, degree@, total),
            assigned(active@, membership@),
            communities_match(graph@, membership@, community_weight@),
            *check == *old(check),
            call_requires(*check, ()),
            all_zero(links@, graph.len() as int),
            accepted <= node,
            membership@ == swept(graph@, active@, before, node as int),
            accepted == moves(graph@, active@, before, node as int),
            forall|v: int|
                0 <= v < node && #[trigger] active@[v] && v % 256 == 0 ==> goes_on(
                    *old(check),
                ),
            accepted == 0 ==> membership@ == before,
            accepted > 0 ==> modularity(graph@, membership@) > modularity(graph@, before),
            accepted == 0 ==> forall|v: int|
                0 <= v < node && #[trigger] active@[v] ==> settled_node(graph@, before, v),
    {
        if active[node] {
            if node % 256 == 0 {
                match ask(check) {
                    Ok(_) => {},
                    Err(error) => {
                        return Err(error);
                    },
                }
            }
            let moved = move_node(
                graph,
                active,
                node,
                degree[node],
                total,
                membership,
                community_weight,
                &mut links,
            );
            if moved {
                accepted = accepted + 1;
            }
        }
    }
    Ok(accepted)
}

/// The degrees and the total weight of a graph.
pub closed spec fn degrees_match(
    graph: Seq<Vec<(usize, u64)>>,
    degree: Seq<u64>,
    total: u64,
) -> bool {
    node_degrees(graph, degree) && total == total_weight(graph)
}

/// The community degrees of a membership.
pub closed spec fn communities_match(
    graph: Seq<Vec<(usize, u64)>>,
    membership: Seq<usize>,
    community_weight: Seq<u64>,
) -> bool {
    tallied(graph, membership, community_weight)
}

/// What local moving gives: where the passes from singleton communities on come to rest. No single
/// move improves these communities, and they are at least as good as singleton communities.
pub open spec fn local_move_result(
    graph: Seq<Vec<(usize, u64)>>,
    active: Seq<bool>,
    membership: Seq<usize>,
) -> bool {
    &&& assigned(active, membership)
    &&& locally_optimal(graph, active, membership)
    &&& modularity(graph, membership) >= modularity(graph, singletons(graph.len()))
    &&& comes_to_rest(graph, active, membership)
}

/// The passes from singleton communities on end with this membership.
pub open spec fn comes_to_rest(
    graph: Seq<Vec<(usize, u64)>>,
    active: Seq<bool>,
    membership: Seq<usize>,
) -> bool {
    exists|trace: Seq<Seq<usize>>| #[trigger]
        sweeps(graph, active, trace) && trace.last() == membership
}

/// Passes from one start go through the same memberships.
proof fn lemma_same_sweeps(
    graph: Seq<Vec<(usize, u64)>>,
    active: Seq<bool>,
    left: Seq<Seq<usize>>,
    right: Seq<Seq<usize>>,
    place: int,
)
    requires
        sweeps(graph, active, left),
        sweeping(graph, active, right),
        0 <= place < right.len(),
    ensures
        place < left.len(),
        left[place] == right[place],
    decreases place,
{
    if place > 0 {
        lemma_same_sweeps(graph, active, left, right, place - 1);
        assert(next_sweep(graph, active, right[place - 1], right[place]));
        if place < left.len() {
            assert(next_sweep(graph, active, left[place - 1], left[place]));
        }
    }
}

/// Local moving comes to rest in one way only.
pub proof fn law_local_moving_is_determined(
    graph: Seq<Vec<(usize, u64)>>,
    active: Seq<bool>,
    left: Seq<usize>,
    right: Seq<usize>,
)
    requires
        comes_to_rest(graph, active, left),
        comes_to_rest(graph, active, right),
    ensures
        left == right,
{
    let first = choose|trace: Seq<Seq<usize>>| #[trigger]
        sweeps(graph, active, trace) && trace.last() == left;
    let second = choose|trace: Seq<Seq<usize>>| #[trigger]
        sweeps(graph, active, trace) && trace.last() == right;
    lemma_same_sweeps(graph, active, first, second, second.len() - 1);
    lemma_same_sweeps(graph, active, second, first, first.len() - 1);
}

proof fn lemma_singletons_tallied(graph: Seq<Vec<(usize, u64)>>, degree: Seq<u64>)
    requires
        targets_inside(graph),
        graph.len() <= usize::MAX,
        node_degrees(graph, degree),
    ensures
        tallied(graph, singletons(graph.len()), degree),
{
    let membership = singletons(graph.len());
    assert forall|community: int| 0 <= community < graph.len() implies #[trigger] degree[community]
        == community_degree(graph, membership, community) by {
        let own = crate::algorithms::weights::from_node(community, every_target());
        crate::algorithms::weights::lemma_one_source(
            graph,
            community,
            every_target(),
            graph.len() as int,
        );
        lemma_same(graph, leaving(membership, community), own);
    }
}

/// Without weight no community is worth more than another.
proof fn lemma_weightless_sweep(graph: Seq<Vec<(usize, u64)>>, active: Seq<bool>, count: int)
    requires
        targets_inside(graph),
        total_weight(graph) == 0,
        graph.len() <= usize::MAX,
        0 <= count <= graph.len(),
    ensures
        swept(graph, active, singletons(graph.len()), count) == singletons(graph.len()),
    decreases count,
{
    if count > 0 {
        let membership = singletons(graph.len());
        let node = count - 1;
        lemma_weightless_sweep(graph, active, node);
        lemma_community_without(graph, membership, node, node);
        let degree = degree_of(graph, node);
        assert(degree == 0);
        assert forall|community: int| #[trigger] score(graph, membership, node, community) == 0 by {
            let near = link(graph, membership, node, community);
            let others = others_degree(graph, membership, node, community);
            assert(near * total_weight(graph) == 0) by (nonlinear_arith)
                requires
                    total_weight(graph) == 0,
            ;
            assert(degree * others == 0) by (nonlinear_arith)
                requires
                    degree == 0,
            ;
        }
    }
}

proof fn lemma_weightless(graph: Seq<Vec<(usize, u64)>>, active: Seq<bool>)
    requires
        targets_inside(graph),
        total_weight(graph) == 0,
        graph.len() <= usize::MAX,
    ensures
        locally_optimal(graph, active, singletons(graph.len())),
        swept(graph, active, singletons(graph.len()), graph.len() as int) == singletons(
            graph.len(),
        ),
{
    lemma_weightless_sweep(graph, active, graph.len() as int);
    let membership = singletons(graph.len());
    assert forall|node: int| 0 <= node < graph.len() && #[trigger] active[node] implies settled_node(
        graph,
        membership,
        node,
    ) by {
        assert forall|i: int| 0 <= i < graph[node]@.len() implies stays(
            graph,
            membership,
            node,
            (#[trigger] graph[node]@[i]).0 as int,
        ) by {
            let community = membership[graph[node]@[i].0 as int] as int;
            lemma_community_without(graph, membership, community, node);
            let degree = degree_of(graph, node);
            assert(degree == 0);
            let factor = community_degree(graph, membership, community) - community_degree(
                graph,
                membership,
                membership[node] as int,
            ) + degree;
            assert(degree * factor == 0) by (nonlinear_arith)
                requires
                    degree == 0,
            ;
            let links = link(graph, membership, node, community) - link(
                graph,
                membership,
                node,
                membership[node] as int,
            );
            assert(total_weight(graph) * links == 0) by (nonlinear_arith)
                requires
                    total_weight(graph) == 0,
            ;
        }
    }
}

/// Local moving to a fixed point, reporting the membership before the first pass and after every
/// pass that moved a node, with the number of moves.
pub fn louvain_local_move_traced<
    F: FnMut() -> Result<()>,
    G: FnMut(&Vec<usize>, usize) -> Result<()>,
>(
    graph: &WeightedGraph,
    active_nodes: &Vec<bool>,
    check: &mut F,
    observe: &mut G,
) -> (result: Result<Vec<usize>>)
    requires
        active_nodes.len() == graph.len() ==> movable(graph@, active_nodes@),
        call_requires(*old(check), ()),
        forall|membership: &Vec<usize>, moves: usize| #[trigger]
            call_requires(*old(observe), (membership, moves)),
    ensures
        *final(check) == *old(check),
        *final(observe) == *old(observe),
        active_nodes.len() == graph.len() && total_weight(graph@) == 0 ==> result is Ok,
        if active_nodes.len() != graph.len() {
            fails_with(result, ErrorCode::Internal, "Louvain active-node shape mismatch"@)
        } else {
            match result {
                Ok(membership) => {
                    &&& local_move_result(graph@, active_nodes@, membership@)
                    &&& exists|trace: Seq<Seq<usize>>|
                        {
                            &&& #[trigger] sweeps(graph@, active_nodes@, trace)
                            &&& trace.last() == membership@
                            &&& total_weight(graph@) > 0 ==> all_reported(
                                graph@,
                                active_nodes@,
                                *old(observe),
                                trace,
                            )
                        }
                    &&& total_weight(graph@) > 0 && asks_on_the_way(active_nodes@) ==> goes_on(
                        *old(check),
                    )
                },
                Err(error) => call_ensures(*old(check), (), Err::<(), Error>(error)) || exists|
                    membership: &Vec<usize>,
                    moves: usize,
                | #[trigger]
                    call_ensures(
                        *old(observe),
                        (membership, moves),
                        Err::<(), Error>(error),
                    ),
            }
        },
{
    let node_count: usize = graph.len();
    if active_nodes.len() != node_count {
        return Err(Error::internal("Louvain active-node shape mismatch"));
    }
    let mut degree: Vec<u64> = Vec::with_capacity(node_count);
    let mut total: u64 = 0;
    let mut membership: Vec<usize> = Vec::with_capacity(node_count);
    for node in 0..node_count
        invariant
            node_count == graph.len(),
            movable(graph@, active_nodes@),
            degree.len() == node,
            membership@ == singletons(node as nat),
            total == partial_weight(graph@, every_pair(), node as int),
            forall|v: int| 0 <= v < node ==> #[trigger] degree@[v] == degree_of(graph@, v),
    {
        let own: u64 = row_degree(graph, node);
        proof {
            lemma_row_sum_same(
                graph@[node as int]@,
                |to: int| every_pair()(node as int, to),
                every_target(),
            );
            lemma_partial_grows(graph@, every_pair(), node + 1, node_count as int);
        }
        total = total + own;
        degree.push(own);
        membership.push(node);
        assert(membership@ =~= singletons((node + 1) as nat));
    }
    if total == 0 {
        proof {
            lemma_weightless(graph@, active_nodes@);
            let trace = seq![membership@];
            assert(sweeps(graph@, active_nodes@, trace));
        }
        return Ok(membership);
    }
    let answer = observe(&membership, 0);
    match answer {
        Ok(unit) => {
            assert(unit == ());
            assert(answer == Ok::<(), Error>(()));
            assert(reported(*old(observe), membership@, 0));
        },
        Err(error) => {
            return Err(error);
        },
    }
    let mut community_weight: Vec<u64> = Vec::with_capacity(node_count);
    for node in 0..node_count
        invariant
            degree.len() == node_count,
            community_weight@ == degree@.subrange(0, node as int),
    {
        community_weight.push(degree[node]);
        assert(community_weight@ =~= degree@.subrange(0, node + 1));
    }
    proof {
        assert(community_weight@ =~= degree@);
        lemma_singletons_tallied(graph@, degree@);
    }
    let ghost mut trace: Seq<Seq<usize>> = seq![membership@];
    loop
        invariant
            movable(graph@, active_nodes@),
            sweeping(graph@, active_nodes@, trace),
            trace.last() == membership@,
            total > 0,
            all_reported(graph@, active_nodes@, *old(observe), trace),
            degrees_match(graph@, degree@, total),
            assigned(active_nodes@, membership@),
            communities_match(graph@, membership@, community_weight@),
            modularity(graph@, membership@) >= modularity(graph@, singletons(graph@.len())),
            *check == *old(check),
            call_requires(*check, ()),
            *observe == *old(observe),
            forall|m: &Vec<usize>, moves: usize| #[trigger] call_requires(*observe, (m, moves)),
        decreases total_weight(graph@) * total_weight(graph@) - modularity(graph@, membership@),
    {
        proof {
            lemma_modularity_bound(graph@, membership@);
        }
        let ghost before = membership@;
        let accepted: usize = match louvain_pass(
            graph,
            active_nodes,
            &degree,
            total,
            &mut membership,
            &mut community_weight,
            check,
        ) {
            Ok(accepted) => accepted,
            Err(error) => {
                return Err(error);
            },
        };
        proof {
            lemma_modularity_bound(graph@, membership@);
        }
        if accepted == 0 {
            assert(sweeps(graph@, active_nodes@, trace));
            return Ok(membership);
        }
        let answer = observe(&membership, accepted);
        match answer {
            Ok(unit) => {
                assert(unit == ());
                assert(answer == Ok::<(), Error>(()));
            },
            Err(error) => {
                return Err(error);
            },
        }
        proof {
            let longer = trace.push(membership@);
            assert(reported(
                *old(observe),
                membership@,
                moves(graph@, active_nodes@, before, graph@.len() as int),
            ));
            assert forall|i: int| 0 < i < longer.len() implies next_sweep(
                graph@,
                active_nodes@,
                longer[i - 1],
                #[trigger] longer[i],
            ) by {
                if i < trace.len() {
                    assert(next_sweep(graph@, active_nodes@, trace[i - 1], trace[i]));
                }
            }
            assert forall|i: int| 0 <= i < longer.len() implies reported(
                *old(observe),
                #[trigger] longer[i],
                if i == 0 {
                    0
                } else {
                    moves(graph@, active_nodes@, longer[i - 1], graph@.len() as int)
                },
            ) by {
                if i < trace.len() {
                    assert(reported(
                        *old(observe),
                        trace[i],
                        if i == 0 {
                            0
                        } else {
                            moves(graph@, active_nodes@, trace[i - 1], graph@.len() as int)
                        },
                    ));
                }
            }
            trace = longer;
        }
    }
}

/// Moves nodes between communities until no single move raises modularity.
pub fn louvain_local_move<F: FnMut() -> Result<()>>(
    graph: &WeightedGraph,
    active_nodes: &Vec<bool>,
    check: &mut F,
) -> (result: Result<Vec<usize>>)
    requires
        movable(graph@, active_nodes@),
        call_requires(*old(check), ()),
    ensures
        *final(check) == *old(check),
        total_weight(graph@) == 0 ==> result is Ok,
        match result {
            Ok(membership) => {
                &&& local_move_result(graph@, active_nodes@, membership@)
                &&& total_weight(graph@) > 0 && asks_on_the_way(active_nodes@) ==> goes_on(
                    *old(check),
                )
            },
            Err(error) => call_ensures(*old(check), (), Err::<(), Error>(error)),
        },
{
    let mut silent = |membership: &Vec<usize>, moves: usize| -> (result: Result<()>)
        ensures
            result is Ok,
        { Ok(()) };
    louvain_local_move_traced(graph, active_nodes, check, &mut silent)
}

/// A node moves to the community of a neighbor whose taking it in gives the highest modularity, of several
/// to the one with the smallest number, and only where that is higher than before.
pub proof fn law_moves_gain_most(
    graph: Seq<Vec<(usize, u64)>>,
    membership: Seq<usize>,
    node: int,
    neighbor: int,
)
    requires
        targets_inside(graph),
        undirected(graph),
        membership.len() == graph.len(),
        forall|x: int| 0 <= x < membership.len() ==> #[trigger] membership[x] < graph.len(),
        0 <= node < graph.len(),
        0 <= neighbor < graph[node]@.len(),
    ensures
        ({
            let target = membership[graph[node]@[neighbor].0 as int];
            let after = moved(graph, membership, node);
            let other = membership.update(node, target);
            &&& modularity(graph, after) >= modularity(graph, other)
            &&& modularity(graph, after) >= modularity(graph, membership)
            &&& after != membership ==> modularity(graph, after) > modularity(graph, membership)
            &&& after != membership && modularity(graph, after) == modularity(graph, other)
                ==> after[node] <= target
            &&& forall|x: int|
                0 <= x < membership.len() && x != node ==> #[trigger] after[x] == membership[x]
        }),
{
    let count = graph[node]@.len() as int;
    let best = best_community(graph, membership, node, count);
    let target = membership[graph[node]@[neighbor].0 as int];
    assert(graph[node]@[neighbor].0 < graph.len());
    lemma_best_of(graph, membership, node, count, neighbor);
    lemma_update_modularity(graph, membership, node, best);
    lemma_update_modularity(graph, membership, node, target);
    if membership.update(node, best) == membership {
        assert(membership.update(node, best)[node] == best);
    }
}

proof fn lemma_best_of(
    graph: Seq<Vec<(usize, u64)>>,
    membership: Seq<usize>,
    node: int,
    count: int,
    neighbor: int,
)
    requires
        targets_inside(graph),
        membership.len() == graph.len(),
        forall|x: int| 0 <= x < membership.len() ==> #[trigger] membership[x] < graph.len(),
        0 <= node < graph.len(),
        0 <= count <= graph[node]@.len(),
    ensures
        ({
            let best = best_community(graph, membership, node, count);
            &&& best < graph.len()
            &&& score(graph, membership, node, best as int) >= score(
                graph,
                membership,
                node,
                membership[node] as int,
            )
            &&& 0 <= neighbor < count ==> !preferred(
                graph,
                membership,
                node,
                membership[graph[node]@[neighbor].0 as int],
                best,
            )
        }),
    decreases count,
{
    if count > 0 {
        lemma_best_of(graph, membership, node, count - 1, neighbor);
        assert(graph[node]@[count - 1].0 < graph.len());
    }
}

proof fn lemma_update_modularity(
    graph: Seq<Vec<(usize, u64)>>,
    membership: Seq<usize>,
    node: int,
    community: usize,
)
    requires
        targets_inside(graph),
        undirected(graph),
        membership.len() == graph.len(),
        forall|x: int| 0 <= x < membership.len() ==> #[trigger] membership[x] < graph.len(),
        0 <= node < graph.len(),
        community < graph.len(),
    ensures
        modularity(graph, membership.update(node, community)) == modularity(graph, membership) + 2
            * (score(graph, membership, node, community as int) - score(
            graph,
            membership,
            node,
            membership[node] as int,
        )),
{
    if community == membership[node] {
        assert(membership.update(node, community) =~= membership);
    } else {
        law_move_changes_modularity(graph, membership, node, community);
        lemma_score_gain(graph, membership, node, community as int);
    }
}

} // verus!
