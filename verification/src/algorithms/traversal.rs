//! Breadth-first distances, depth-first preorder and unweighted shortest paths.

use crate::cancel::{ask, goes_on};
use crate::csr::Csr;
use crate::error::{fails_with, Error, ErrorCode, Result};
use crate::reach::{lemma_closed_set, lemma_reaches_edge, lemma_reaches_self, reaches, Relation};
use vstd::prelude::*;

verus! {

/// The edges of an adjacency.
pub open spec fn edges_of(csr: Csr) -> Relation {
    |from: int, to: int| csr.leads(from, to)
}

/// Rows of an adjacency.
pub fn node_count_of(csr: &Csr) -> (count: usize)
    ensures
        count == csr.node_total(),
{
    let offsets = csr.offsets();
    if offsets.len() == 0 {
        0
    } else {
        offsets.len() - 1
    }
}

/// Polls nothing and never fails.
pub fn never_cancelled() -> (result: Result<()>)
    ensures
        result is Ok,
{
    Ok(())
}

pub proof fn lemma_leads_row(csr: Csr, from: int, to: int)
    requires
        csr.targets_are_rows(),
        csr.leads(from, to),
    ensures
        0 <= from < csr.node_total(),
        0 <= to < csr.node_total(),
{
    let row = csr.spec_row(from)->Some_0;
    let i = choose|i: int| 0 <= i < row.len() && (#[trigger] row[i]).0 == to;
    assert(csr.spec_neighbors()[csr.spec_offsets()[from] + i] == to);
}

/// Breadth-first hop distances from `source`.
pub fn bfs(adjacency: &Csr, source: u32) -> (distances: Result<Vec<Option<u32>>>)
    requires
        adjacency.targets_are_rows(),
    ensures
        if source < adjacency.node_total() {
            distances is Ok && adjacency.shortest_hops(seq![source], None, distances->Ok_0@)
        } else {
            fails_with(distances, ErrorCode::QueryType, "BFS source is out of bounds"@)
        },
{
    bfs_cancellable(adjacency, source, never_cancelled)
}

/// Breadth-first hop distances with bounded-latency cancellation checks: the frontier expansion of
/// the adjacency from a single seed.
pub fn bfs_cancellable<F: FnMut() -> Result<()>>(
    adjacency: &Csr,
    source: u32,
    check: F,
) -> (distances: Result<Vec<Option<u32>>>)
    requires
        adjacency.targets_are_rows(),
        call_requires(check, ()),
    ensures
        if source < adjacency.node_total() {
            match distances {
                Ok(distance) => {
                    &&& adjacency.shortest_hops(seq![source], None, distance@)
                    &&& goes_on(check)
                },
                Err(error) => call_ensures(check, (), Err::<(), Error>(error)),
            }
        } else {
            fails_with(distances, ErrorCode::QueryType, "BFS source is out of bounds"@)
        },
{
    if source as usize >= node_count_of(adjacency) {
        return Err(Error::new(ErrorCode::QueryType, "BFS source is out of bounds"));
    }
    let seeds = [source];
    assert(seeds@ =~= seq![source]);
    assert(seeds@[0] < adjacency.node_total());
    adjacency.multi_source_frontier_distances(&seeds, None, check)
}

/// The neighbors in a row, in row order.
pub open spec fn row_nodes(csr: Csr, node: u32) -> Seq<u32> {
    match csr.spec_row(node as int) {
        Some(row) => Seq::new(row.len(), |i: int| row[i].0),
        None => Seq::empty(),
    }
}

/// The nodes of a list that are not in `order`, in list order.
pub open spec fn unvisited(nodes: Seq<u32>, order: Seq<u32>) -> Seq<u32>
    decreases nodes.len(),
{
    if nodes.len() == 0 {
        Seq::empty()
    } else if order.contains(nodes.last()) {
        unvisited(nodes.drop_last(), order)
    } else {
        unvisited(nodes.drop_last(), order).push(nodes.last())
    }
}

/// The depth-first preorder that continues `order` with the nodes waiting in `work`, the next one
/// first: a node visited already is skipped, any other is appended and its unvisited neighbors are
/// visited, in row order, before the rest of the work.
pub open spec fn preorder(csr: Csr, order: Seq<u32>, work: Seq<u32>) -> Seq<u32>
    decreases 0x1_0000_0001 - order.len(), work.len(),
{
    if work.len() == 0 || order.len() > 0x1_0000_0000 {
        order
    } else if order.contains(work[0]) {
        preorder(csr, order, work.skip(1))
    } else {
        let next = order.push(work[0]);
        preorder(csr, next, unvisited(row_nodes(csr, work[0]), next) + work.skip(1))
    }
}

/// There are no more distinct nodes than 32 bits can tell apart.
pub proof fn lemma_distinct_nodes(nodes: Seq<u32>)
    requires
        nodes.no_duplicates(),
    ensures
        nodes.len() <= 0x1_0000_0000,
{
    let wide = nodes.map(|i: int, node: u32| node as int);
    assert(wide.no_duplicates());
    wide.unique_seq_to_set();
    let range = vstd::set_lib::set_int_range(0, 0x1_0000_0000);
    vstd::set_lib::lemma_int_range(0, 0x1_0000_0000);
    assert(wide.to_set().subset_of(range));
    vstd::set_lib::lemma_len_subset(wide.to_set(), range);
}

proof fn lemma_unvisited(nodes: Seq<u32>, order: Seq<u32>)
    ensures
        forall|node: u32| #[trigger]
            unvisited(nodes, order).contains(node) <==> nodes.contains(node) && !order.contains(
                node,
            ),
    decreases nodes.len(),
{
    if nodes.len() > 0 {
        let rest = nodes.drop_last();
        lemma_unvisited(rest, order);
        let all = unvisited(nodes, order);
        let before = unvisited(rest, order);
        assert forall|node: u32| #[trigger] all.contains(node) <==> nodes.contains(node)
            && !order.contains(node) by {
            assert(before.contains(node) <==> rest.contains(node) && !order.contains(node));
            assert(nodes =~= rest.push(nodes.last()));
            if nodes.contains(node) && node != nodes.last() {
                let i = choose|i: int| 0 <= i < nodes.len() && nodes[i] == node;
                assert(rest[i] == node);
            }
            if rest.contains(node) {
                let i = choose|i: int| 0 <= i < rest.len() && rest[i] == node;
                assert(nodes[i] == node);
            }
            if node == nodes.last() {
                assert(nodes[nodes.len() - 1] == node);
            }
            if before.contains(node) {
                let i = choose|i: int| 0 <= i < before.len() && before[i] == node;
                assert(all[i] == node);
            }
            if all.contains(node) && node != nodes.last() {
                let i = choose|i: int| 0 <= i < all.len() && all[i] == node;
                assert(before[i] == node);
            }
            if node == nodes.last() && !order.contains(node) {
                assert(all[all.len() - 1] == node);
            }
        }
    }
}

proof fn lemma_row_nodes(csr: Csr, node: u32, to: u32)
    ensures
        row_nodes(csr, node).contains(to) <==> csr.leads(node as int, to as int),
{
    if csr.spec_row(node as int) is Some {
        let row = csr.spec_row(node as int)->Some_0;
        let nodes = row_nodes(csr, node);
        if nodes.contains(to) {
            let i = choose|i: int| 0 <= i < nodes.len() && nodes[i] == to;
            assert(row[i].0 == to);
        }
        if csr.leads(node as int, to as int) {
            let i = choose|i: int| 0 <= i < row.len() && (#[trigger] row[i]).0 == to as int;
            assert(nodes[i] == to);
        }
    }
}

/// Positions that are marked.
pub open spec fn marked(marks: Seq<bool>) -> int
    decreases marks.len(),
{
    if marks.len() == 0 {
        0
    } else {
        marked(marks.drop_last()) + if marks.last() {
            1int
        } else {
            0
        }
    }
}

pub proof fn lemma_marked_bounds(marks: Seq<bool>)
    ensures
        0 <= marked(marks) <= marks.len(),
        (forall|i: int| 0 <= i < marks.len() ==> !#[trigger] marks[i]) ==> marked(marks) == 0,
    decreases marks.len(),
{
    if marks.len() > 0 {
        let rest = marks.drop_last();
        lemma_marked_bounds(rest);
        if forall|i: int| 0 <= i < marks.len() ==> !#[trigger] marks[i] {
            assert forall|i: int| 0 <= i < rest.len() implies !#[trigger] rest[i] by {
                assert(!marks[i]);
            }
        }
    }
}

pub proof fn lemma_marked_step(marks: Seq<bool>, index: int)
    requires
        0 <= index < marks.len(),
        !marks[index],
    ensures
        marked(marks.update(index, true)) == marked(marks) + 1,
    decreases marks.len(),
{
    let after = marks.update(index, true);
    if index == marks.len() - 1 {
        assert(after.drop_last() =~= marks.drop_last());
    } else {
        lemma_marked_step(marks.drop_last(), index);
        assert(after.drop_last() =~= marks.drop_last().update(index, true));
    }
}

/// The preorder holds each node that `source` reaches, once.
pub open spec fn visits_reachable(csr: Csr, source: u32, order: Seq<u32>) -> bool {
    &&& order.no_duplicates()
    &&& forall|node: u32| #[trigger]
        order.contains(node) <==> reaches(edges_of(csr), source as int, node as int)
}

/// Iterative deterministic depth-first preorder.
pub fn dfs(adjacency: &Csr, source: u32) -> (order: Result<Vec<u32>>)
    requires
        adjacency.targets_are_rows(),
    ensures
        if source < adjacency.node_total() {
            &&& order is Ok
            &&& order->Ok_0@ == preorder(*adjacency, Seq::empty(), seq![source])
            &&& visits_reachable(*adjacency, source, order->Ok_0@)
        } else {
            fails_with(order, ErrorCode::QueryType, "DFS source is out of bounds"@)
        },
{
    dfs_cancellable(adjacency, source, never_cancelled)
}

/// Iterative deterministic depth-first preorder with cancellation checks.
#[verifier::rlimit(80)]
#[verifier::spinoff_prover]
pub fn dfs_cancellable<F: FnMut() -> Result<()>>(
    adjacency: &Csr,
    source: u32,
    check: F,
) -> (result: Result<Vec<u32>>)
    requires
        adjacency.targets_are_rows(),
        call_requires(check, ()),
    ensures
        if source < adjacency.node_total() {
            match result {
                Ok(order) => {
                    &&& order@ == preorder(*adjacency, Seq::empty(), seq![source])
                    &&& visits_reachable(*adjacency, source, order@)
                    &&& goes_on(check)
                },
                Err(error) => call_ensures(check, (), Err::<(), Error>(error)),
            }
        } else {
            fails_with(result, ErrorCode::QueryType, "DFS source is out of bounds"@)
        },
{
    let mut poll = check;
    let node_count: usize = node_count_of(adjacency);
    if source as usize >= node_count {
        return Err(Error::new(ErrorCode::QueryType, "DFS source is out of bounds"));
    }
    let neighbors = adjacency.neighbors();
    let mut visited: Vec<bool> = vec![false; node_count];
    let mut stack: Vec<u32> = vec![source];
    let mut order: Vec<u32> = Vec::new();
    let ghost edge = edges_of(*adjacency);
    proof {
        assert(stack@.reverse() =~= seq![source]);
        lemma_reaches_self(edge, source as int);
        lemma_marked_bounds(visited@);
    }
    while stack.len() > 0
        invariant
            adjacency.targets_are_rows(),
            node_count == adjacency.node_total(),
            neighbors@ == adjacency.spec_neighbors(),
            edge == edges_of(*adjacency),
            poll == check,
            call_requires(poll, ()),
            visited.len() == node_count,
            source < node_count,
            order.len() > 0 ==> goes_on(check),
            order.len() == marked(visited@),
            order@.no_duplicates(),
            forall|node: u32| #[trigger]
                order@.contains(node) <==> node < node_count && visited@[node as int],
            forall|i: int|
                0 <= i < stack.len() ==> (#[trigger] stack@[i]) < node_count && reaches(
                    edge,
                    source as int,
                    stack@[i] as int,
                ),
            forall|i: int|
                0 <= i < order.len() ==> reaches(edge, source as int, #[trigger] order@[i] as int),
            order@.contains(source) || stack@.contains(source),
            forall|node: u32, to: u32|
                order@.contains(node) && #[trigger] adjacency.leads(node as int, to as int)
                    ==> order@.contains(to) || stack@.contains(to),
            preorder(*adjacency, order@, stack@.reverse()) == preorder(
                *adjacency,
                Seq::empty(),
                seq![source],
            ),
        decreases node_count - order.len(), stack.len(),
    {
        let ghost before_stack = stack@;
        let ghost before_order = order@;
        proof {
            lemma_marked_bounds(visited@);
            lemma_distinct_nodes(order@);
            assert(stack@.reverse()[0] == stack@.last());
            assert(stack@.reverse().skip(1) =~= stack@.drop_last().reverse());
        }
        let node: u32 = stack[stack.len() - 1];
        stack.pop();
        assert(stack@ =~= before_stack.drop_last());
        assert(before_stack =~= stack@.push(node));
        assert forall|other: u32| #[trigger] before_stack.contains(other) implies other == node
            || stack@.contains(other) by {
            let i = choose|i: int| 0 <= i < before_stack.len() && before_stack[i] == other;
            if i < stack@.len() {
                assert(stack@[i] == other);
            }
        }
        if order.len() % 1024 == 0 {
            match ask(&mut poll) {
                Ok(_) => {},
                Err(error) => {
                    return Err(error);
                },
            }
        }
        assert(before_stack[before_stack.len() - 1] == node);
        if visited[node as usize] {
            assert(order@.contains(node));
            assert forall|from: u32, to: u32|
                order@.contains(from) && #[trigger] adjacency.leads(from as int,
                    to as int) implies order@.contains(
                to,
            ) || stack@.contains(to) by {
                assert(before_stack.contains(to) ==> to == node || stack@.contains(to));
            }
            continue ;
        }
        proof {
            lemma_marked_step(visited@, node as int);
            assert(!order@.contains(node));
        }
        visited.set(node as usize, true);
        order.push(node);
        proof {
            lemma_marked_bounds(visited@);
            assert forall|other: u32| #[trigger] order@.contains(other) <==> other < node_count
                && visited@[other as int] by {
                assert(before_order.contains(other) <==> other < node_count && (visited@.update(
                    node as int,
                    false,
                ))[other as int]);
                if before_order.contains(other) {
                    let i = choose|i: int| 0 <= i < before_order.len() && before_order[i] == other;
                    assert(order@[i] == other);
                }
                if order@.contains(other) && other != node {
                    let i = choose|i: int| 0 <= i < order@.len() && order@[i] == other;
                    assert(before_order[i] == other);
                }
                assert(order@[order@.len() - 1] == node);
            }
        }
        let ghost rest = stack@;
        let ghost row = row_nodes(*adjacency, node);
        if let Some((start, end)) = adjacency.row_bounds(node) {
            let mut place: usize = end;
            assert(row.subrange(row.len() as int, row.len() as int) =~= Seq::empty());
            while place > start
                invariant
                    start <= place <= end,
                    end <= neighbors.len(),
                    neighbors@ == adjacency.spec_neighbors(),
                    adjacency.targets_are_rows(),
                    node_count == adjacency.node_total(),
                    visited.len() == node_count,
                    row == row_nodes(*adjacency, node),
                    adjacency.spec_row(node as int) is Some,
                    start == adjacency.spec_offsets()[node as int],
                    row.len() == end - start,
                    forall|other: u32| #[trigger]
                        order@.contains(other) <==> other < node_count && visited@[other as int],
                    stack@ == rest + unvisited(
                        row.subrange(place - start, row.len() as int),
                        order@,
                    ).reverse(),
                decreases place,
            {
                place = place - 1;
                let neighbor: u32 = neighbors[place];
                proof {
                    let tail = row.subrange(place + 1 - start, row.len() as int);
                    let longer = row.subrange(place - start, row.len() as int);
                    assert(longer =~= seq![neighbor] + tail);
                    lemma_unvisited_front(neighbor, tail, order@);
                }
                let ghost before = stack@;
                if !visited[neighbor as usize] {
                    stack.push(neighbor);
                }
                proof {
                    let longer = row.subrange(place - start, row.len() as int);
                    assert(stack@ =~= rest + unvisited(longer, order@).reverse());
                }
            }
            assert(row.subrange(0, row.len() as int) =~= row);
        } else {
            assert(unvisited(row, order@) =~= Seq::empty());
            assert(stack@ =~= rest + unvisited(row, order@).reverse());
        }
        proof {
            let fresh = unvisited(row, order@);
            assert(stack@ == rest + fresh.reverse());
            assert(stack@.reverse() =~= fresh + rest.reverse());
            lemma_unvisited(row, order@);
            assert forall|other: u32| fresh.contains(other) implies #[trigger] stack@.contains(
                other,
            ) by {
                let i = choose|i: int| 0 <= i < fresh.len() && fresh[i] == other;
                assert(stack@[rest.len() + fresh.len() - 1 - i] == other);
            }
            assert forall|other: u32| rest.contains(other) implies #[trigger] stack@.contains(
                other,
            ) by {
                let i = choose|i: int| 0 <= i < rest.len() && rest[i] == other;
                assert(stack@[i] == other);
            }
            assert forall|i: int| 0 <= i < stack@.len() implies (#[trigger] stack@[i]) < node_count
                && reaches(edge, source as int, stack@[i] as int) by {
                if i < rest.len() {
                    assert(stack@[i] == before_stack[i]);
                } else {
                    let other = stack@[i];
                    assert(fresh[fresh.len() - 1 - (i - rest.len())] == other);
                    assert(fresh.contains(other));
                    lemma_row_nodes(*adjacency, node, other);
                    lemma_leads_row(*adjacency, node as int, other as int);
                    lemma_reaches_edge(edge, source as int, node as int, other as int);
                }
            }
            assert forall|from: u32, to: u32|
                order@.contains(from) && #[trigger] adjacency.leads(from as int,
                    to as int) implies order@.contains(
                to,
            ) || stack@.contains(to) by {
                if from == node {
                    lemma_row_nodes(*adjacency, node, to);
                    assert(row.contains(to));
                    if !order@.contains(to) {
                        assert(fresh.contains(to));
                    }
                } else {
                    let i = choose|i: int| 0 <= i < order@.len() && order@[i] == from;
                    assert(before_order[i] == from);
                    assert(before_order.contains(from));
                    if before_order.contains(to) {
                        let j = choose|j: int| 0 <= j < before_order.len() && before_order[j] == to;
                        assert(order@[j] == to);
                    } else {
                        assert(before_stack.contains(to));
                        if to == node {
                            assert(order@[order@.len() - 1] == to);
                        } else {
                            assert(rest.contains(to));
                        }
                    }
                }
            }
            if before_order.contains(source) {
                let i = choose|i: int| 0 <= i < before_order.len() && before_order[i] == source;
                assert(order@[i] == source);
            } else {
                assert(before_stack.contains(source));
                if source == node {
                    assert(order@[order@.len() - 1] == source);
                }
            }
        }
    }
    proof {
        assert(stack@.reverse() =~= Seq::empty());
        let closed = Set::new(|v: int| 0 <= v <= u32::MAX && order@.contains(v as u32));
        assert forall|u: int, v: int| closed.contains(u) && #[trigger] edge(u,
            v) implies closed.contains(
            v,
        ) by {
            lemma_leads_row(*adjacency, u, v);
            assert(adjacency.leads((u as u32) as int, (v as u32) as int));
        }
        assert forall|node: u32| #[trigger] order@.contains(node) <==> reaches(
            edge,
            source as int,
            node as int,
        ) by {
            if order@.contains(node) {
                let i = choose|i: int| 0 <= i < order@.len() && order@[i] == node;
            }
            if reaches(edge, source as int, node as int) {
                assert(closed.contains(source as int));
                lemma_closed_set(edge, closed, source as int, node as int);
            }
        }
    }
    Ok(order)
}

proof fn lemma_unvisited_front(node: u32, nodes: Seq<u32>, order: Seq<u32>)
    ensures
        unvisited(seq![node] + nodes, order) == if order.contains(node) {
            unvisited(nodes, order)
        } else {
            seq![node] + unvisited(nodes, order)
        },
    decreases nodes.len(),
{
    let all = seq![node] + nodes;
    if nodes.len() == 0 {
        assert(all.drop_last() =~= Seq::empty());
        assert(all.last() == node);
        assert(unvisited(all.drop_last(), order) =~= Seq::empty());
        assert(unvisited(all, order) =~= if order.contains(node) {
            Seq::empty()
        } else {
            seq![node]
        });
        assert(seq![node] + unvisited(nodes, order) =~= seq![node]);
    } else {
        assert(all.drop_last() =~= seq![node] + nodes.drop_last());
        lemma_unvisited_front(node, nodes.drop_last(), order);
        assert(unvisited(all, order) =~= if order.contains(node) {
            unvisited(nodes, order)
        } else {
            seq![node] + unvisited(nodes, order)
        });
    }
}

/// A path from `source` to `target`: consecutive nodes are joined by edges, and no walk between the
/// two ends has fewer edges.
pub open spec fn is_shortest_path(csr: Csr, source: u32, target: u32, path: Seq<u32>) -> bool {
    &&& path.len() > 0
    &&& path[0] == source
    &&& path.last() == target
    &&& forall|i: int|
        0 <= i < path.len() - 1 ==> csr.leads(#[trigger] path[i] as int, path[i + 1] as int)
    &&& csr.nearest(seq![source], target as int, (path.len() - 1) as nat)
}

/// No walk leads from `source` to `target`.
pub open spec fn disconnected(csr: Csr, source: u32, target: u32) -> bool {
    forall|hops: nat| !#[trigger] csr.walk(seq![source], target as int, hops)
}

/// What a breadth-first search from one source knows: `queue` holds the settled nodes in the order
/// of their depth, and `queue[..head]` those whose neighbors are settled.
#[verifier::opaque]
spec fn search_inv(
    csr: Csr,
    source: u32,
    visited: Seq<bool>,
    predecessor: Seq<Option<u32>>,
    queue: Seq<u32>,
    head: int,
    depth: Seq<nat>,
) -> bool {
    let seeds = seq![source];
    let total = csr.node_total();
    &&& visited.len() == total
    &&& predecessor.len() == total
    &&& depth.len() == total
    &&& 0 <= head <= queue.len()
    &&& source < total
    &&& visited[source as int]
    &&& depth[source as int] == 0
    &&& forall|i: int|
        0 <= i < queue.len() ==> (#[trigger] queue[i]) < total && visited[queue[i] as int]
    &&& forall|v: int|
        0 <= v < total && #[trigger] visited[v] ==> exists|i: int|
            0 <= i < queue.len() && #[trigger] queue[i] == v
    &&& forall|i: int, j: int|
        0 <= i <= j < queue.len()
            ==> depth[#[trigger] queue[i] as int] <= depth[#[trigger] queue[j] as int]
    &&& head < queue.len() ==> forall|i: int|
        0 <= i < queue.len() ==> depth[#[trigger] queue[i] as int] <= depth[queue[head] as int] + 1
    &&& forall|v: int|
        0 <= v < total && #[trigger] visited[v] ==> csr.nearest(seeds, v, depth[v])
    &&& forall|v: int|
        0 <= v < total && #[trigger] visited[v] && v != source ==> (predecessor[v] matches Some(u)
            && u < total && visited[u as int] && csr.leads(u as int, v) && depth[v]
            == depth[u as int] + 1)
    &&& head < queue.len() ==> forall|v: int, hops: nat|
        0 <= v < total && hops <= depth[queue[head] as int] && #[trigger] csr.walk(seeds, v, hops)
            ==> visited[v]
}

/// Settled nodes before `head` lead to settled nodes only.
spec fn processed(csr: Csr, visited: Seq<bool>, queue: Seq<u32>, head: int) -> bool {
    forall|i: int, to: int|
        0 <= i < head && #[trigger] csr.leads(queue[i] as int, to) ==> visited[to]
}

proof fn lemma_walk_row(csr: Csr, seeds: Seq<u32>, node: int, hops: nat)
    requires
        csr.targets_are_rows(),
        csr.walk(seeds, node, hops),
    ensures
        0 <= node < csr.node_total(),
{
    if hops > 0 {
        let from = choose|from: int|
            csr.walk(seeds, from, (hops - 1) as nat) && #[trigger] csr.leads(from, node);
        lemma_leads_row(csr, from, node);
    }
}

/// Moving to the next queued node: every node within its depth is settled.
proof fn lemma_advance(
    csr: Csr,
    source: u32,
    visited: Seq<bool>,
    predecessor: Seq<Option<u32>>,
    queue: Seq<u32>,
    head: int,
    depth: Seq<nat>,
)
    requires
        csr.targets_are_rows(),
        head < queue.len(),
        search_inv(csr, source, visited, predecessor, queue, head, depth),
        processed(csr, visited, queue, head + 1),
    ensures
        search_inv(csr, source, visited, predecessor, queue, head + 1, depth),
{
    reveal(search_inv);
    let seeds = seq![source];
    if head + 1 < queue.len() {
        let level = depth[queue[head] as int];
        let next = depth[queue[head + 1] as int];
        assert(level <= next <= level + 1);
        assert forall|v: int, hops: nat|
            0 <= v < csr.node_total() && hops <= next && #[trigger] csr.walk(
                seeds,
                v,
                hops,
            ) implies visited[v] by {
            if hops > level {
                let from = choose|from: int|
                    csr.walk(seeds, from, (hops - 1) as nat) && #[trigger] csr.leads(from, v);
                lemma_walk_row(csr, seeds, from, (hops - 1) as nat);
                assert(visited[from]);
                assert(depth[from] <= hops - 1) by {
                    if depth[from] > hops - 1 {
                        assert(!csr.walk(seeds, from, (hops - 1) as nat));
                    }
                }
                let i = choose|i: int| 0 <= i < queue.len() && #[trigger] queue[i] == from;
                if i > head {
                    assert(depth[queue[head + 1] as int] <= depth[queue[i] as int]);
                }
                assert(csr.leads(queue[i] as int, v));
            }
        }
        assert forall|i: int| 0 <= i < queue.len() implies depth[#[trigger] queue[i] as int]
            <= depth[queue[head + 1] as int] + 1 by {
            assert(depth[queue[i] as int] <= depth[queue[head] as int] + 1);
        }
    }
}

/// Settling one more neighbor of the node at the head.
proof fn lemma_discover(
    csr: Csr,
    source: u32,
    visited: Seq<bool>,
    predecessor: Seq<Option<u32>>,
    queue: Seq<u32>,
    head: int,
    depth: Seq<nat>,
    neighbor: u32,
)
    requires
        csr.targets_are_rows(),
        head < queue.len(),
        search_inv(csr, source, visited, predecessor, queue, head, depth),
        csr.leads(queue[head] as int, neighbor as int),
        neighbor < csr.node_total(),
        !visited[neighbor as int],
    ensures
        search_inv(
            csr,
            source,
            visited.update(neighbor as int, true),
            predecessor.update(neighbor as int, Some(queue[head])),
            queue.push(neighbor),
            head,
            depth.update(neighbor as int, (depth[queue[head] as int] + 1) as nat),
        ),
{
    reveal(search_inv);
    let seeds = seq![source];
    let total = csr.node_total();
    let level = depth[queue[head] as int];
    let visited2 = visited.update(neighbor as int, true);
    let predecessor2 = predecessor.update(neighbor as int, Some(queue[head]));
    let queue2 = queue.push(neighbor);
    let depth2 = depth.update(neighbor as int, (level + 1) as nat);
    assert(csr.nearest(seeds, neighbor as int, (level + 1) as nat)) by {
        assert(visited[queue[head] as int]);
        assert(csr.walk(seeds, queue[head] as int, level));
        assert(csr.walk(seeds, neighbor as int, (level + 1) as nat));
        assert forall|fewer: nat| fewer < level + 1 implies !#[trigger] csr.walk(
            seeds,
            neighbor as int,
            fewer,
        ) by {}
    }
    assert forall|i: int| 0 <= i < queue2.len() implies (#[trigger] queue2[i]) < total
        && visited2[queue2[i] as int] by {
        if i < queue.len() {
            assert(queue2[i] == queue[i]);
        }
    }
    assert forall|v: int| 0 <= v < total && #[trigger] visited2[v] implies exists|i: int|
        0 <= i < queue2.len() && #[trigger] queue2[i] == v by {
        if v == neighbor {
            assert(queue2[queue.len() as int] == v);
        } else {
            assert(visited[v]);
            let i = choose|i: int| 0 <= i < queue.len() && #[trigger] queue[i] == v;
            assert(queue2[i] == v);
        }
    }
    assert forall|i: int| 0 <= i < queue.len() implies depth2[#[trigger] queue[i] as int]
        == depth[queue[i] as int] by {
        assert(visited[queue[i] as int]);
    }
    assert forall|i: int, j: int| 0 <= i <= j < queue2.len() implies depth2[#[trigger] queue2[i] as int]
        <= depth2[#[trigger] queue2[j] as int] by {
        if j < queue.len() {
            assert(queue2[i] == queue[i] && queue2[j] == queue[j]);
        } else if i < queue.len() {
            assert(queue2[i] == queue[i]);
            assert(depth[queue[i] as int] <= level + 1);
        }
    }
    assert forall|i: int| 0 <= i < queue2.len() implies depth2[#[trigger] queue2[i] as int]
        <= depth2[queue2[head] as int] + 1 by {
        assert(queue2[head] == queue[head]);
        if i < queue.len() {
            assert(queue2[i] == queue[i]);
        }
    }
    assert forall|v: int| 0 <= v < total && #[trigger] visited2[v] && v != source implies (
    predecessor2[v] matches Some(u) && u < total && visited2[u as int] && csr.leads(u as int, v)
        && depth2[v] == depth2[u as int] + 1) by {
        if v != neighbor {
            assert(visited[v]);
        } else {
            assert(depth2[queue[head] as int] == level);
        }
    }
    assert forall|v: int| 0 <= v < total && #[trigger] visited2[v] implies csr.nearest(
        seeds,
        v,
        depth2[v],
    ) by {
        if v != neighbor {
            assert(visited[v]);
        }
    }
    assert forall|v: int, hops: nat|
        0 <= v < total && hops <= depth2[queue2[head] as int] && #[trigger] csr.walk(
            seeds,
            v,
            hops,
        ) implies visited2[v] by {
        assert(queue2[head] == queue[head]);
    }
}

/// When every settled node is processed, every node that a walk reaches is settled.
proof fn lemma_exhausted(
    csr: Csr,
    source: u32,
    visited: Seq<bool>,
    predecessor: Seq<Option<u32>>,
    queue: Seq<u32>,
    depth: Seq<nat>,
    node: int,
    hops: nat,
)
    requires
        csr.targets_are_rows(),
        search_inv(csr, source, visited, predecessor, queue, queue.len() as int, depth),
        processed(csr, visited, queue, queue.len() as int),
        csr.walk(seq![source], node, hops),
    ensures
        visited[node],
    decreases hops,
{
    reveal(search_inv);
    let seeds = seq![source];
    if hops > 0 {
        let from = choose|from: int|
            csr.walk(seeds, from, (hops - 1) as nat) && #[trigger] csr.leads(from, node);
        lemma_walk_row(csr, seeds, from, (hops - 1) as nat);
        lemma_exhausted(
            csr,
            source,
            visited,
            predecessor,
            queue,
            depth,
            from,
            (hops - 1) as nat,
        );
        let i = choose|i: int| 0 <= i < queue.len() && #[trigger] queue[i] == from;
        assert(csr.leads(queue[i] as int, node));
    }
}

/// A list with the nodes appended that are not yet in it, in their order.
pub open spec fn met(order: Seq<u32>, nodes: Seq<u32>) -> Seq<u32>
    decreases nodes.len(),
{
    if nodes.len() == 0 {
        order
    } else {
        let before = met(order, nodes.drop_last());
        if before.contains(nodes.last()) {
            before
        } else {
            before.push(nodes.last())
        }
    }
}

/// The nodes that a breadth-first search meets, in the order in which it meets them, once it has
/// read the rows of the first `steps` of them.
pub open spec fn search_order(csr: Csr, source: u32, steps: nat) -> Seq<u32>
    decreases steps,
{
    if steps == 0 {
        seq![source]
    } else {
        let before = search_order(csr, source, (steps - 1) as nat);
        if steps - 1 < before.len() {
            met(before, row_nodes(csr, before[steps - 1]))
        } else {
            before
        }
    }
}

/// All nodes that a breadth-first search meets, in the order in which it meets them.
pub open spec fn whole_order(csr: Csr, source: u32) -> Seq<u32> {
    search_order(csr, source, csr.node_total() as nat)
}

/// `node` is the first in the order that leads to `next`.
pub open spec fn first_to(csr: Csr, order: Seq<u32>, node: u32, next: u32) -> bool {
    exists|i: int| #[trigger] first_at(csr, order, i, node, next)
}

pub open spec fn first_at(csr: Csr, order: Seq<u32>, place: int, node: u32, next: u32) -> bool {
    &&& 0 <= place < order.len()
    &&& order[place] == node
    &&& csr.leads(node as int, next as int)
    &&& forall|j: int| 0 <= j < place ==> !csr.leads(#[trigger] order[j] as int, next as int)
}

/// Each node of the path was met from the one before it, the first in search order that leads to
/// it.
pub open spec fn follows_search(csr: Csr, source: u32, path: Seq<u32>) -> bool {
    forall|k: int|
        0 < k < path.len() ==> first_to(
            csr,
            whole_order(csr, source),
            path[k - 1],
            #[trigger] path[k],
        )
}

/// The search comes, not after the target, to a node at which it asks whether to go on.
pub open spec fn asks_in_search(csr: Csr, source: u32, target: u32) -> bool {
    exists|i: int| #[trigger] asks_at(whole_order(csr, source), i, target)
}

pub open spec fn asks_at(order: Seq<u32>, place: int, target: u32) -> bool {
    &&& 0 <= place < order.len()
    &&& order[place] % 1024 == 0
    &&& forall|j: int| 0 <= j < place ==> #[trigger] order[j] != target
}

pub proof fn lemma_met_extends(order: Seq<u32>, nodes: Seq<u32>)
    ensures
        order.is_prefix_of(met(order, nodes)),
    decreases nodes.len(),
{
    if nodes.len() > 0 {
        lemma_met_extends(order, nodes.drop_last());
        let before = met(order, nodes.drop_last());
        assert(before.take(order.len() as int) =~= order);
        assert(met(order, nodes).take(order.len() as int) =~= order);
    }
}

/// Reading more rows only appends.
pub proof fn lemma_search_grows(csr: Csr, source: u32, fewer: nat, more: nat)
    requires
        fewer <= more,
    ensures
        search_order(csr, source, fewer).is_prefix_of(search_order(csr, source, more)),
        fewer >= search_order(csr, source, fewer).len() ==> search_order(csr, source, more)
            == search_order(csr, source, fewer),
    decreases more - fewer,
{
    let order = search_order(csr, source, fewer);
    if fewer < more {
        lemma_search_grows(csr, source, fewer, (more - 1) as nat);
        let before = search_order(csr, source, (more - 1) as nat);
        if more - 1 < before.len() {
            lemma_met_extends(before, row_nodes(csr, before[more - 1]));
        }
        let after = search_order(csr, source, more);
        assert(before.is_prefix_of(after));
        assert(order =~= before.subrange(0, order.len() as int));
        assert(before =~= after.subrange(0, before.len() as int));
        assert(order =~= after.subrange(0, order.len() as int));
    } else {
        assert(order =~= order.subrange(0, order.len() as int));
    }
}

/// The first that leads to a node stays so when the order grows.
proof fn lemma_first_kept(csr: Csr, order: Seq<u32>, longer: Seq<u32>, node: u32, next: u32)
    requires
        order.is_prefix_of(longer),
        first_to(csr, order, node, next),
    ensures
        first_to(csr, longer, node, next),
{
    let i = choose|i: int| #[trigger] first_at(csr, order, i, node, next);
    assert(order =~= longer.subrange(0, order.len() as int));
    assert(forall|j: int| 0 <= j < order.len() ==> order[j] == longer[j]);
    assert forall|j: int| 0 <= j < i implies !csr.leads(#[trigger] longer[j] as int, next as int) by {
        assert(!csr.leads(order[j] as int, next as int));
    }
    assert(first_at(csr, longer, i, node, next));
}

/// Every node that was met has its predecessor from the search.
#[verifier::opaque]
spec fn led(csr: Csr, source: u32, visited: Seq<bool>, predecessor: Seq<Option<u32>>, queue: Seq<
    u32,
>) -> bool {
    forall|v: int|
        0 <= v < visited.len() && #[trigger] visited[v] && v != source ==> predecessor[v] is Some
            && first_to(csr, queue, predecessor[v]->Some_0, v as u32)
}

/// Meeting one more node keeps every predecessor.
proof fn lemma_first_met(
    csr: Csr,
    source: u32,
    visited: Seq<bool>,
    predecessor: Seq<Option<u32>>,
    queue: Seq<u32>,
    head: int,
    neighbor: u32,
)
    requires
        led(csr, source, visited, predecessor, queue),
        processed(csr, visited, queue, head),
        0 <= head < queue.len(),
        neighbor < visited.len(),
        visited.len() == predecessor.len(),
        !visited[neighbor as int],
        csr.leads(queue[head] as int, neighbor as int),
    ensures
        led(
            csr,
            source,
            visited.update(neighbor as int, true),
            predecessor.update(neighbor as int, Some(queue[head])),
            queue.push(neighbor),
        ),
{
    reveal(led);
    let longer = queue.push(neighbor);
    let seen = visited.update(neighbor as int, true);
    let tree = predecessor.update(neighbor as int, Some(queue[head]));
    assert(queue =~= longer.subrange(0, queue.len() as int));
    assert forall|v: int| 0 <= v < seen.len() && #[trigger] seen[v] && v != source implies tree[v]
        is Some && first_to(csr, longer, tree[v]->Some_0, v as u32) by {
        if v == neighbor {
            assert forall|j: int| 0 <= j < head implies !csr.leads(
                #[trigger] longer[j] as int,
                neighbor as int,
            ) by {
                assert(longer[j] == queue[j]);
            }
            assert(first_at(csr, longer, head, queue[head], neighbor));
        } else {
            assert(visited[v]);
            lemma_first_kept(csr, queue, longer, predecessor[v]->Some_0, v as u32);
        }
    }
}

/// Deterministic unweighted shortest path including both endpoints. Where several shortest paths
/// exist, each node of the path follows the first node of the breadth-first search that leads to it.
pub fn shortest_path(adjacency: &Csr, source: u32, target: u32) -> (path: Result<
    Option<Vec<u32>>,
>)
    requires
        adjacency.targets_are_rows(),
    ensures
        if source < adjacency.node_total() && target < adjacency.node_total() {
            match path {
                Ok(Some(path)) => is_shortest_path(*adjacency, source, target, path@)
                    && follows_search(*adjacency, source, path@),
                Ok(None) => disconnected(*adjacency, source, target),
                Err(_) => false,
            }
        } else {
            fails_with(path, ErrorCode::QueryType, "shortest-path endpoint is out of bounds"@)
        },
{
    shortest_path_cancellable(adjacency, source, target, never_cancelled)
}

/// Reads the row of the node at the head of the search.
#[verifier::rlimit(40)]
#[verifier::spinoff_prover]
fn meet_row(
    adjacency: &Csr,
    source: u32,
    head: usize,
    visited: &mut Vec<bool>,
    predecessor: &mut Vec<Option<u32>>,
    queue: &mut Vec<u32>,
    Ghost(known_depth): Ghost<Seq<nat>>,
) -> (depths: Ghost<Seq<nat>>)
    requires
        adjacency.targets_are_rows(),
        head < old(queue).len(),
        search_inv(
            *adjacency,
            source,
            old(visited)@,
            old(predecessor)@,
            old(queue)@,
            head as int,
            known_depth,
        ),
        processed(*adjacency, old(visited)@, old(queue)@, head as int),
        old(queue).len() == marked(old(visited)@),
        led(*adjacency, source, old(visited)@, old(predecessor)@, old(queue)@),
    ensures
        search_inv(
            *adjacency,
            source,
            final(visited)@,
            final(predecessor)@,
            final(queue)@,
            head as int,
            depths@,
        ),
        processed(*adjacency, final(visited)@, final(queue)@, head + 1),
        final(queue).len() == marked(final(visited)@),
        led(*adjacency, source, final(visited)@, final(predecessor)@, final(queue)@),
        old(queue)@.is_prefix_of(final(queue)@),
        final(queue)@ == met(old(queue)@, row_nodes(*adjacency, old(queue)@[head as int])),
{
    let node_count: usize = node_count_of(adjacency);
    let neighbors = adjacency.neighbors();
    let node: u32 = queue[head];
    let ghost mut depth = known_depth;
    proof {
        reveal(search_inv);
    }
    assert(queue@ =~= queue@.subrange(0, queue@.len() as int));
    let ghost known = queue@;
    let ghost row = row_nodes(*adjacency, node);
    assert(row.take(0) =~= Seq::empty());
    if let Some((start, end)) = adjacency.row_bounds(node) {
        for place in start..end
            invariant
                adjacency.targets_are_rows(),
                node_count == adjacency.node_total(),
                neighbors@ == adjacency.spec_neighbors(),
                head < known.len() <= queue.len(),
                known.is_prefix_of(queue@),
                row == row_nodes(*adjacency, node),
                row.len() == end - start,
                queue@ == met(known, row.take(place - start)),
                led(*adjacency, source, visited@, predecessor@, queue@),
                head < queue.len(),
                queue@[head as int] == node,
                adjacency.spec_row(node as int) is Some,
                start == adjacency.spec_offsets()[node as int],
                end == adjacency.spec_offsets()[node + 1],
                start <= end <= neighbors.len(),
                adjacency.spec_row(node as int)->Some_0.len() == end - start,
                search_inv(
                    *adjacency,
                    source,
                    visited@,
                    predecessor@,
                    queue@,
                    head as int,
                    depth,
                ),
                processed(*adjacency, visited@, queue@, head as int),
                queue.len() == marked(visited@),
                forall|k: int|
                    start <= k < place ==> visited@[#[trigger] neighbors@[k] as int],
        {
            proof {
                reveal(search_inv);
            }
            let neighbor: u32 = neighbors[place];
            assert(adjacency.spec_row(node as int)->Some_0[place - start].0 == neighbor);
            assert(adjacency.leads(node as int, neighbor as int));
            proof {
                let longer = row.take(place - start + 1);
                assert(longer.drop_last() =~= row.take(place - start));
                assert(longer.last() == neighbor);
                assert(queue@.contains(neighbor) == visited@[neighbor as int]);
                assert(known =~= queue@.subrange(0, known.len() as int));
            }
            if !visited[neighbor as usize] {
                proof {
                    lemma_first_met(
                        *adjacency,
                        source,
                        visited@,
                        predecessor@,
                        queue@,
                        head as int,
                        neighbor,
                    );
                    lemma_discover(
                        *adjacency,
                        source,
                        visited@,
                        predecessor@,
                        queue@,
                        head as int,
                        depth,
                        neighbor,
                    );
                    lemma_marked_step(visited@, neighbor as int);
                    depth = depth.update(
                        neighbor as int,
                        (depth[queue@[head as int] as int] + 1) as nat,
                    );
                }
                let ghost before_queue = queue@;
                visited.set(neighbor as usize, true);
                predecessor.set(neighbor as usize, Some(node));
                queue.push(neighbor);
                assert(known =~= queue@.subrange(0, known.len() as int));
                assert forall|i: int, to: int|
                    0 <= i < head && #[trigger] adjacency.leads(queue@[i] as int,
                        to) implies visited@[to] by {
                    assert(adjacency.leads(before_queue[i] as int, to));
                    lemma_leads_row(*adjacency, before_queue[i] as int, to);
                }
            }
        }
        proof {
            assert forall|to: int| #[trigger] adjacency.leads(node as int,
                to) implies visited@[to] by {
                let row = adjacency.spec_row(node as int)->Some_0;
                let i = choose|i: int| 0 <= i < row.len() && (#[trigger] row[i]).0 == to;
                assert(neighbors@[start + i] == to);
            }
        }
    }
    proof {
        assert(row.take(row.len() as int) =~= row);
        assert(known =~= queue@.subrange(0, known.len() as int));
        assert forall|i: int, to: int|
            0 <= i < head + 1 && #[trigger] adjacency.leads(queue@[i] as int,
                to) implies visited@[to] by {
            if i == head {
                assert(adjacency.leads(node as int, to));
            }
        }
    }
    Ghost(depth)
}

/// The nodes before `head` are not the target, and where one asked, the answer was to go on.
spec fn asked<F: FnMut() -> Result<()>>(check: F, queue: Seq<u32>, head: int, target: u32) -> bool {
    forall|i: int|
        0 <= i < head ==> #[trigger] queue[i] != target && (queue[i] % 1024 == 0 ==> goes_on(check))
}

/// A breadth-first search that came to its target or to its end.
struct Search {
    visited: Vec<bool>,
    predecessor: Vec<Option<u32>>,
    queue: Vec<u32>,
    head: usize,
    depth: Ghost<Seq<nat>>,
}

impl Search {
    spec fn sound(&self, csr: Csr, source: u32) -> bool {
        &&& self.visited.len() == csr.node_total()
        &&& self.head <= csr.node_total()
        &&& search_inv(
            csr,
            source,
            self.visited@,
            self.predecessor@,
            self.queue@,
            self.head as int,
            self.depth@,
        )
        &&& self.queue@ == search_order(csr, source, self.head as nat)
        &&& led(csr, source, self.visited@, self.predecessor@, self.queue@)
    }
}

/// What the search asked is what its whole order asks for.
proof fn lemma_asked<F: FnMut() -> Result<()>>(
    check: F,
    csr: Csr,
    source: u32,
    target: u32,
    head: nat,
)
    requires
        head <= csr.node_total(),
        asked(check, search_order(csr, source, head), head as int, target),
        head <= search_order(csr, source, head).len(),
    ensures
        head < search_order(csr, source, head).len() && search_order(csr, source, head)[head as int]
            % 1024 == 0 ==> asks_in_search(csr, source, target),
        (head < search_order(csr, source, head).len() ==> search_order(
            csr,
            source,
            head,
        )[head as int] == target && (target % 1024 == 0 ==> goes_on(check))) && asks_in_search(
            csr,
            source,
            target,
        ) ==> goes_on(check),
{
    let queue = search_order(csr, source, head);
    let order = whole_order(csr, source);
    lemma_search_grows(csr, source, head, csr.node_total() as nat);
    assert(queue =~= order.subrange(0, queue.len() as int));
    assert(forall|j: int| 0 <= j < queue.len() ==> queue[j] == order[j]);
    if head < queue.len() && queue[head as int] % 1024 == 0 {
        assert forall|j: int| 0 <= j < head implies #[trigger] order[j] != target by {
            assert(queue[j] != target);
        }
        assert(asks_at(order, head as int, target));
    }
    if asks_in_search(csr, source, target) {
        let i = choose|i: int| #[trigger] asks_at(order, i, target);
        if i < head {
            assert(queue[i] % 1024 == 0);
        } else if head < i && head < queue.len() {
            assert(order[head as int] != target);
        }
    }
}

/// Searches breadth-first from the source up to the target.
fn search_for<F: FnMut() -> Result<()>>(
    adjacency: &Csr,
    source: u32,
    target: u32,
    check: &mut F,
) -> (result: Result<Search>)
    requires
        adjacency.targets_are_rows(),
        source < adjacency.node_total(),
        target < adjacency.node_total(),
        call_requires(*old(check), ()),
    ensures
        *final(check) == *old(check),
        match result {
            Ok(found) => {
                &&& found.sound(*adjacency, source)
                &&& found.visited@[target as int] || disconnected(*adjacency, source, target)
                &&& !disconnected(*adjacency, source, target) || !found.visited@[target as int]
                &&& asks_in_search(*adjacency, source, target) ==> goes_on(*old(check))
            },
            Err(error) => asks_in_search(*adjacency, source, target) && call_ensures(
                *old(check),
                (),
                Err::<(), Error>(error),
            ),
        },
{
    let node_count: usize = node_count_of(adjacency);
    let mut predecessor: Vec<Option<u32>> = vec![None; node_count];
    let mut visited: Vec<bool> = vec![false; node_count];
    proof {
        lemma_marked_bounds(visited@);
        lemma_marked_step(visited@, source as int);
    }
    visited.set(source as usize, true);
    let mut queue: Vec<u32> = vec![source];
    let mut head: usize = 0;
    let ghost mut depth: Seq<nat> = Seq::new(node_count as nat, |i: int| 0nat);
    proof {
        assert(queue@ =~= seq![source]);
        lemma_search_begins(*adjacency, source, visited@, predecessor@, queue@, depth);
    }
    while head < queue.len()
        invariant
            adjacency.targets_are_rows(),
            node_count == adjacency.node_total(),
            source < node_count,
            target < node_count,
            visited.len() == node_count,
            *check == *old(check),
            call_requires(*check, ()),
            search_inv(
                *adjacency,
                source,
                visited@,
                predecessor@,
                queue@,
                head as int,
                depth,
            ),
            processed(*adjacency, visited@, queue@, head as int),
            queue.len() == marked(visited@),
            head <= queue.len(),
            queue@ == search_order(*adjacency, source, head as nat),
            led(*adjacency, source, visited@, predecessor@, queue@),
            asked(*old(check), queue@, head as int, target),
        decreases node_count - head,
    {
        proof {
            lemma_marked_bounds(visited@);
        }
        let node: u32 = queue[head];
        if node % 1024 == 0 {
            match ask(check) {
                Ok(_) => {},
                Err(error) => {
                    proof {
                        lemma_asked(*old(check), *adjacency, source, target, head as nat);
                    }
                    return Err(error);
                },
            }
        }
        if node == target {
            proof {
                lemma_asked(*old(check), *adjacency, source, target, head as nat);
                lemma_found(
                    *adjacency,
                    source,
                    visited@,
                    predecessor@,
                    queue@,
                    head as int,
                    depth,
                );
            }
            return Ok(Search { visited, predecessor, queue, head, depth: Ghost(depth) });
        }
        let ghost known = queue@;
        let depths = meet_row(
            adjacency,
            source,
            head,
            &mut visited,
            &mut predecessor,
            &mut queue,
            Ghost(depth),
        );
        proof {
            depth = depths@;
            assert(known =~= queue@.subrange(0, known.len() as int));
            assert forall|i: int| 0 <= i < head + 1 implies #[trigger] queue@[i] != target && (
            queue@[i] % 1024 == 0 ==> goes_on(*old(check))) by {
                assert(queue@[i] == known[i]);
            }
            lemma_advance(
                *adjacency,
                source,
                visited@,
                predecessor@,
                queue@,
                head as int,
                depth,
            );
            lemma_visited_len(
                *adjacency,
                source,
                visited@,
                predecessor@,
                queue@,
                head as int,
                depth,
            );
        }
        head = head + 1;
    }
    proof {
        lemma_marked_bounds(visited@);
        lemma_asked(*old(check), *adjacency, source, target, head as nat);
        lemma_unfound(
            *old(check),
            *adjacency,
            source,
            target,
            visited@,
            predecessor@,
            queue@,
            depth,
        );
    }
    Ok(Search { visited, predecessor, queue, head, depth: Ghost(depth) })
}

/// At its beginning a search knows its source.
proof fn lemma_search_begins(
    csr: Csr,
    source: u32,
    visited: Seq<bool>,
    predecessor: Seq<Option<u32>>,
    queue: Seq<u32>,
    depth: Seq<nat>,
)
    requires
        source < csr.node_total(),
        visited.len() == csr.node_total(),
        predecessor.len() == csr.node_total(),
        depth == Seq::new(csr.node_total() as nat, |i: int| 0nat),
        queue == seq![source],
        forall|v: int| 0 <= v < visited.len() ==> #[trigger] visited[v] == (v == source),
    ensures
        search_inv(csr, source, visited, predecessor, queue, 0, depth),
        led(csr, source, visited, predecessor, queue),
{
    reveal(search_inv);
    reveal(led);
    let seeds = seq![source];
    assert(queue[0] == source);
    assert(seeds[0] == source);
    assert(csr.walk(seeds, source as int, 0));
    assert forall|v: int, hops: nat|
        0 <= v < csr.node_total() && hops <= 0 && #[trigger] csr.walk(
            seeds,
            v,
            hops,
        ) implies visited[v] by {
        let i = choose|i: int| 0 <= i < seeds.len() && #[trigger] seeds[i] == v;
    }
}

proof fn lemma_visited_len(
    csr: Csr,
    source: u32,
    visited: Seq<bool>,
    predecessor: Seq<Option<u32>>,
    queue: Seq<u32>,
    head: int,
    depth: Seq<nat>,
)
    requires
        search_inv(csr, source, visited, predecessor, queue, head, depth),
    ensures
        visited.len() == csr.node_total(),
{
    reveal(search_inv);
}

/// A queued node was reached.
proof fn lemma_found(
    csr: Csr,
    source: u32,
    visited: Seq<bool>,
    predecessor: Seq<Option<u32>>,
    queue: Seq<u32>,
    head: int,
    depth: Seq<nat>,
)
    requires
        search_inv(csr, source, visited, predecessor, queue, head, depth),
        0 <= head < queue.len(),
    ensures
        visited[queue[head] as int],
        !disconnected(csr, source, queue[head]),
{
    reveal(search_inv);
    let node = queue[head] as int;
    assert(visited[node]);
    assert(csr.walk(seq![source], node, depth[node]));
}

/// A search that came to its end without its target shows that nothing leads there.
proof fn lemma_unfound<F: FnMut() -> Result<()>>(
    check: F,
    csr: Csr,
    source: u32,
    target: u32,
    visited: Seq<bool>,
    predecessor: Seq<Option<u32>>,
    queue: Seq<u32>,
    depth: Seq<nat>,
)
    requires
        csr.targets_are_rows(),
        target < csr.node_total(),
        search_inv(csr, source, visited, predecessor, queue, queue.len() as int, depth),
        processed(csr, visited, queue, queue.len() as int),
        asked(check, queue, queue.len() as int, target),
    ensures
        !visited[target as int],
        disconnected(csr, source, target),
{
    reveal(search_inv);
    if visited[target as int] {
        let i = choose|i: int| 0 <= i < queue.len() && #[trigger] queue[i] == target;
        assert(queue[i] != target);
    }
    assert forall|hops: nat| !#[trigger] csr.walk(seq![source], target as int, hops) by {
        if csr.walk(seq![source], target as int, hops) {
            lemma_exhausted(
                csr,
                source,
                visited,
                predecessor,
                queue,
                depth,
                target as int,
                hops,
            );
        }
    }
}

/// The path along the predecessors of a search.
fn path_back(adjacency: &Csr, source: u32, target: u32, found: &Search) -> (path: Vec<u32>)
    requires
        adjacency.targets_are_rows(),
        found.sound(*adjacency, source),
        target < adjacency.node_total(),
        found.visited@[target as int],
    ensures
        is_shortest_path(*adjacency, source, target, path@),
        follows_search(*adjacency, source, path@),
{
    proof {
        reveal(search_inv);
        reveal(led);
    }
    let ghost depth = found.depth@;
    let mut backward: Vec<u32> = vec![target];
    let mut cursor: u32 = target;
    while cursor != source
        invariant
            cursor < adjacency.node_total(),
            found.visited@[cursor as int],
            found.sound(*adjacency, source),
            depth == found.depth@,
            backward.len() > 0,
            backward@[0] == target,
            backward@.last() == cursor,
            depth[target as int] == depth[cursor as int] + backward.len() - 1,
            forall|i: int|
                0 < i < backward.len() ==> adjacency.leads(
                    #[trigger] backward@[i] as int,
                    backward@[i - 1] as int,
                ),
            forall|i: int|
                0 < i < backward.len() ==> first_to(
                    *adjacency,
                    found.queue@,
                    #[trigger] backward@[i],
                    backward@[i - 1],
                ),
        decreases depth[cursor as int],
    {
        proof {
            reveal(search_inv);
            reveal(led);
        }
        match found.predecessor[cursor as usize] {
            Some(previous) => {
                backward.push(previous);
                cursor = previous;
            },
            None => {
                proof {
                    assert(false);
                }
            },
        }
    }
    let mut path: Vec<u32> = Vec::with_capacity(backward.len());
    let mut index: usize = backward.len();
    while index > 0
        invariant
            index <= backward.len(),
            path.len() == backward.len() - index,
            forall|i: int|
                0 <= i < path.len() ==> #[trigger] path@[i] == backward@[backward.len() - 1 - i],
        decreases index,
    {
        index = index - 1;
        path.push(backward[index]);
    }
    proof {
        assert forall|i: int| 0 <= i < path.len() - 1 implies adjacency.leads(
            #[trigger] path@[i] as int,
            path@[i + 1] as int,
        ) by {
            let j = backward.len() - 1 - i;
            assert(adjacency.leads(backward@[j] as int, backward@[j - 1] as int));
        }
        assert(path@[path.len() - 1] == backward@[0]);
        lemma_search_grows(
            *adjacency,
            source,
            found.head as nat,
            adjacency.node_total() as nat,
        );
        assert forall|k: int| 0 < k < path.len() implies first_to(
            *adjacency,
            whole_order(*adjacency, source),
            path@[k - 1],
            #[trigger] path@[k],
        ) by {
            let j = backward.len() - k;
            assert(first_to(*adjacency, found.queue@, backward@[j], backward@[j - 1]));
            lemma_first_kept(
                *adjacency,
                found.queue@,
                whole_order(*adjacency, source),
                path@[k - 1],
                path@[k],
            );
        }
    }
    path
}

/// Deterministic unweighted shortest path with cancellation checks. Where several shortest paths
/// exist, each node of the path follows the first node of the breadth-first search that leads to it.
pub fn shortest_path_cancellable<F: FnMut() -> Result<()>>(
    adjacency: &Csr,
    source: u32,
    target: u32,
    check: F,
) -> (result: Result<Option<Vec<u32>>>)
    requires
        adjacency.targets_are_rows(),
        call_requires(check, ()),
    ensures
        if source < adjacency.node_total() && target < adjacency.node_total() {
            match result {
                Ok(Some(path)) => is_shortest_path(*adjacency, source, target, path@)
                    && follows_search(*adjacency, source, path@),
                Ok(None) => disconnected(*adjacency, source, target),
                Err(error) => asks_in_search(*adjacency, source, target) && call_ensures(
                    check,
                    (),
                    Err::<(), Error>(error),
                ),
            }
        } else {
            fails_with(result, ErrorCode::QueryType, "shortest-path endpoint is out of bounds"@)
        },
        result is Ok && asks_in_search(*adjacency, source, target) ==> goes_on(check),
{
    let mut poll = check;
    let node_count: usize = node_count_of(adjacency);
    if source as usize >= node_count || target as usize >= node_count {
        return Err(Error::new(ErrorCode::QueryType, "shortest-path endpoint is out of bounds"));
    }
    let found = match search_for(adjacency, source, target, &mut poll) {
        Ok(found) => found,
        Err(error) => {
            return Err(error);
        },
    };
    if !found.visited[target as usize] {
        return Ok(None);
    }
    let path = path_back(adjacency, source, target, &found);
    Ok(Some(path))
}

/// A depth-first search goes on from the node that it found last: where some of its neighbors is not found
/// yet, the first of them in the row is found next.
pub proof fn law_depth_first_goes_deeper(csr: Csr, source: u32, place: int, neighbor: int)
    requires
        ({
            let order = preorder(csr, Seq::empty(), seq![source]);
            &&& 0 <= place < order.len()
            &&& 0 <= neighbor < row_nodes(csr, order[place]).len()
            &&& !order.take(place + 1).contains(row_nodes(csr, order[place])[neighbor])
            &&& forall|earlier: int|
                0 <= earlier < neighbor ==> order.take(place + 1).contains(
                    #[trigger] row_nodes(csr, order[place])[earlier],
                )
        }),
    ensures
        ({
            let order = preorder(csr, Seq::empty(), seq![source]);
            &&& order[0] == source
            &&& place + 1 < order.len()
            &&& order[place + 1] == row_nodes(csr, order[place])[neighbor]
        }),
{
    lemma_preorder_deeper(csr, Seq::empty(), seq![source], place, neighbor);
    lemma_preorder_prefix(
        csr,
        seq![source],
        unvisited(row_nodes(csr, source), seq![source]) + seq![source].skip(1),
    );
    assert(Seq::<u32>::empty().push(source) =~= seq![source]);
    let order = preorder(csr, Seq::empty(), seq![source]);
    assert(order.take(1)[0] == source);
}

proof fn lemma_preorder_prefix(csr: Csr, order: Seq<u32>, work: Seq<u32>)
    ensures
        order.len() <= preorder(csr, order, work).len(),
        preorder(csr, order, work).take(order.len() as int) == order,
    decreases 0x1_0000_0001 - order.len(), work.len(),
{
    if work.len() == 0 || order.len() > 0x1_0000_0000 {
        assert(order.take(order.len() as int) =~= order);
    } else if order.contains(work[0]) {
        lemma_preorder_prefix(csr, order, work.skip(1));
    } else {
        let next = order.push(work[0]);
        let more = unvisited(row_nodes(csr, work[0]), next) + work.skip(1);
        lemma_preorder_prefix(csr, next, more);
        let found = preorder(csr, next, more);
        assert(found.take(order.len() as int) =~= found.take(next.len() as int).take(
            order.len() as int,
        ));
        assert(next.take(order.len() as int) =~= order);
    }
}

/// The first node of a row that is not found yet comes first of those that are left.
proof fn lemma_first_unvisited(nodes: Seq<u32>, order: Seq<u32>, place: int)
    requires
        0 <= place < nodes.len(),
        !order.contains(nodes[place]),
        forall|earlier: int|
            0 <= earlier < place ==> order.contains(#[trigger] nodes[earlier]),
    ensures
        unvisited(nodes, order).len() > 0,
        unvisited(nodes, order)[0] == nodes[place],
    decreases nodes.len(),
{
    let rest = nodes.drop_last();
    if place == nodes.len() - 1 {
        lemma_all_visited(rest, order);
    } else {
        lemma_first_unvisited(rest, order, place);
    }
}

proof fn lemma_all_visited(nodes: Seq<u32>, order: Seq<u32>)
    requires
        forall|i: int| 0 <= i < nodes.len() ==> order.contains(#[trigger] nodes[i]),
    ensures
        unvisited(nodes, order).len() == 0,
    decreases nodes.len(),
{
    if nodes.len() > 0 {
        assert(order.contains(nodes[nodes.len() - 1]));
        let rest = nodes.drop_last();
        assert forall|i: int| 0 <= i < rest.len() implies order.contains(#[trigger] rest[i]) by {
            assert(order.contains(nodes[i]));
        }
        lemma_all_visited(rest, order);
    }
}

proof fn lemma_preorder_deeper(
    csr: Csr,
    order: Seq<u32>,
    work: Seq<u32>,
    place: int,
    neighbor: int,
)
    requires
        order.no_duplicates(),
        ({
            let found = preorder(csr, order, work);
            &&& order.len() <= place < found.len()
            &&& 0 <= neighbor < row_nodes(csr, found[place]).len()
            &&& !found.take(place + 1).contains(row_nodes(csr, found[place])[neighbor])
            &&& forall|earlier: int|
                0 <= earlier < neighbor ==> found.take(place + 1).contains(
                    #[trigger] row_nodes(csr, found[place])[earlier],
                )
        }),
    ensures
        ({
            let found = preorder(csr, order, work);
            &&& place + 1 < found.len()
            &&& found[place + 1] == row_nodes(csr, found[place])[neighbor]
        }),
    decreases 0x1_0000_0001 - order.len(), work.len(),
{
    let found = preorder(csr, order, work);
    if work.len() == 0 || order.len() > 0x1_0000_0000 {
    } else if order.contains(work[0]) {
        lemma_preorder_deeper(csr, order, work.skip(1), place, neighbor);
    } else {
        let next = order.push(work[0]);
        let row = row_nodes(csr, work[0]);
        let left = unvisited(row, next);
        let more = left + work.skip(1);
        lemma_preorder_prefix(csr, next, more);
        lemma_distinct_nodes(next);
        if place > order.len() {
            lemma_preorder_deeper(csr, next, more, place, neighbor);
        } else {
            assert(found.take(place + 1) == next);
            assert(found[place] == next[place]);
            lemma_first_unvisited(row, next, neighbor);
            assert(more[0] == left[0]);
            let second = next.push(more[0]);
            lemma_preorder_prefix(
                csr,
                second,
                unvisited(row_nodes(csr, more[0]), second) + more.skip(1),
            );
            assert(found == preorder(csr, next, more));
            assert(found.take(second.len() as int)[place + 1] == second[place + 1]);
        }
    }
}

} // verus!
