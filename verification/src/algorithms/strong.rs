//! Strongly connected components by two depth-first passes.

use crate::algorithms::components::{canonical, occurs_before, validate_pair, Components};
use crate::algorithms::traversal::{
    edges_of, lemma_leads_row, lemma_marked_bounds, lemma_marked_step, marked, never_cancelled,
    node_count_of,
};
use crate::cancel::{ask, goes_on};
use crate::csr::{law_listed_rows, sources_inside, targets_inside, transposed, Csr};
use crate::error::{fails_with, Error, ErrorCode, Result};
use crate::reach::{
    lemma_exit_edge, lemma_mutual_trans, lemma_one_edge, lemma_reaches_edge, lemma_reaches_self,
    lemma_reaches_trans, mutual, reaches, Relation,
};
use vstd::prelude::*;

verus! {

/// Each adjacency holds the edges of the other the other way round.
pub open spec fn mirrored(outgoing: Csr, incoming: Csr) -> bool {
    forall|from: int, to: int| #[trigger]
        incoming.leads(from, to) <==> outgoing.leads(to, from)
}

/// Adjacencies of edges and of the edges the other way round mirror each other.
pub proof fn law_transposed_is_mirrored(
    outgoing: Csr,
    incoming: Csr,
    node_count: int,
    triples: Seq<(u32, u32, u32)>,
)
    requires
        0 <= node_count <= u32::MAX as int + 1,
        outgoing.lists(node_count, triples),
        incoming.lists(node_count, transposed(triples)),
        sources_inside(triples, node_count),
        targets_inside(triples, node_count),
    ensures
        mirrored(outgoing, incoming),
{
    let turned = transposed(triples);
    assert(sources_inside(turned, node_count)) by {
        assert forall|i: int| 0 <= i < turned.len() implies (#[trigger] turned[i]).0
            < node_count by {
            assert(triples[i].1 < node_count);
        }
    }
    assert(targets_inside(turned, node_count)) by {
        assert forall|i: int| 0 <= i < turned.len() implies (#[trigger] turned[i]).1
            < node_count by {
            assert(triples[i].0 < node_count);
        }
    }
    law_listed_rows(outgoing, node_count, triples);
    law_listed_rows(incoming, node_count, turned);
    assert forall|from: int, to: int| #[trigger]
        incoming.leads(from, to) <==> outgoing.leads(to, from) by {
        if incoming.leads(from, to) {
            lemma_leads_listed(incoming, node_count, turned, from, to);
            let i = choose|i: int|
                0 <= i < turned.len() && (#[trigger] turned[i]).0 == from && turned[i].1 == to;
            assert(triples[i].0 == to && triples[i].1 == from);
            lemma_listed_leads(outgoing, node_count, triples, i);
        }
        if outgoing.leads(to, from) {
            lemma_leads_listed(outgoing, node_count, triples, to, from);
            let i = choose|i: int|
                0 <= i < triples.len() && (#[trigger] triples[i]).0 == to && triples[i].1 == from;
            assert(turned[i].0 == from && turned[i].1 == to);
            lemma_listed_leads(incoming, node_count, turned, i);
        }
    }
}

proof fn lemma_leads_listed(
    csr: Csr,
    node_count: int,
    triples: Seq<(u32, u32, u32)>,
    from: int,
    to: int,
)
    requires
        0 <= node_count <= u32::MAX as int + 1,
        csr.lists(node_count, triples),
        sources_inside(triples, node_count),
        targets_inside(triples, node_count),
        csr.leads(from, to),
    ensures
        exists|i: int|
            0 <= i < triples.len() && (#[trigger] triples[i]).0 == from && triples[i].1 == to,
{
    law_listed_rows(csr, node_count, triples);
    let row = csr.spec_row(from)->Some_0;
    let k = choose|k: int| 0 <= k < row.len() && (#[trigger] csr.spec_row(from)->Some_0[k]).0 == to;
    let (target, edge) = row[k];
    assert(csr.holds(from, target, edge));
    assert(triples.contains((from as u32, target, edge)));
    let i = choose|i: int| 0 <= i < triples.len() && triples[i] == (from as u32, target, edge);
    assert(triples[i].0 == from && triples[i].1 == to);
}

proof fn lemma_listed_leads(csr: Csr, node_count: int, triples: Seq<(u32, u32, u32)>, i: int)
    requires
        0 <= node_count <= u32::MAX as int + 1,
        csr.lists(node_count, triples),
        sources_inside(triples, node_count),
        targets_inside(triples, node_count),
        0 <= i < triples.len(),
    ensures
        csr.leads(triples[i].0 as int, triples[i].1 as int),
{
    law_listed_rows(csr, node_count, triples);
    let (source, target, edge) = triples[i];
    assert(triples.contains((source, target, edge)));
    assert(csr.holds(source as int, target, edge));
    let k = choose|k: int|
        0 <= k < csr.spec_row(source as int)->Some_0.len() && #[trigger] csr.spec_row(
            source as int,
        )->Some_0[k] == (target, edge);
    assert(csr.spec_row(source as int)->Some_0[k].0 == target);
}

/// Two nodes have one component exactly when each can reach the other.
pub open spec fn strong_components(edge: Relation, component: Seq<u32>) -> bool {
    forall|u: int, v: int|
        #![trigger component[u], component[v]]
        0 <= u < component.len() && 0 <= v < component.len() ==> (component[u] == component[v]
            <==> mutual(edge, u, v))
}

/// One of the first `count` nodes of a sequence.
spec fn among(nodes: Seq<u32>, count: int, node: int) -> bool {
    exists|i: int| 0 <= i < count && #[trigger] nodes[i] == node
}

/// In a finish order, an edge that leaves the nodes finished up to some point leads to a node that
/// reaches the node finished last.
spec fn finish_closed(edge: Relation, finish: Seq<u32>) -> bool {
    forall|last: int, i: int, to: int|
        0 <= i <= last < finish.len() && #[trigger] edge(finish[i] as int, to) ==> among(
            finish,
            last + 1,
            to,
        ) || #[trigger] reaches(edge, to, finish[last] as int)
}

spec fn entering(stack: Seq<(u32, bool)>, from: int, to: int) -> bool {
    exists|i: int, j: int|
        0 <= i < j < stack.len() && #[trigger] stack[i] == (from as u32, true)
            && #[trigger] stack[j] == (to as u32, false)
}

spec fn open_entry(stack: Seq<(u32, bool)>, node: int) -> bool {
    exists|i: int| 0 <= i < stack.len() && #[trigger] stack[i] == (node as u32, true)
}

/// The state of the first pass: a node is on the stack with `true` from its visit until it
/// finishes, and what waits above it is reached from it.
spec fn pass_inv(
    edge: Relation,
    total: int,
    visited: Seq<bool>,
    finish: Seq<u32>,
    stack: Seq<(u32, bool)>,
) -> bool {
    &&& visited.len() == total
    &&& total <= u32::MAX
    &&& finish.no_duplicates()
    &&& forall|i: int|
        0 <= i < finish.len() ==> (#[trigger] finish[i]) < total && visited[finish[i] as int]
    &&& forall|i: int| 0 <= i < stack.len() ==> (#[trigger] stack[i]).0 < total
    &&& forall|i: int|
        0 <= i < stack.len() && (#[trigger] stack[i]).1 ==> visited[stack[i].0 as int]
            && !finish.contains(stack[i].0)
    &&& forall|i: int, j: int|
        0 <= i < j < stack.len() && (#[trigger] stack[i]).1 && (#[trigger] stack[j]).1
            ==> stack[i].0 != stack[j].0
    &&& forall|v: int|
        0 <= v < total && #[trigger] visited[v] ==> among(finish, finish.len() as int, v)
            || open_entry(stack, v)
    &&& forall|i: int, j: int|
        0 <= i < j < stack.len() && (#[trigger] stack[i]).1 ==> reaches(
            edge,
            stack[i].0 as int,
            (#[trigger] stack[j]).0 as int,
        )
    &&& forall|u: int, v: int|
        0 <= u < total && visited[u] && #[trigger] edge(u, v) ==> visited[v] || entering(
            stack,
            u,
            v,
        )
    &&& finish_closed(edge, finish)
}

proof fn lemma_pop_exit(
    edge: Relation,
    total: int,
    visited: Seq<bool>,
    finish: Seq<u32>,
    rest: Seq<(u32, bool)>,
    node: u32,
)
    requires
        forall|u: int, v: int| #[trigger] edge(u, v) ==> 0 <= u < total && 0 <= v < total,
        pass_inv(edge, total, visited, finish, rest.push((node, true))),
    ensures
        pass_inv(edge, total, visited, finish.push(node), rest),
{
    let stack = rest.push((node, true));
    let grown = finish.push(node);
    let top = rest.len() as int;
    assert(stack[top] == (node, true));
    assert(!finish.contains(node));
    assert forall|i: int| 0 <= i < rest.len() implies #[trigger] rest[i] == stack[i] by {}
    assert forall|i: int| 0 <= i < grown.len() implies (#[trigger] grown[i]) < total
        && visited[grown[i] as int] by {
        if i < finish.len() {
            assert(grown[i] == finish[i]);
        }
    }
    assert(grown.no_duplicates()) by {
        assert forall|i: int, j: int| 0 <= i < grown.len() && 0 <= j < grown.len() && i
            != j implies grown[i] != grown[j] by {
            if i < finish.len() && j < finish.len() {
                assert(finish[i] != finish[j]);
            } else if i < finish.len() {
                assert(finish.contains(finish[i]));
            } else {
                assert(finish.contains(finish[j]));
            }
        }
    }
    assert forall|i: int| 0 <= i < rest.len()
        && (#[trigger] rest[i]).1 implies visited[rest[i].0 as int]
        && !grown.contains(rest[i].0) by {
        assert(stack[i] == rest[i]);
        if grown.contains(rest[i].0) {
            let k = choose|k: int| 0 <= k < grown.len() && grown[k] == rest[i].0;
            if k < finish.len() {
                assert(finish[k] == rest[i].0);
                assert(finish.contains(rest[i].0));
            } else {
                assert(stack[i].0 != stack[top].0);
            }
        }
    }
    assert forall|v: int| 0 <= v < total && #[trigger] visited[v] implies among(
        grown,
        grown.len() as int,
        v,
    ) || open_entry(rest, v) by {
        if among(finish, finish.len() as int, v) {
            let i = choose|i: int| 0 <= i < finish.len() && #[trigger] finish[i] == v;
            assert(grown[i] == v);
        } else {
            let i = choose|i: int| 0 <= i < stack.len() && #[trigger] stack[i] == (v as u32, true);
            if i == top {
                assert(grown[finish.len() as int] == v);
            } else {
                assert(rest[i] == (v as u32, true));
            }
        }
    }
    assert forall|i: int, j: int| 0 <= i < j < rest.len() && (#[trigger] rest[i]).1 implies reaches(
        edge,
        rest[i].0 as int,
        (#[trigger] rest[j]).0 as int,
    ) by {
        assert(stack[i] == rest[i] && stack[j] == rest[j]);
    }
    assert forall|i: int, j: int|
        0 <= i < j < rest.len() && (#[trigger] rest[i]).1 && (#[trigger] rest[j]).1 implies rest[i].0
        != rest[j].0 by {
        assert(stack[i] == rest[i] && stack[j] == rest[j]);
    }
    assert forall|u: int, v: int|
        0 <= u < total && visited[u] && #[trigger] edge(u, v) implies visited[v] || entering(
        rest,
        u,
        v,
    ) by {
        if !visited[v] {
            let (i, j) = choose|i: int, j: int|
                0 <= i < j < stack.len() && #[trigger] stack[i] == (u as u32, true)
                    && #[trigger] stack[j] == (v as u32, false);
            assert(rest[i] == (u as u32, true) && rest[j] == (v as u32, false));
        }
    }
    assert forall|last: int, i: int, to: int|
        0 <= i <= last < grown.len() && #[trigger] edge(grown[i] as int, to) implies among(
        grown,
        last + 1,
        to,
    ) || #[trigger] reaches(edge, to, grown[last] as int) by {
        let from = grown[i];
        if last < finish.len() {
            assert(grown[i] == finish[i] && grown[last] == finish[last]);
            assert(edge(finish[i] as int, to));
            assert(among(finish, last + 1, to) || reaches(edge, to, finish[last] as int));
            if among(finish, last + 1, to) {
                let k = choose|k: int| 0 <= k < last + 1 && #[trigger] finish[k] == to;
                assert(grown[k] == to);
            }
        } else {
            assert(grown[last] == node);
            assert(visited[from as int]);
            if !visited[to] {
                let (x, y) = choose|x: int, y: int|
                    0 <= x < y < stack.len() && #[trigger] stack[x] == (from, true)
                        && #[trigger] stack[y] == (to as u32, false);
                assert(!finish.contains(stack[x].0));
                if i < finish.len() {
                    assert(finish.contains(finish[i]));
                } else {
                    assert(from == node);
                    assert(stack[x].0 != stack[top].0);
                }
                assert(false);
            }
            if among(finish, finish.len() as int, to) {
                let k = choose|k: int| 0 <= k < finish.len() && #[trigger] finish[k] == to;
                assert(grown[k] == to);
                assert(among(grown, last + 1, to));
            } else {
                let k = choose|k: int|
                    0 <= k < stack.len() && #[trigger] stack[k] == (to as u32, true);
                if k == top {
                    assert(grown[last] == to);
                } else {
                    assert(reaches(edge, stack[k].0 as int, stack[top].0 as int));
                }
            }
        }
    }
}

proof fn lemma_pop_visited(
    edge: Relation,
    total: int,
    visited: Seq<bool>,
    finish: Seq<u32>,
    rest: Seq<(u32, bool)>,
    node: u32,
)
    requires
        forall|u: int, v: int| #[trigger] edge(u, v) ==> 0 <= u < total && 0 <= v < total,
        pass_inv(edge, total, visited, finish, rest.push((node, false))),
        visited[node as int],
    ensures
        pass_inv(edge, total, visited, finish, rest),
{
    let stack = rest.push((node, false));
    assert forall|i: int| 0 <= i < rest.len() implies #[trigger] rest[i] == stack[i] by {}
    assert forall|v: int| 0 <= v < total && #[trigger] visited[v] implies among(
        finish,
        finish.len() as int,
        v,
    ) || open_entry(rest, v) by {
        if !among(finish, finish.len() as int, v) {
            let i = choose|i: int| 0 <= i < stack.len() && #[trigger] stack[i] == (v as u32, true);
            assert(rest[i] == (v as u32, true));
        }
    }
    assert forall|i: int, j: int| 0 <= i < j < rest.len() && (#[trigger] rest[i]).1 implies reaches(
        edge,
        rest[i].0 as int,
        (#[trigger] rest[j]).0 as int,
    ) by {
        assert(stack[i] == rest[i] && stack[j] == rest[j]);
    }
    assert forall|i: int, j: int|
        0 <= i < j < rest.len() && (#[trigger] rest[i]).1 && (#[trigger] rest[j]).1 implies rest[i].0
        != rest[j].0 by {
        assert(stack[i] == rest[i] && stack[j] == rest[j]);
    }
    assert forall|u: int, v: int|
        0 <= u < total && visited[u] && #[trigger] edge(u, v) implies visited[v] || entering(
        rest,
        u,
        v,
    ) by {
        if !visited[v] {
            let (i, j) = choose|i: int, j: int|
                0 <= i < j < stack.len() && #[trigger] stack[i] == (u as u32, true)
                    && #[trigger] stack[j] == (v as u32, false);
            assert(rest[i] == (u as u32, true) && rest[j] == (v as u32, false));
        }
    }
}

/// The unvisited neighbors of a node, as stack entries.
spec fn fresh_entries(
    edge: Relation,
    visited: Seq<bool>,
    node: u32,
    fresh: Seq<(u32, bool)>,
) -> bool {
    &&& forall|i: int|
        0 <= i < fresh.len() ==> !(#[trigger] fresh[i]).1 && edge(node as int, fresh[i].0 as int)
            && !visited[fresh[i].0 as int]
    &&& forall|to: int| #[trigger]
        edge(node as int, to) && !visited[to] ==> exists|i: int|
            0 <= i < fresh.len() && (#[trigger] fresh[i]).0 == to
}

proof fn lemma_visit(
    edge: Relation,
    total: int,
    visited: Seq<bool>,
    finish: Seq<u32>,
    rest: Seq<(u32, bool)>,
    node: u32,
    fresh: Seq<(u32, bool)>,
)
    requires
        forall|u: int, v: int| #[trigger] edge(u, v) ==> 0 <= u < total && 0 <= v < total,
        pass_inv(edge, total, visited, finish, rest.push((node, false))),
        !visited[node as int],
        fresh_entries(edge, visited.update(node as int, true), node, fresh),
    ensures
        pass_inv(
            edge,
            total,
            visited.update(node as int, true),
            finish,
            rest.push((node, true)) + fresh,
        ),
{
    let stack = rest.push((node, false));
    let top = rest.len() as int;
    let visited2 = visited.update(node as int, true);
    let stack2 = rest.push((node, true)) + fresh;
    assert(stack[top] == (node, false));
    assert(stack2[top] == (node, true));
    assert forall|i: int| 0 <= i < rest.len() implies #[trigger] stack2[i] == stack[i] by {}
    assert forall|i: int| top < i < stack2.len() implies #[trigger] stack2[i]
        == fresh[i - top - 1] by {}
    assert(!finish.contains(node)) by {
        if finish.contains(node) {
            let i = choose|i: int| 0 <= i < finish.len() && finish[i] == node;
            assert(visited[finish[i] as int]);
        }
    }
    assert forall|i: int| 0 <= i < finish.len() implies (#[trigger] finish[i]) < total
        && visited2[finish[i] as int] by {}
    assert forall|i: int| 0 <= i < stack2.len() implies (#[trigger] stack2[i]).0 < total by {
        if i > top {
            assert(edge(node as int, fresh[i - top - 1].0 as int));
        }
    }
    assert forall|i: int| 0 <= i < stack2.len()
        && (#[trigger] stack2[i]).1 implies visited2[stack2[i].0 as int]
        && !finish.contains(stack2[i].0) by {
        if i < top {
            assert(stack[i].1);
        }
    }
    assert forall|i: int, j: int|
        0 <= i < j < stack2.len() && (#[trigger] stack2[i]).1
            && (#[trigger] stack2[j]).1 implies stack2[i].0
        != stack2[j].0 by {
        assert(j <= top);
        if j == top {
            assert(stack[i].1);
            assert(visited[stack[i].0 as int]);
        } else {
            assert(stack[i].0 != stack[j].0);
        }
    }
    assert forall|v: int| 0 <= v < total && #[trigger] visited2[v] implies among(
        finish,
        finish.len() as int,
        v,
    ) || open_entry(stack2, v) by {
        if v == node {
            assert(stack2[top] == (v as u32, true));
        } else {
            assert(visited[v]);
            if !among(finish, finish.len() as int, v) {
                let i = choose|i: int|
                    0 <= i < stack.len() && #[trigger] stack[i] == (v as u32, true);
                assert(stack2[i] == (v as u32, true));
            }
        }
    }
    assert forall|i: int, j: int|
        0 <= i < j < stack2.len() && (#[trigger] stack2[i]).1 implies reaches(
        edge,
        stack2[i].0 as int,
        (#[trigger] stack2[j]).0 as int,
    ) by {
        assert(i <= top);
        if j < top {
            assert(reaches(edge, stack[i].0 as int, stack[j].0 as int));
        } else if j == top {
            assert(reaches(edge, stack[i].0 as int, stack[top].0 as int));
        } else {
            let v = fresh[j - top - 1].0 as int;
            assert(edge(node as int, v));
            if i == top {
                lemma_one_edge(edge, node as int, v);
            } else {
                assert(reaches(edge, stack[i].0 as int, stack[top].0 as int));
                lemma_reaches_edge(edge, stack[i].0 as int, node as int, v);
            }
        }
    }
    assert forall|u: int, v: int|
        0 <= u < total && visited2[u] && #[trigger] edge(u, v) implies visited2[v] || entering(
        stack2,
        u,
        v,
    ) by {
        if !visited2[v] {
            if u == node {
                let i = choose|i: int| 0 <= i < fresh.len() && (#[trigger] fresh[i]).0 == v;
                assert(stack2[top + 1 + i] == (v as u32, false));
                assert(stack2[top] == (u as u32, true));
            } else {
                let (i, j) = choose|i: int, j: int|
                    0 <= i < j < stack.len() && #[trigger] stack[i] == (u as u32, true)
                        && #[trigger] stack[j] == (v as u32, false);
                assert(j != top);
                assert(stack2[i] == (u as u32, true) && stack2[j] == (v as u32, false));
            }
        }
    }
}

/// A complete finish order: every node once, closed under the edges.
spec fn finish_order(edge: Relation, total: int, finish: Seq<u32>) -> bool {
    &&& finish.no_duplicates()
    &&& forall|i: int| 0 <= i < finish.len() ==> (#[trigger] finish[i]) < total
    &&& forall|v: int| 0 <= v < total ==> #[trigger] among(finish, finish.len() as int, v)
    &&& finish_closed(edge, finish)
}

/// Collects the unvisited neighbors of a node, last neighbor first.
fn push_unvisited(
    adjacency: &Csr,
    node: u32,
    visited: &Vec<bool>,
    stack: &mut Vec<(u32, bool)>,
) -> (fresh: Ghost<Seq<(u32, bool)>>)
    requires
        adjacency.targets_are_rows(),
        visited.len() == adjacency.node_total(),
    ensures
        final(stack)@ == old(stack)@ + fresh@,
        fresh_entries(edges_of(*adjacency), visited@, node, fresh@),
{
    let neighbors = adjacency.neighbors();
    let ghost edge = edges_of(*adjacency);
    let ghost before = stack@;
    let ghost mut fresh: Seq<(u32, bool)> = Seq::empty();
    assert(before + fresh =~= before);
    if let Some((start, end)) = adjacency.row_bounds(node) {
        let mut place: usize = end;
        while place > start
            invariant
                adjacency.targets_are_rows(),
                neighbors@ == adjacency.spec_neighbors(),
                visited.len() == adjacency.node_total(),
                edge == edges_of(*adjacency),
                adjacency.spec_row(node as int) is Some,
                start == adjacency.spec_offsets()[node as int],
                end == adjacency.spec_offsets()[node + 1],
                start <= place <= end <= neighbors.len(),
                adjacency.spec_row(node as int)->Some_0.len() == end - start,
                stack@ == before + fresh,
                forall|i: int|
                    0 <= i < fresh.len() ==> !(#[trigger] fresh[i]).1 && edge(
                        node as int,
                        fresh[i].0 as int,
                    ) && !visited@[fresh[i].0 as int],
                forall|k: int|
                    place <= k < end && !visited@[#[trigger] neighbors@[k] as int]
                        ==> fresh.contains((neighbors@[k], false)),
            decreases place,
        {
            place = place - 1;
            let neighbor: u32 = neighbors[place];
            let ghost fresh0 = fresh;
            if !visited[neighbor as usize] {
                proof {
                    assert(adjacency.spec_row(node as int)->Some_0[place - start].0 == neighbor);
                    assert(adjacency.leads(node as int, neighbor as int));
                    fresh = fresh.push((neighbor, false));
                    assert(fresh[fresh0.len() as int] == (neighbor, false));
                }
                stack.push((neighbor, false));
                assert(stack@ =~= before + fresh);
            }
            proof {
                assert forall|k: int|
                    place <= k < end
                        && !visited@[#[trigger] neighbors@[k] as int] implies fresh.contains(
                    (neighbors@[k], false),
                ) by {
                    if k > place {
                        assert(fresh0.contains((neighbors@[k], false)));
                        let i = choose|i: int|
                            0 <= i < fresh0.len() && fresh0[i] == (neighbors@[k], false);
                        assert(fresh[i] == (neighbors@[k], false));
                    }
                }
            }
        }
        proof {
            assert forall|to: int| #[trigger]
                edge(node as int, to) && !visited@[to] implies exists|i: int|
                0 <= i < fresh.len() && (#[trigger] fresh[i]).0 == to by {
                let row = adjacency.spec_row(node as int)->Some_0;
                let i = choose|i: int| 0 <= i < row.len() && (#[trigger] row[i]).0 == to;
                assert(neighbors@[start + i] == to);
                let k = choose|k: int| 0 <= k < fresh.len() && fresh[k] == (to as u32, false);
                assert(fresh[k].0 == to);
            }
        }
    }
    Ghost(fresh)
}

/// The first pass: nodes in the order in which a depth-first search finishes them.
#[verifier::spinoff_prover]
#[verifier::rlimit(60)]
fn finish_pass<F: FnMut() -> Result<()>>(outgoing: &Csr, check: &mut F) -> (result: Result<
    Vec<u32>,
>)
    requires
        outgoing.targets_are_rows(),
        outgoing.node_total() <= u32::MAX,
        call_requires(*old(check), ()),
    ensures
        *final(check) == *old(check),
        match result {
            Ok(finish) => {
                &&& finish_order(edges_of(*outgoing), outgoing.node_total(), finish@)
                &&& outgoing.node_total() > 0 ==> goes_on(*old(check))
            },
            Err(error) => outgoing.node_total() > 0 && call_ensures(
                *old(check),
                (),
                Err::<(), Error>(error),
            ),
        },
{
    let node_count: usize = node_count_of(outgoing);
    let mut visited: Vec<bool> = vec![false; node_count];
    let mut finish: Vec<u32> = Vec::with_capacity(node_count);
    let ghost edge = edges_of(*outgoing);
    let ghost total = node_count as int;
    proof {
        assert forall|u: int, v: int| #[trigger] edge(u, v) implies 0 <= u < total && 0 <= v
            < total by {
            lemma_leads_row(*outgoing, u, v);
        }
    }
    let mut start: usize = 0;
    while start < node_count
        invariant
            outgoing.targets_are_rows(),
            node_count == outgoing.node_total(),
            node_count <= u32::MAX,
            total == node_count,
            edge == edges_of(*outgoing),
            forall|u: int, v: int| #[trigger] edge(u, v) ==> 0 <= u < total && 0 <= v < total,
            *check == *old(check),
            call_requires(*check, ()),
            start <= node_count,
            pass_inv(edge, total, visited@, finish@, Seq::empty()),
            forall|v: int| 0 <= v < start ==> #[trigger] visited@[v],
            start > 0 ==> goes_on(*old(check)),
        decreases node_count - start,
    {
        if start % 1024 == 0 {
            match ask(check) {
                Ok(_) => {},
                Err(error) => {
                    return Err(error);
                },
            }
        }
        if !visited[start] {
            let mut stack: Vec<(u32, bool)> = vec![(start as u32, false)];
            proof {
                assert(stack@[0] == (start as u32, false));
                assert forall|v: int| 0 <= v < total && #[trigger] visited@[v] implies among(
                    finish@,
                    finish@.len() as int,
                    v,
                ) || open_entry(stack@, v) by {
                    assert(!open_entry(Seq::empty(), v));
                }
                assert forall|u: int, v: int|
                    0 <= u < total && visited@[u] && #[trigger] edge(u, v) implies visited@[v]
                    || entering(stack@, u, v) by {
                    assert(!entering(Seq::empty(), u, v));
                }
            }
            let ghost known = visited@;
            while stack.len() > 0
                invariant
                    outgoing.targets_are_rows(),
                    node_count == outgoing.node_total(),
                    node_count <= u32::MAX,
                    *check == *old(check),
                    total == node_count,
                    edge == edges_of(*outgoing),
                    forall|u: int, v: int| #[trigger]
                        edge(u, v) ==> 0 <= u < total && 0 <= v < total,
                    pass_inv(edge, total, visited@, finish@, stack@),
                    known.len() == total,
                    forall|v: int| 0 <= v < total && known[v] ==> #[trigger] visited@[v],
                    start < total,
                    visited@[start as int] || stack@.contains((start as u32, false)),
                decreases total - marked(visited@), stack.len(),
            {
                let ghost full = stack@;
                let (node, exiting) = stack[stack.len() - 1];
                stack.pop();
                proof {
                    assert(stack@ =~= full.drop_last());
                    assert(full =~= stack@.push((node, exiting)));
                    assert(full[full.len() - 1] == (node, exiting));
                    if full.contains((start as u32, false)) && (node, exiting) != (
                        start as u32,
                        false,
                    ) {
                        let i = choose|i: int|
                            0 <= i < full.len() && full[i] == (start as u32, false);
                        assert(stack@[i] == (start as u32, false));
                    }
                    lemma_marked_bounds(visited@);
                }
                if exiting {
                    proof {
                        lemma_pop_exit(edge, total, visited@, finish@, stack@, node);
                    }
                    finish.push(node);
                } else if visited[node as usize] {
                    proof {
                        lemma_pop_visited(edge, total, visited@, finish@, stack@, node);
                    }
                } else {
                    let ghost rest = stack@;
                    let ghost before = visited@;
                    proof {
                        lemma_marked_step(visited@, node as int);
                    }
                    visited.set(node as usize, true);
                    stack.push((node, true));
                    let fresh = push_unvisited(outgoing, node, &visited, &mut stack);
                    proof {
                        lemma_visit(edge, total, before, finish@, rest, node, fresh@);
                        lemma_marked_bounds(visited@);
                        if node != start && !visited@[start as int] {
                            assert(rest.contains((start as u32, false)));
                            let i = choose|i: int|
                                0 <= i < rest.len() && rest[i] == (start as u32, false);
                            assert(stack@[i] == (start as u32, false));
                        }
                    }
                }
            }
            assert(stack@ =~= Seq::empty());
        }
        start = start + 1;
    }
    proof {
        assert forall|v: int| 0 <= v < total implies #[trigger] among(
            finish@,
            finish@.len() as int,
            v,
        ) by {
            assert(visited@[v]);
            assert(!open_entry(Seq::empty(), v));
        }
    }
    Ok(finish)
}

/// The state between components of the second pass: whole components are labelled.
spec fn whole_components(edge: Relation, total: int, component: Seq<u32>, count: int) -> bool {
    &&& component.len() == total
    &&& forall|v: int|
        0 <= v < total && #[trigger] component[v] != u32::MAX ==> component[v] < count
    &&& forall|u: int, v: int|
        #![trigger component[u], component[v]]
        0 <= u < total && 0 <= v < total && component[u] != u32::MAX && component[v] != u32::MAX
            ==> (component[u] == component[v] <==> mutual(edge, u, v))
    &&& forall|u: int, v: int|
        0 <= u < total && 0 <= v < total && component[u] != u32::MAX && #[trigger] mutual(
            edge,
            u,
            v,
        ) ==> component[v] != u32::MAX
}

/// An unlabelled node that reaches the last unlabelled node of the finish order is reached from it.
proof fn lemma_finish_mutual(
    edge: Relation,
    total: int,
    finish: Seq<u32>,
    component: Seq<u32>,
    count: int,
    root: int,
    place: int,
)
    requires
        forall|u: int, v: int| #[trigger] edge(u, v) ==> 0 <= u < total && 0 <= v < total,
        finish_order(edge, total, finish),
        whole_components(edge, total, component, count),
        0 <= place <= root < finish.len(),
        forall|j: int|
            root < j < finish.len() ==> component[#[trigger] finish[j] as int] != u32::MAX,
        component[finish[root] as int] == u32::MAX,
        component[finish[place] as int] == u32::MAX,
        reaches(edge, finish[place] as int, finish[root] as int),
    ensures
        reaches(edge, finish[root] as int, finish[place] as int),
    decreases root - place,
{
    let r = finish[root] as int;
    let w = finish[place] as int;
    if place == root {
        lemma_reaches_self(edge, r);
    } else {
        let inside = Set::new(|v: int| among(finish, place + 1, v));
        assert(inside.contains(w)) by {
            assert(finish[place] == w);
        }
        assert(!inside.contains(r)) by {
            if among(finish, place + 1, r) {
                let k = choose|k: int| 0 <= k < place + 1 && #[trigger] finish[k] == r;
                assert(finish[k] != finish[root]);
            }
        }
        let (x, y) = lemma_exit_edge(edge, inside, w, r);
        let k = choose|k: int| 0 <= k < place + 1 && #[trigger] finish[k] == x;
        assert(edge(finish[k] as int, y));
        assert(among(finish, place + 1, y) || reaches(edge, y, finish[place] as int));
        assert(reaches(edge, y, w));
        assert(mutual(edge, y, w));
        assert(among(finish, finish.len() as int, y));
        let q = choose|q: int| 0 <= q < finish.len() && #[trigger] finish[q] == y;
        if q <= place {
            assert(among(finish, place + 1, y));
        }
        if component[y] != u32::MAX {
            assert(mutual(edge, y, w));
        }
        assert(q <= root) by {
            if q > root {
                assert(component[finish[q] as int] != u32::MAX);
            }
        }
        lemma_finish_mutual(edge, total, finish, component, count, root, q);
        lemma_reaches_trans(edge, r, y, w);
    }
}

/// One component of the second pass in progress, from its root backwards along edges.
spec fn gathering(
    edge: Relation,
    before: Seq<u32>,
    component: Seq<u32>,
    stack: Seq<u32>,
    root: int,
    id: u32,
) -> bool {
    &&& component.len() == before.len()
    &&& forall|i: int|
        0 <= i < stack.len() ==> (#[trigger] stack[i]) < component.len()
            && component[stack[i] as int] == id
    &&& forall|v: int|
        0 <= v < before.len() ==> (#[trigger] component[v] == before[v] || before[v] == u32::MAX
            && component[v] == id && mutual(edge, root, v))
    &&& component[root] == id
    &&& forall|u: int, v: int|
        0 <= v < component.len() && component[v] == id && #[trigger] edge(u, v)
            ==> component[u] != u32::MAX || stack.contains(v as u32)
}

proof fn lemma_gathered(
    edge: Relation,
    total: int,
    before: Seq<u32>,
    component: Seq<u32>,
    root: int,
    id: u32,
)
    requires
        forall|u: int, v: int| #[trigger] edge(u, v) ==> 0 <= u < total && 0 <= v < total,
        whole_components(edge, total, before, id as int),
        0 <= root < total,
        before[root] == u32::MAX,
        id < u32::MAX,
        gathering(edge, before, component, Seq::empty(), root, id),
    ensures
        whole_components(edge, total, component, id + 1),
{
    assert forall|v: int| 0 <= v < total && mutual(edge, root, v) implies #[trigger] component[v]
        == id by {
        assert(before[v] == u32::MAX) by {
            if before[v] != u32::MAX {
                assert(mutual(edge, v, root));
            }
        }
        if component[v] != id {
            assert(component[v] == u32::MAX);
            let inside = Set::new(|x: int| 0 <= x < total && component[x] == u32::MAX);
            let (x, y) = lemma_exit_edge(edge, inside, v, root);
            assert(edge(x, y));
            assert(component[y] != u32::MAX);
            if component[y] == id {
                assert(component[x] != u32::MAX || Seq::<u32>::empty().contains(y as u32));
                assert(false);
            } else {
                assert(before[y] == component[y]);
                lemma_reaches_trans(edge, root, v, y);
                assert(mutual(edge, y, root));
                assert(false);
            }
        }
    }
    assert forall|u: int, v: int|
        #![trigger component[u], component[v]]
        0 <= u < total && 0 <= v < total && component[u] != u32::MAX && component[v]
            != u32::MAX implies (component[u] == component[v] <==> mutual(edge, u, v)) by {
        lemma_class(edge, total, before, component, root, id, u);
        lemma_class(edge, total, before, component, root, id, v);
        if component[u] == id && component[v] == id {
            lemma_mutual_flip(edge, root, u);
            lemma_mutual_trans(edge, u, root, v);
        } else if component[u] == id {
            if mutual(edge, u, v) {
                lemma_mutual_trans(edge, root, u, v);
                assert(component[v] == id);
            }
        } else if component[v] == id {
            if mutual(edge, u, v) {
                lemma_mutual_flip(edge, u, v);
                lemma_mutual_trans(edge, root, v, u);
                assert(component[u] == id);
            }
        } else {
            assert(before[u] == component[u] && before[v] == component[v]);
        }
    }
    assert forall|u: int, v: int|
        0 <= u < total && 0 <= v < total && component[u] != u32::MAX && #[trigger] mutual(
            edge,
            u,
            v,
        ) implies component[v] != u32::MAX by {
        lemma_class(edge, total, before, component, root, id, u);
        if component[u] == id {
            lemma_mutual_trans(edge, root, u, v);
            assert(component[v] == id);
        } else {
            assert(before[u] != u32::MAX);
            assert(before[v] != u32::MAX);
            assert(component[v] == before[v]);
        }
    }
}

proof fn lemma_mutual_flip(edge: Relation, left: int, right: int)
    requires
        mutual(edge, left, right),
    ensures
        mutual(edge, right, left),
{
}

proof fn lemma_class(
    edge: Relation,
    total: int,
    before: Seq<u32>,
    component: Seq<u32>,
    root: int,
    id: u32,
    node: int,
)
    requires
        whole_components(edge, total, before, id as int),
        id < u32::MAX,
        gathering(edge, before, component, Seq::empty(), root, id),
        0 <= node < total,
        component[node] != u32::MAX,
    ensures
        component[node] == id ==> mutual(edge, root, node),
        component[node] != id ==> before[node] == component[node] && before[node] != u32::MAX,
        component[node] <= id,
{
    if component[node] == before[node] {
        assert(before[node] < id);
    }
}

/// Collects one component: every unlabelled node that reaches the root.
#[verifier::spinoff_prover]
#[verifier::rlimit(60)]
fn gather<F: FnMut() -> Result<()>>(
    outgoing: &Csr,
    incoming: &Csr,
    finish: &Vec<u32>,
    root: usize,
    id: u32,
    component: &mut Vec<u32>,
    check: &mut F,
) -> (result: Result<()>)
    requires
        outgoing.targets_are_rows(),
        incoming.targets_are_rows(),
        mirrored(*outgoing, *incoming),
        incoming.node_total() == outgoing.node_total(),
        outgoing.node_total() <= u32::MAX,
        call_requires(*old(check), ()),
        finish_order(edges_of(*outgoing), outgoing.node_total(), finish@),
        whole_components(
            edges_of(*outgoing),
            outgoing.node_total(),
            old(component)@,
            id as int,
        ),
        id < u32::MAX,
        root < finish.len(),
        forall|j: int|
            root < j < finish.len() ==> old(component)@[#[trigger] finish@[j] as int] != u32::MAX,
        old(component)@[finish@[root as int] as int] == u32::MAX,
    ensures
        *final(check) == *old(check),
        match result {
            Ok(_) => {
                &&& whole_components(
                    edges_of(*outgoing),
                    outgoing.node_total(),
                    final(component)@,
                    id + 1,
                )
                &&& final(component)@[finish@[root as int] as int] != u32::MAX
                &&& forall|v: int|
                    0 <= v < old(component).len() && old(component)@[v] != u32::MAX
                        ==> #[trigger] final(component)@[v] == old(component)@[v]
            },
            Err(error) => call_ensures(*old(check), (), Err::<(), Error>(error)),
        },
{
    let ghost edge = edges_of(*outgoing);
    let ghost total = outgoing.node_total();
    let ghost before = component@;
    let start: u32 = finish[root];
    let ghost r = start as int;
    let neighbors = incoming.neighbors();
    proof {
        assert forall|u: int, v: int| #[trigger] edge(u, v) implies 0 <= u < total && 0 <= v
            < total by {
            lemma_leads_row(*outgoing, u, v);
        }
        lemma_reaches_self(edge, r);
    }
    let ghost settled_before = marked(unlabelled(before));
    let mut stack: Vec<u32> = vec![start];
    proof {
        lemma_marked_drop(unlabelled(component@), r);
    }
    component.set(start as usize, id);
    proof {
        assert(unlabelled(component@) =~= unlabelled(before).update(r, false));
        assert(stack@[0] == start);
        assert forall|u: int, v: int|
            0 <= v < component.len() && component@[v] == id && #[trigger] edge(u,
                v) implies component@[u]
            != u32::MAX || stack@.contains(v as u32) by {
            assert(v == r) by {
                if v != r {
                    assert(before[v] == id);
                    assert(before[v] < id);
                }
            }
        }
    }
    while stack.len() > 0
        invariant
            outgoing.targets_are_rows(),
            incoming.targets_are_rows(),
            mirrored(*outgoing, *incoming),
            incoming.node_total() == outgoing.node_total(),
            total == outgoing.node_total(),
            total <= u32::MAX,
            edge == edges_of(*outgoing),
            neighbors@ == incoming.spec_neighbors(),
            *check == *old(check),
            call_requires(*check, ()),
            forall|u: int, v: int| #[trigger] edge(u, v) ==> 0 <= u < total && 0 <= v < total,
            finish_order(edge, total, finish@),
            whole_components(edge, total, before, id as int),
            id < u32::MAX,
            root < finish.len(),
            r == finish@[root as int],
            0 <= r < total,
            before[r] == u32::MAX,
            forall|j: int|
                root < j < finish.len() ==> before[#[trigger] finish@[j] as int] != u32::MAX,
            component.len() == total,
            gathering(edge, before, component@, stack@, r, id),
        decreases marked(unlabelled(component@)), stack.len(),
    {
        let ghost full = stack@;
        let node: u32 = stack[stack.len() - 1];
        stack.pop();
        proof {
            assert(stack@ =~= full.drop_last());
            assert(full[full.len() - 1] == node);
            assert(component@[node as int] == id);
            lemma_popped(edge, before, component@, full, stack@, r, id, node);
            lemma_marked_bounds(unlabelled(component@));
        }
        if node % 1024 == 0 {
            match ask(check) {
                Ok(_) => {},
                Err(error) => {
                    return Err(error);
                },
            }
        }
        let ghost measure = marked(unlabelled(component@));
        let ghost waiting = stack@.len();
        if let Some((first, end)) = incoming.row_bounds(node) {
            for place in first..end
                invariant
                    outgoing.targets_are_rows(),
                    incoming.targets_are_rows(),
                    mirrored(*outgoing, *incoming),
                    incoming.node_total() == outgoing.node_total(),
                    total == outgoing.node_total(),
                    total <= u32::MAX,
                    edge == edges_of(*outgoing),
                    neighbors@ == incoming.spec_neighbors(),
                    forall|u: int, v: int| #[trigger]
                        edge(u, v) ==> 0 <= u < total && 0 <= v < total,
                    finish_order(edge, total, finish@),
                    whole_components(edge, total, before, id as int),
                    id < u32::MAX,
                    root < finish.len(),
                    r == finish@[root as int],
                    0 <= r < total,
                    before[r] == u32::MAX,
                    forall|j: int|
                        root < j < finish.len() ==> before[#[trigger] finish@[j] as int]
                            != u32::MAX,
                    component.len() == total,
                    node < total,
                    mutual(edge, r, node as int),
                    incoming.spec_row(node as int) is Some,
                    first == incoming.spec_offsets()[node as int],
                    end == incoming.spec_offsets()[node + 1],
                    first <= end <= neighbors.len(),
                    incoming.spec_row(node as int)->Some_0.len() == end - first,
                    gathering_but(edge, before, component@, stack@, r, id, node as int),
                    marked(unlabelled(component@)) < measure || marked(unlabelled(component@))
                        == measure && stack@.len() == waiting,
                    forall|k: int|
                        first <= k < place ==> component@[#[trigger] neighbors@[k] as int]
                            != u32::MAX,
            {
                let neighbor: u32 = neighbors[place];
                if component[neighbor as usize] == u32::MAX {
                    proof {
                        assert(incoming.spec_row(node as int)->Some_0[place - first].0 == neighbor);
                        assert(incoming.leads(node as int, neighbor as int));
                        assert(edge(neighbor as int, node as int));
                        lemma_one_edge(edge, neighbor as int, node as int);
                        lemma_reaches_trans(edge, neighbor as int, node as int, r);
                        assert(before[neighbor as int] == u32::MAX);
                        assert(among(finish@, finish@.len() as int, neighbor as int));
                        let p = choose|p: int|
                            0 <= p < finish@.len() && #[trigger] finish@[p] == neighbor as int;
                        assert(p <= root) by {
                            if p > root {
                                assert(before[finish@[p] as int] != u32::MAX);
                            }
                        }
                        lemma_finish_mutual(edge, total, finish@, before, id as int, root as int, p);
                        lemma_marked_drop(unlabelled(component@), neighbor as int);
                    }
                    let ghost component1 = component@;
                    let ghost stack1 = stack@;
                    component.set(neighbor as usize, id);
                    stack.push(neighbor);
                    proof {
                        assert(unlabelled(component@) =~= unlabelled(component1).update(
                            neighbor as int,
                            false,
                        ));
                        lemma_gather_step(
                            edge,
                            before,
                            component1,
                            stack1,
                            r,
                            id,
                            node as int,
                            neighbor,
                        );
                    }
                }
            }
            proof {
                assert forall|u: int| #[trigger] edge(u, node as int) implies component@[u]
                    != u32::MAX by {
                    assert(outgoing.leads(u, node as int));
                    assert(incoming.leads(node as int, u));
                    let row = incoming.spec_row(node as int)->Some_0;
                    let i = choose|i: int| 0 <= i < row.len() && (#[trigger] row[i]).0 == u;
                    assert(neighbors@[first + i] == u);
                }
            }
        } else {
            proof {
                assert forall|u: int| #[trigger] edge(u, node as int) implies component@[u]
                    != u32::MAX by {
                    assert(outgoing.leads(u, node as int));
                    assert(incoming.leads(node as int, u));
                }
            }
        }
        proof {
            lemma_marked_bounds(unlabelled(component@));
        }
    }
    proof {
        assert(stack@ =~= Seq::empty());
        lemma_gathered(edge, total, before, component@, r, id);
    }
    Ok(())
}

/// Nodes without a label.
spec fn unlabelled(component: Seq<u32>) -> Seq<bool> {
    Seq::new(component.len(), |v: int| component[v] == u32::MAX)
}

proof fn lemma_marked_drop(marks: Seq<bool>, index: int)
    requires
        0 <= index < marks.len(),
        marks[index],
    ensures
        marked(marks.update(index, false)) == marked(marks) - 1,
{
    let after = marks.update(index, false);
    lemma_marked_step(after, index);
    assert(after.update(index, true) =~= marks);
}

/// As [`gathering`], but for the in-edges of one node that is being expanded.
spec fn gathering_but(
    edge: Relation,
    before: Seq<u32>,
    component: Seq<u32>,
    stack: Seq<u32>,
    root: int,
    id: u32,
    node: int,
) -> bool {
    &&& component.len() == before.len()
    &&& forall|i: int|
        0 <= i < stack.len() ==> (#[trigger] stack[i]) < component.len()
            && component[stack[i] as int] == id
    &&& forall|v: int|
        0 <= v < before.len() ==> (#[trigger] component[v] == before[v] || before[v] == u32::MAX
            && component[v] == id && mutual(edge, root, v))
    &&& component[root] == id
    &&& forall|u: int, v: int|
        0 <= v < component.len() && v != node && component[v] == id && #[trigger] edge(u, v)
            ==> component[u] != u32::MAX || stack.contains(v as u32)
}

proof fn lemma_popped(
    edge: Relation,
    before: Seq<u32>,
    component: Seq<u32>,
    full: Seq<u32>,
    stack: Seq<u32>,
    root: int,
    id: u32,
    node: u32,
)
    requires
        before.len() <= u32::MAX,
        gathering(edge, before, component, full, root, id),
        full.len() > 0,
        stack == full.drop_last(),
        full.last() == node,
        forall|v: int| 0 <= v < before.len() ==> #[trigger] before[v] != id,
    ensures
        gathering_but(edge, before, component, stack, root, id, node as int),
        mutual(edge, root, node as int),
{
    assert(component[full[full.len() - 1] as int] == id);
    assert(before[node as int] != id);
    assert forall|i: int| 0 <= i < stack.len() implies (#[trigger] stack[i]) < component.len()
        && component[stack[i] as int] == id by {
        assert(stack[i] == full[i]);
    }
    assert forall|u: int, v: int|
        0 <= v < component.len() && v != node && component[v] == id && #[trigger] edge(u,
            v) implies component[u]
        != u32::MAX || stack.contains(v as u32) by {
        if component[u] == u32::MAX {
            assert(full.contains(v as u32));
            let i = choose|i: int| 0 <= i < full.len() && full[i] == v as u32;
            assert(stack[i] == v as u32);
        }
    }
}

proof fn lemma_gather_step(
    edge: Relation,
    before: Seq<u32>,
    component: Seq<u32>,
    stack: Seq<u32>,
    root: int,
    id: u32,
    node: int,
    neighbor: u32,
)
    requires
        before.len() <= u32::MAX,
        forall|u: int, v: int| #[trigger] edge(u, v) ==> 0 <= u < before.len(),
        id < u32::MAX,
        gathering_but(edge, before, component, stack, root, id, node),
        0 <= root < before.len(),
        neighbor < before.len(),
        component[neighbor as int] == u32::MAX,
        before[neighbor as int] == u32::MAX,
        mutual(edge, root, neighbor as int),
    ensures
        gathering_but(
            edge,
            before,
            component.update(neighbor as int, id),
            stack.push(neighbor),
            root,
            id,
            node,
        ),
{
    let component2 = component.update(neighbor as int, id);
    let stack2 = stack.push(neighbor);
    assert(stack2[stack.len() as int] == neighbor);
    assert forall|i: int| 0 <= i < stack2.len() implies (#[trigger] stack2[i]) < component2.len()
        && component2[stack2[i] as int] == id by {
        if i < stack.len() {
            assert(stack2[i] == stack[i]);
        }
    }
    assert forall|u: int, v: int|
        0 <= v < component2.len() && v != node && component2[v] == id && #[trigger] edge(u,
            v) implies component2[u]
        != u32::MAX || stack2.contains(v as u32) by {
        if v == neighbor {
            assert(stack2[stack.len() as int] == v as u32);
        } else if component[u] == u32::MAX {
            assert(stack.contains(v as u32));
            let i = choose|i: int| 0 <= i < stack.len() && stack[i] == v as u32;
            assert(stack2[i] == v as u32);
        }
    }
}

/// What renaming has done for the first nodes: identifiers by first occurrence.
spec fn renamed(
    component: Seq<u32>,
    names: Seq<u32>,
    result: Seq<u32>,
    next: int,
) -> bool {
    &&& result.len() <= component.len()
    &&& next <= result.len()
    &&& forall|v: int|
        0 <= v < result.len() ==> #[trigger] result[v] == names[component[v] as int] && result[v]
            < next
    &&& forall|old: int|
        0 <= old < names.len() && #[trigger] names[old] != u32::MAX ==> names[old] < next
    &&& forall|a: int, b: int|
        0 <= a < names.len() && 0 <= b < names.len() && #[trigger] names[a] == #[trigger] names[b]
            && names[a] != u32::MAX ==> a == b
    &&& forall|id: int|
        0 <= id < next ==> #[trigger] occurs_before(result, result.len() as int, id)
    &&& forall|v: int, id: int|
        0 <= v < result.len() && 0 <= id < result[v] ==> #[trigger] occurs_before(result, v, id)
}

/// Renames components by their smallest node.
fn canonicalize(component: &Vec<u32>, count: u32) -> (components: Components)
    requires
        component.len() <= u32::MAX,
        forall|v: int| 0 <= v < component.len() ==> #[trigger] component@[v] < count,
    ensures
        components.component@.len() == component@.len(),
        canonical(components.component@, components.count as int),
        forall|u: int, v: int|
            #![trigger components.component@[u], components.component@[v]]
            0 <= u < component.len() && 0 <= v < component.len() ==> (components.component@[u]
                == components.component@[v] <==> component@[u] == component@[v]),
{
    let mut names: Vec<u32> = vec![u32::MAX; count as usize];
    let mut result: Vec<u32> = Vec::with_capacity(component.len());
    let mut next: u32 = 0;
    for index in 0..component.len()
        invariant
            component.len() <= u32::MAX,
            names.len() == count,
            forall|v: int| 0 <= v < component.len() ==> #[trigger] component@[v] < count,
            result.len() == index,
            renamed(component@, names@, result@, next as int),
    {
        let old: usize = component[index] as usize;
        let ghost result0 = result@;
        let ghost names0 = names@;
        let ghost next0 = next;
        if names[old] == u32::MAX {
            names.set(old, next);
            next = next + 1;
        }
        result.push(names[old]);
        proof {
            assert forall|v: int| 0 <= v < result.len() implies #[trigger] result@[v]
                == names@[component@[v] as int] && result@[v] < next by {
                if v < index {
                    assert(result@[v] == result0[v]);
                    assert(names0[component@[v] as int] != u32::MAX);
                }
            }
            assert forall|id: int| 0 <= id < next implies #[trigger] occurs_before(
                result@,
                result@.len() as int,
                id,
            ) by {
                if id < next0 {
                    assert(occurs_before(result0, index as int, id));
                    let u = choose|u: int| 0 <= u < index && #[trigger] result0[u] == id;
                    assert(result@[u] == id);
                } else {
                    assert(result@[index as int] == id);
                }
            }
            assert forall|v: int, id: int| 0 <= v < result.len()
                && 0 <= id < result@[v] implies #[trigger] occurs_before(
                result@,
                v,
                id,
            ) by {
                if v < index {
                    assert(occurs_before(result0, v, id));
                    let u = choose|u: int| 0 <= u < v && #[trigger] result0[u] == id;
                    assert(result@[u] == id);
                } else {
                    assert(id < next0);
                    assert(occurs_before(result0, index as int, id));
                    let u = choose|u: int| 0 <= u < index && #[trigger] result0[u] == id;
                    assert(result@[u] == id);
                }
            }
        }
    }
    proof {
        assert forall|u: int, v: int|
            #![trigger result@[u], result@[v]]
            0 <= u < component.len() && 0 <= v < component.len() implies (result@[u] == result@[v]
            <==> component@[u] == component@[v]) by {
            let a = component@[u] as int;
            let b = component@[v] as int;
            assert(result@[u] == names@[a] && result@[v] == names@[b]);
        }
    }
    Components { component: result, count: next }
}

/// Strong components via iterative two-pass traversal.
pub fn strongly_connected_components(outgoing: &Csr, incoming: &Csr) -> (result: Result<
    Components,
>)
    requires
        outgoing.targets_are_rows(),
        incoming.targets_are_rows(),
        mirrored(*outgoing, *incoming),
        outgoing.node_total() <= u32::MAX,
    ensures
        if outgoing.spec_offsets().len() == incoming.spec_offsets().len() {
            &&& result is Ok
            &&& result->Ok_0.component@.len() == outgoing.node_total()
            &&& canonical(result->Ok_0.component@, result->Ok_0.count as int)
            &&& strong_components(edges_of(*outgoing), result->Ok_0.component@)
        } else {
            fails_with(result, ErrorCode::InvalidData, "CSR and CSC node counts differ"@)
        },
{
    strongly_connected_components_cancellable(outgoing, incoming, never_cancelled)
}

/// Strong components via iterative two-pass traversal with cancellation checks. Component
/// identifiers follow the smallest node of each component, so they do not depend on the order in
/// which the traversal finishes nodes.
pub fn strongly_connected_components_cancellable<F: FnMut() -> Result<()>>(
    outgoing: &Csr,
    incoming: &Csr,
    check: F,
) -> (result: Result<Components>)
    requires
        outgoing.targets_are_rows(),
        incoming.targets_are_rows(),
        mirrored(*outgoing, *incoming),
        outgoing.node_total() <= u32::MAX,
        call_requires(check, ()),
    ensures
        if outgoing.spec_offsets().len() == incoming.spec_offsets().len() {
            match result {
                Ok(components) => {
                    &&& components.component@.len() == outgoing.node_total()
                    &&& canonical(components.component@, components.count as int)
                    &&& strong_components(edges_of(*outgoing), components.component@)
                    &&& outgoing.node_total() > 0 ==> goes_on(check)
                },
                Err(error) => outgoing.node_total() > 0 && call_ensures(
                    check,
                    (),
                    Err::<(), Error>(error),
                ),
            }
        } else {
            fails_with(result, ErrorCode::InvalidData, "CSR and CSC node counts differ"@)
        },
{
    match validate_pair(outgoing, incoming) {
        Ok(_) => {},
        Err(error) => {
            return Err(error);
        },
    }
    let mut poll = check;
    let finish = match finish_pass(outgoing, &mut poll) {
        Ok(finish) => finish,
        Err(error) => {
            return Err(error);
        },
    };
    let node_count: usize = node_count_of(outgoing);
    let ghost edge = edges_of(*outgoing);
    let mut component: Vec<u32> = vec![u32::MAX; node_count];
    let mut count: u32 = 0;
    let mut place: usize = finish.len();
    proof {
        lemma_distinct_bounded(finish@, node_count as int);
    }
    while place > 0
        invariant
            outgoing.targets_are_rows(),
            incoming.targets_are_rows(),
            mirrored(*outgoing, *incoming),
            node_count == outgoing.node_total(),
            incoming.node_total() == outgoing.node_total(),
            node_count <= u32::MAX,
            edge == edges_of(*outgoing),
            poll == check,
            call_requires(poll, ()),
            finish_order(edge, node_count as int, finish@),
            place <= finish.len(),
            finish.len() <= node_count,
            node_count > 0 ==> goes_on(check),
            count <= finish.len() - place,
            whole_components(edge, node_count as int, component@, count as int),
            forall|j: int|
                place <= j < finish.len() ==> component@[#[trigger] finish@[j] as int] != u32::MAX,
        decreases place,
    {
        place = place - 1;
        if component[finish[place] as usize] == u32::MAX {
            let ghost before = component@;
            match gather(outgoing, incoming, &finish, place, count, &mut component, &mut poll) {
                Ok(_) => {},
                Err(error) => {
                    return Err(error);
                },
            }
            count = count + 1;
            assert forall|j: int| place <= j < finish.len() implies component@[#[trigger] finish@[j] as int]
                != u32::MAX by {
                if j > place {
                    assert(before[finish@[j] as int] != u32::MAX);
                }
            }
        }
    }
    proof {
        assert forall|v: int| 0 <= v < component.len() implies #[trigger] component@[v] < count by {
            assert(among(finish@, finish@.len() as int, v));
            let j = choose|j: int| 0 <= j < finish@.len() && #[trigger] finish@[j] == v;
            assert(component@[finish@[j] as int] != u32::MAX);
        }
    }
    let components = canonicalize(&component, count);
    proof {
        assert forall|u: int, v: int|
            #![trigger components.component@[u], components.component@[v]]
            0 <= u < node_count && 0 <= v < node_count implies (components.component@[u]
            == components.component@[v] <==> mutual(edge, u, v)) by {
            assert(component@[u] < count && component@[v] < count);
        }
    }
    Ok(components)
}

/// There are at most `bound` distinct numbers below `bound`.
proof fn lemma_distinct_bounded(nodes: Seq<u32>, bound: int)
    requires
        nodes.no_duplicates(),
        bound >= 0,
        forall|i: int| 0 <= i < nodes.len() ==> (#[trigger] nodes[i]) < bound,
    ensures
        nodes.len() <= bound,
{
    let wide = nodes.map(|i: int, node: u32| node as int);
    assert(wide.no_duplicates());
    wide.unique_seq_to_set();
    let range = vstd::set_lib::set_int_range(0, bound);
    vstd::set_lib::lemma_int_range(0, bound);
    assert(wide.to_set().subset_of(range));
    vstd::set_lib::lemma_len_subset(wide.to_set(), range);
}

/// Two nodes are in one strong component exactly where edges lead from each to the other, along some
/// path.
pub proof fn law_strong_components_lie_on_cycles(
    csr: Csr,
    component: Seq<u32>,
    there: Seq<int>,
    back: Seq<int>,
    left: int,
    right: int,
)
    requires
        strong_components(edges_of(csr), component),
        0 <= left < component.len(),
        0 <= right < component.len(),
    ensures
        there.len() > 0 && back.len() > 0 && there[0] == left && there.last() == right && back[0]
            == right && back.last() == left && (forall|i: int|
            0 <= i < there.len() - 1 ==> csr.leads(#[trigger] there[i], there[i + 1])) && (forall|
            i: int,
        |
            0 <= i < back.len() - 1 ==> csr.leads(#[trigger] back[i], back[i + 1]))
            ==> component[left] == component[right],
        component[left] == component[right] ==> (exists|path: Seq<int>| #[trigger]
            leads_along(csr, path, left, right)) && (exists|path: Seq<int>| #[trigger]
            leads_along(csr, path, right, left)),
{
    let edge = edges_of(csr);
    if there.len() > 0 && back.len() > 0 && there[0] == left && there.last() == right && back[0]
        == right && back.last() == left && (forall|i: int|
        0 <= i < there.len() - 1 ==> csr.leads(#[trigger] there[i], there[i + 1])) && (forall|
        i: int,
    |
        0 <= i < back.len() - 1 ==> csr.leads(#[trigger] back[i], back[i + 1])) {
        assert forall|i: int| 0 <= i < there.len() - 1 implies #[trigger] edge(
            there[i],
            there[i + 1],
        ) by {
            assert(csr.leads(there[i], there[i + 1]));
        }
        assert forall|i: int| 0 <= i < back.len() - 1 implies #[trigger] edge(
            back[i],
            back[i + 1],
        ) by {
            assert(csr.leads(back[i], back[i + 1]));
        }
        crate::reach::law_paths_reach(edge, there);
        crate::reach::law_paths_reach(edge, back);
    }
    if component[left] == component[right] {
        let path = crate::reach::law_reached_along_a_path(edge, left, right);
        assert forall|i: int| 0 <= i < path.len() - 1 implies csr.leads(
            #[trigger] path[i],
            path[i + 1],
        ) by {
            assert(edge(path[i], path[i + 1]));
        }
        assert(leads_along(csr, path, left, right));
        let other = crate::reach::law_reached_along_a_path(edge, right, left);
        assert forall|i: int| 0 <= i < other.len() - 1 implies csr.leads(
            #[trigger] other[i],
            other[i + 1],
        ) by {
            assert(edge(other[i], other[i + 1]));
        }
        assert(leads_along(csr, other, right, left));
    }
}

/// Edges lead from one node to another along a path.
pub open spec fn leads_along(csr: Csr, path: Seq<int>, from: int, to: int) -> bool {
    &&& path.len() > 0
    &&& path[0] == from
    &&& path.last() == to
    &&& forall|i: int| 0 <= i < path.len() - 1 ==> csr.leads(#[trigger] path[i], path[i + 1])
}

} // verus!
