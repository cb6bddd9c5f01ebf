//! Single-source least distances over an adjacency. Distances are ordered like unsigned numbers, as the
//! bits of non-negative IEEE 754 doubles are; the caller says what a distance becomes over an edge.

use crate::cancel::{ask, goes_on};
use crate::csr::Csr;
use crate::error::{fails_with, Error, ErrorCode, Result};
use crate::queue::MinQueue;
use vstd::prelude::*;

verus! {

/// Distances and predecessor tree from a source.
#[derive(Debug, PartialEq, Eq)]
pub struct DistanceTree {
    pub distance: Vec<Option<u64>>,
    pub predecessor: Vec<Option<u32>>,
}

/// Nodes wait by distance and then by number.
pub open spec fn wait_key(distance: u64, node: int) -> u128 {
    (distance * 0x1_0000_0000 + node) as u128
}

/// The node is at most as far as this, and by no greater predecessor where it is as far.
pub open spec fn at_most(
    distance: Option<u64>,
    predecessor: Option<u32>,
    bound: u64,
    node: int,
) -> bool {
    distance matches Some(held) && (held < bound || (held == bound && (predecessor matches Some(
        parent,
    ) && parent <= node)))
}

/// Following the edge from where the node is leads no nearer.
pub open spec fn edge_relaxed<W: FnMut(u64, u32) -> Result<u64>>(
    extend: W,
    source: int,
    distance: Seq<Option<u64>>,
    predecessor: Seq<Option<u32>>,
    node: int,
    edge: (u32, u32),
) -> bool {
    edge.0 == source || exists|bound: u64| #[trigger]
        call_ensures(
            extend,
            (distance[node]->Some_0, edge.1),
            Ok::<u64, Error>(bound),
        ) && at_most(distance[edge.0 as int], predecessor[edge.0 as int], bound, node)
}

/// The edges of a row.
pub open spec fn row_edges(adjacency: Csr, node: int) -> Seq<(u32, u32)> {
    match adjacency.spec_row(node) {
        Some(edges) => edges,
        None => Seq::empty(),
    }
}

/// No edge of the node leads nearer.
pub open spec fn settled<W: FnMut(u64, u32) -> Result<u64>>(
    extend: W,
    adjacency: Csr,
    source: int,
    distance: Seq<Option<u64>>,
    predecessor: Seq<Option<u32>>,
    node: int,
) -> bool {
    forall|i: int|
        0 <= i < row_edges(adjacency, node).len() ==> edge_relaxed(
            extend,
            source,
            distance,
            predecessor,
            node,
            #[trigger] row_edges(adjacency, node)[i],
        )
}

/// An edge of a node leads to another, and from a distance to this one.
pub open spec fn leads_over<W: FnMut(u64, u32) -> Result<u64>>(
    extend: W,
    adjacency: Csr,
    node: int,
    place: int,
    target: int,
    from: u64,
    held: u64,
) -> bool {
    &&& 0 <= place < row_edges(adjacency, node).len()
    &&& row_edges(adjacency, node)[place].0 == target
    &&& call_ensures(
        extend,
        (from, row_edges(adjacency, node)[place].1),
        Ok::<u64, Error>(held),
    )
}

/// The node was reached over an edge of its predecessor, from no nearer than that now is.
pub open spec fn came<W: FnMut(u64, u32) -> Result<u64>>(
    extend: W,
    adjacency: Csr,
    distance: Seq<Option<u64>>,
    predecessor: Seq<Option<u32>>,
    node: int,
) -> bool {
    match (distance[node], predecessor[node]) {
        (Some(held), Some(parent)) => {
            &&& parent < distance.len()
            &&& distance[parent as int] is Some
            &&& exists|from: u64, i: int|
                distance[parent as int]->Some_0 <= from && #[trigger] leads_over(
                    extend,
                    adjacency,
                    parent as int,
                    i,
                    node,
                    from,
                    held,
                )
        },
        _ => false,
    }
}

/// What holds of the tree at every time: the source is the root, and every other node that was reached
/// came over an edge.
pub open spec fn is_tree<W: FnMut(u64, u32) -> Result<u64>>(
    extend: W,
    adjacency: Csr,
    source: int,
    distance: Seq<Option<u64>>,
    predecessor: Seq<Option<u32>>,
) -> bool {
    &&& distance.len() == adjacency.node_total()
    &&& predecessor.len() == adjacency.node_total()
    &&& 0 <= source < distance.len()
    &&& distance[source] == Some(0u64)
    &&& predecessor[source] is None
    &&& forall|node: int|
        0 <= node < distance.len() && node != source ==> ((#[trigger] distance[node]) is Some
            == predecessor[node] is Some)
    &&& forall|node: int|
        0 <= node < distance.len() && node != source && (#[trigger] distance[node]) is Some ==> came(
            extend,
            adjacency,
            distance,
            predecessor,
            node,
        )
}

/// A finished tree: from no node that was reached does an edge lead nearer.
pub open spec fn is_least_tree<W: FnMut(u64, u32) -> Result<u64>>(
    extend: W,
    adjacency: Csr,
    source: int,
    distance: Seq<Option<u64>>,
    predecessor: Seq<Option<u32>>,
) -> bool {
    &&& is_tree(extend, adjacency, source, distance, predecessor)
    &&& forall|node: int|
        0 <= node < distance.len() && (#[trigger] distance[node]) is Some ==> settled(
            extend,
            adjacency,
            source,
            distance,
            predecessor,
            node,
        )
}

/// What a node may still lose: less after every improvement.
spec fn slack(distance: Option<u64>, predecessor: Option<u32>) -> nat {
    match distance {
        None => 0x1_0000_0000_0000_0000_0000_0000_0000nat,
        Some(held) => (held * 0x2_0000_0000 + match predecessor {
            None => 0x1_0000_0000int,
            Some(parent) => parent as int,
        }) as nat,
    }
}

spec fn total_slack(
    distance: Seq<Option<u64>>,
    predecessor: Seq<Option<u32>>,
    count: int,
) -> nat
    decreases count,
{
    if count <= 0 {
        0
    } else {
        total_slack(distance, predecessor, count - 1) + slack(
            distance[count - 1],
            predecessor[count - 1],
        )
    }
}

proof fn lemma_slack_falls(
    distance: Seq<Option<u64>>,
    predecessor: Seq<Option<u32>>,
    node: int,
    held: Option<u64>,
    parent: Option<u32>,
    count: int,
)
    requires
        0 <= node < distance.len(),
        distance.len() == predecessor.len(),
        0 <= count <= distance.len(),
        slack(held, parent) < slack(distance[node], predecessor[node]),
    ensures
        node < count ==> total_slack(
            distance.update(node, held),
            predecessor.update(node, parent),
            count,
        ) < total_slack(distance, predecessor, count),
        node >= count ==> total_slack(
            distance.update(node, held),
            predecessor.update(node, parent),
            count,
        ) == total_slack(distance, predecessor, count),
    decreases count,
{
    if count > 0 {
        lemma_slack_falls(distance, predecessor, node, held, parent, count - 1);
    }
}

/// A node that is nearer than before, or as near by a smaller predecessor.
spec fn improves(
    distance: Option<u64>,
    predecessor: Option<u32>,
    held: u64,
    node: u32,
) -> bool {
    match distance {
        None => true,
        Some(current) => held < current || (held == current && match predecessor {
            None => true,
            Some(old) => node < old,
        }),
    }
}

/// Improving one node keeps what was settled.
proof fn lemma_still_settled<W: FnMut(u64, u32) -> Result<u64>>(
    extend: W,
    adjacency: Csr,
    source: int,
    distance: Seq<Option<u64>>,
    predecessor: Seq<Option<u32>>,
    target: int,
    held: u64,
    parent: u32,
    node: int,
)
    requires
        distance.len() == predecessor.len(),
        0 <= target < distance.len(),
        0 <= node < distance.len(),
        node != target,
        target != source,
        adjacency.targets_are_rows(),
        distance.len() == adjacency.node_total(),
        improves(distance[target], predecessor[target], held, parent),
        distance[target] is Some ==> predecessor[target] is Some,
        settled(extend, adjacency, source, distance, predecessor, node),
    ensures
        settled(
            extend,
            adjacency,
            source,
            distance.update(target, Some(held)),
            predecessor.update(target, Some(parent)),
            node,
        ),
{
    let far = distance.update(target, Some(held));
    let tree = predecessor.update(target, Some(parent));
    assert forall|i: int| 0 <= i < row_edges(adjacency, node).len() implies edge_relaxed(
        extend,
        source,
        far,
        tree,
        node,
        #[trigger] row_edges(adjacency, node)[i],
    ) by {
        let edge = row_edges(adjacency, node)[i];
        lemma_row_target(adjacency, node, i);
        lemma_edge_kept(extend, source, distance, predecessor, target, held, parent, node, edge);
    }
}

proof fn lemma_edge_kept<W: FnMut(u64, u32) -> Result<u64>>(
    extend: W,
    source: int,
    distance: Seq<Option<u64>>,
    predecessor: Seq<Option<u32>>,
    target: int,
    held: u64,
    parent: u32,
    node: int,
    edge: (u32, u32),
)
    requires
        distance.len() == predecessor.len(),
        0 <= target < distance.len(),
        0 <= node < distance.len(),
        node != target,
        edge.0 < distance.len(),
        improves(distance[target], predecessor[target], held, parent),
        distance[target] is Some ==> predecessor[target] is Some,
        edge_relaxed(extend, source, distance, predecessor, node, edge),
    ensures
        edge_relaxed(
            extend,
            source,
            distance.update(target, Some(held)),
            predecessor.update(target, Some(parent)),
            node,
            edge,
        ),
{
    if edge.0 != source {
        let bound = choose|bound: u64| #[trigger]
            call_ensures(
                extend,
                (distance[node]->Some_0, edge.1),
                Ok::<u64, Error>(bound),
            ) && at_most(distance[edge.0 as int], predecessor[edge.0 as int], bound, node);
        let far = distance.update(target, Some(held));
        let tree = predecessor.update(target, Some(parent));
        assert(at_most(far[edge.0 as int], tree[edge.0 as int], bound, node));
        assert(call_ensures(
            extend,
            (far[node]->Some_0, edge.1),
            Ok::<u64, Error>(bound),
        ));
    }
}

proof fn lemma_came<W: FnMut(u64, u32) -> Result<u64>>(
    extend: W,
    adjacency: Csr,
    distance: Seq<Option<u64>>,
    predecessor: Seq<Option<u32>>,
    node: int,
    from: u64,
    place: int,
)
    requires
        distance[node] is Some,
        predecessor[node] is Some,
        predecessor[node]->Some_0 < distance.len(),
        distance[predecessor[node]->Some_0 as int] is Some,
        distance[predecessor[node]->Some_0 as int]->Some_0 <= from,
        leads_over(
            extend,
            adjacency,
            predecessor[node]->Some_0 as int,
            place,
            node,
            from,
            distance[node]->Some_0,
        ),
    ensures
        came(extend, adjacency, distance, predecessor, node),
{
}

/// Improving one node over an edge keeps the tree.
proof fn lemma_still_tree<W: FnMut(u64, u32) -> Result<u64>>(
    extend: W,
    adjacency: Csr,
    source: int,
    distance: Seq<Option<u64>>,
    predecessor: Seq<Option<u32>>,
    target: int,
    held: u64,
    parent: u32,
    from: u64,
    place: int,
)
    requires
        is_tree(extend, adjacency, source, distance, predecessor),
        0 <= target < distance.len(),
        target != source,
        parent < distance.len(),
        distance[parent as int] matches Some(before) && before <= from,
        parent == target ==> held <= from,
        0 <= place < row_edges(adjacency, parent as int).len(),
        row_edges(adjacency, parent as int)[place].0 == target,
        call_ensures(
            extend,
            (from, row_edges(adjacency, parent as int)[place].1),
            Ok::<u64, Error>(held),
        ),
        improves(distance[target], predecessor[target], held, parent),
    ensures
        is_tree(
            extend,
            adjacency,
            source,
            distance.update(target, Some(held)),
            predecessor.update(target, Some(parent)),
        ),
{
    let far = distance.update(target, Some(held));
    let tree = predecessor.update(target, Some(parent));
    assert forall|node: int|
        0 <= node < far.len() && node != source && (#[trigger] far[node]) is Some implies came(
        extend,
        adjacency,
        far,
        tree,
        node,
    ) by {
        if node == target {
            assert(far[node] == Some(held) && tree[node] == Some(parent));
            assert(far[parent as int] is Some && far[parent as int]->Some_0 <= from);
            assert(leads_over(extend, adjacency, parent as int, place, node, from, held));
            lemma_came(extend, adjacency, far, tree, node, from, place);
        } else {
            assert(distance[node] is Some);
            assert(came(extend, adjacency, distance, predecessor, node));
            let old = predecessor[node]->Some_0;
            let reached = distance[node]->Some_0;
            let (start, i) = choose|start: u64, i: int|
                distance[old as int]->Some_0 <= start && #[trigger] leads_over(
                    extend,
                    adjacency,
                    old as int,
                    i,
                    node,
                    start,
                    reached,
                );
            assert(far[node] == Some(reached) && tree[node] == Some(old));
            assert(far[old as int] is Some && far[old as int]->Some_0 <= start);
            assert(leads_over(extend, adjacency, old as int, i, node, start, reached));
            lemma_came(extend, adjacency, far, tree, node, start, i);
        }
    }
}

/// Keys lead back to their distances and nodes.
proof fn lemma_wait_key(distance: u64, node: u32)
    ensures
        wait_key(distance, node as int) == distance * 0x1_0000_0000 + node,
        wait_key(distance, node as int) / 0x1_0000_0000 == distance,
        wait_key(distance, node as int) % 0x1_0000_0000 == node,
{
}

/// Every waiting entry is that of a node that is at least as near by now.
spec fn waits_ok(keys: vstd::multiset::Multiset<u128>, distance: Seq<Option<u64>>) -> bool {
    forall|key: u128| #[trigger]
        keys.count(key) > 0 ==> key < 0x1_0000_0000_0000_0000_0000_0000 && key % 0x1_0000_0000
            < distance.len() && (distance[key as int % 0x1_0000_0000] matches Some(held) && held
            <= key / 0x1_0000_0000)
}

/// Every node that was reached waits, or is settled.
spec fn covered<W: FnMut(u64, u32) -> Result<u64>>(
    extend: W,
    adjacency: Csr,
    source: int,
    distance: Seq<Option<u64>>,
    predecessor: Seq<Option<u32>>,
    keys: vstd::multiset::Multiset<u128>,
    node: int,
) -> bool {
    distance[node] matches Some(held) ==> keys.count(wait_key(held, node)) > 0 || settled(
        extend,
        adjacency,
        source,
        distance,
        predecessor,
        node,
    )
}

/// Least distances from a source, with cancellation checks. `extend` gives the distance over an edge
/// from where its node is, or says that the edge has no weight.
#[verifier::rlimit(80)]
#[verifier::spinoff_prover]
pub fn dijkstra_cancellable<W: FnMut(u64, u32) -> Result<u64>, F: FnMut() -> Result<()>>(
    adjacency: &Csr,
    source: u32,
    extend: W,
    check: F,
) -> (result: Result<DistanceTree>)
    requires
        adjacency.targets_are_rows(),
        forall|distance: u64, edge: u32| #[trigger] call_requires(extend, (distance, edge)),
        call_requires(check, ()),
    ensures
        if source >= adjacency.node_total() {
            fails_with(result, ErrorCode::QueryType, "Dijkstra source is out of bounds"@)
        } else {
            match result {
                Ok(tree) => is_least_tree(
                    extend,
                    *adjacency,
                    source as int,
                    tree.distance@,
                    tree.predecessor@,
                ) && goes_on(check),
                Err(error) => call_ensures(check, (), Err::<(), Error>(error)) || exists|
                    distance: u64,
                    edge: u32,
                | #[trigger]
                    call_ensures(extend, (distance, edge), Err::<u64, Error>(error)),
            }
        },
{
    let node_count: usize = crate::algorithms::traversal::node_count_of(adjacency);
    if source as usize >= node_count {
        return Err(Error::new(ErrorCode::QueryType, "Dijkstra source is out of bounds"));
    }
    let mut follow = extend;
    let mut poll = check;
    let mut distance: Vec<Option<u64>> = vec![None; node_count];
    let mut predecessor: Vec<Option<u32>> = vec![None; node_count];
    distance.set(source as usize, Some(0));
    let mut queue = MinQueue::new();
    queue.push(source as u128);
    let mut visited: usize = 0;
    proof {
        lemma_wait_key(0, source);
        assert(wait_key(0, source as int) == source as u128);
        assert forall|key: u128| #[trigger] queue@.count(key) > 0 implies key == source as u128 by {
            if key != source as u128 {
                assert(queue@.count(key) == vstd::multiset::Multiset::<u128>::empty().count(key));
            }
        }
        assert forall|node: int| 0 <= node < distance@.len() implies covered(
            extend,
            *adjacency,
            source as int,
            distance@,
            predecessor@,
            queue@,
            node,
        ) by {
            if node == source {
                assert(queue@.count(wait_key(0, node)) > 0);
            }
        }
    }
    loop
        invariant
            adjacency.targets_are_rows(),
            node_count == adjacency.node_total(),
            source < node_count,
            forall|distance: u64, edge: u32| #[trigger] call_requires(extend, (distance, edge)),
            call_requires(check, ()),
            follow == extend,
            poll == check,
            queue.wf(),
            is_tree(extend, *adjacency, source as int, distance@, predecessor@),
            waits_ok(queue@, distance@),
            queue@.count(wait_key(0, source as int)) > 0 || goes_on(check),
            forall|node: int|
                0 <= node < distance@.len() ==> #[trigger] covered(
                    extend,
                    *adjacency,
                    source as int,
                    distance@,
                    predecessor@,
                    queue@,
                    node,
                ),
        decreases total_slack(distance@, predecessor@, node_count as int), queue@.len(),
    {
        let ghost before_pop = queue@;
        let key: u128 = match queue.pop() {
            Some(key) => key,
            None => {
                proof {
                    assert forall|node: int|
                        0 <= node < distance@.len()
                            && (#[trigger] distance@[node]) is Some implies settled(
                        extend,
                        *adjacency,
                        source as int,
                        distance@,
                        predecessor@,
                        node,
                    ) by {
                        assert(covered(
                            extend,
                            *adjacency,
                            source as int,
                            distance@,
                            predecessor@,
                            before_pop,
                            node,
                        ));
                        assert(before_pop.count(wait_key(distance@[node]->Some_0, node)) == 0);
                    }
                }
                return Ok(DistanceTree { distance, predecessor });
            },
        };
        match ask(&mut poll) {
            Ok(_) => {},
            Err(error) => {
                return Err(error);
            },
        }
        assert(before_pop.count(key) > 0);
        let candidate: u64 = (key / 0x1_0000_0000) as u64;
        let node: u32 = (key % 0x1_0000_0000) as u32;
        let ghost start = total_slack(distance@, predecessor@, node_count as int);
        let ghost waiting = queue@.len();
        proof {
            lemma_wait_key(candidate, node);
            assert(wait_key(candidate, node as int) == key);
            assert forall|other: u128| #[trigger] queue@.count(other) > 0 implies before_pop.count(
                other,
            ) > 0 by {}
        }
        let nearer = match distance[node as usize] {
            Some(current) => candidate > current,
            None => false,
        };
        if nearer {
            proof {
                assert forall|other: int| 0 <= other < distance@.len() implies #[trigger] covered(
                    extend,
                    *adjacency,
                    source as int,
                    distance@,
                    predecessor@,
                    queue@,
                    other,
                ) by {
                    assert(covered(
                        extend,
                        *adjacency,
                        source as int,
                        distance@,
                        predecessor@,
                        before_pop,
                        other,
                    ));
                    if distance@[other] is Some {
                        let held = distance@[other]->Some_0;
                        lemma_wait_key(held, other as u32);
                        if wait_key(held, other) == key {
                            assert(other == node);
                            assert(held == candidate);
                        } else {
                            assert(queue@.count(wait_key(held, other)) == before_pop.count(
                                wait_key(held, other),
                            ));
                        }
                    }
                }
            }
        } else {
            assert(distance@[node as int] == Some(candidate));
            proof {
                assert forall|other: int| 0 <= other < distance@.len() && other
                    != node implies #[trigger] covered(
                    extend,
                    *adjacency,
                    source as int,
                    distance@,
                    predecessor@,
                    queue@,
                    other,
                ) by {
                    assert(covered(
                        extend,
                        *adjacency,
                        source as int,
                        distance@,
                        predecessor@,
                        before_pop,
                        other,
                    ));
                    if distance@[other] is Some {
                        let held = distance@[other]->Some_0;
                        lemma_wait_key(held, other as u32);
                        assert(wait_key(held, other) != key);
                        assert(queue@.count(wait_key(held, other)) == before_pop.count(
                            wait_key(held, other),
                        ));
                    }
                }
            }
            let edges: Vec<(u32, u32)> = match adjacency.row(node) {
                Some(edges) => edges,
                None => Vec::new(),
            };
            assert(edges@ =~= row_edges(*adjacency, node as int));
            for place in 0..edges.len()
                invariant
                    adjacency.targets_are_rows(),
                    node_count == adjacency.node_total(),
                    source < node_count,
                    node < node_count,
                    edges@ == row_edges(*adjacency, node as int),
                    forall|distance: u64, edge: u32| #[trigger]
                        call_requires(extend, (distance, edge)),
                    call_requires(check, ()),
                    follow == extend,
                    poll == check,
                    queue.wf(),
                    is_tree(extend, *adjacency, source as int, distance@, predecessor@),
                    waits_ok(queue@, distance@),
                    distance@[node as int] matches Some(held) && held <= candidate,
                    forall|other: int|
                        0 <= other < distance@.len() && other != node ==> #[trigger] covered(
                            extend,
                            *adjacency,
                            source as int,
                            distance@,
                            predecessor@,
                            queue@,
                            other,
                        ),
                    distance@[node as int] != Some(candidate) ==> queue@.count(
                        wait_key(distance@[node as int]->Some_0, node as int),
                    ) > 0,
                    distance@[node as int] == Some(candidate) ==> forall|i: int|
                        0 <= i < place ==> edge_relaxed(
                            extend,
                            source as int,
                            distance@,
                            predecessor@,
                            node as int,
                            #[trigger] edges@[i],
                        ) || queue@.count(wait_key(candidate, node as int)) > 0,
                    total_slack(distance@, predecessor@, node_count as int) < start || (total_slack(
                        distance@,
                        predecessor@,
                        node_count as int,
                    ) == start && queue@.len() == waiting),
            {
                visited = visited.wrapping_add(1);
                if visited % 4096 == 0 {
                    match ask(&mut poll) {
                        Ok(_) => {},
                        Err(error) => {
                            return Err(error);
                        },
                    }
                }
                let neighbor: u32 = edges[place].0;
                let edge: u32 = edges[place].1;
                proof {
                    lemma_row_target(*adjacency, node as int, place as int);
                }
                assert(call_requires(extend, (candidate, edge)));
                let next: u64 = match follow(candidate, edge) {
                    Ok(next) => next,
                    Err(error) => {
                        assert(call_ensures(
                            extend,
                            (candidate, edge),
                            Err::<u64, Error>(error),
                        ));
                        return Err(error);
                    },
                };
                assert(call_ensures(extend, (candidate, edge), Ok::<u64, Error>(next)));
                // The source is the root of the tree: no cycle may give it a parent.
                if neighbor != source {
                    let improve = match distance[neighbor as usize] {
                        None => true,
                        Some(current) => next < current || (next == current
                            && match predecessor[neighbor as usize] {
                            None => true,
                            Some(old) => node < old,
                        }),
                    };
                    let ghost far = distance@;
                    let ghost tree = predecessor@;
                    let ghost keys = queue@;
                    if improve {
                        distance.set(neighbor as usize, Some(next));
                        predecessor.set(neighbor as usize, Some(node));
                        queue.push(next as u128 * 0x1_0000_0000 + neighbor as u128);
                        proof {
                            lemma_wait_key(next, neighbor);
                            let fresh = wait_key(next, neighbor as int);
                            lemma_step(
                                extend,
                                *adjacency,
                                source as int,
                                far,
                                tree,
                                keys,
                                distance@,
                                predecessor@,
                                queue@,
                                neighbor,
                                next,
                                node,
                                candidate,
                                place as int,
                            );
                            assert(queue@.count(fresh) > 0);
                        }
                    }
                    proof {
                        if distance@[node as int] == Some(candidate) {
                            if neighbor == node {
                                assert(queue@.count(wait_key(candidate, node as int)) > 0
                                    || edge_relaxed(
                                    extend,
                                    source as int,
                                    distance@,
                                    predecessor@,
                                    node as int,
                                    edges@[place as int],
                                ));
                            } else {
                                assert(at_most(
                                    distance@[neighbor as int],
                                    predecessor@[neighbor as int],
                                    next,
                                    node as int,
                                ));
                                assert(edge_relaxed(
                                    extend,
                                    source as int,
                                    distance@,
                                    predecessor@,
                                    node as int,
                                    edges@[place as int],
                                ));
                            }
                            assert forall|i: int| 0 <= i < place + 1 implies edge_relaxed(
                                extend,
                                source as int,
                                distance@,
                                predecessor@,
                                node as int,
                                #[trigger] edges@[i],
                            ) || queue@.count(wait_key(candidate, node as int)) > 0 by {
                                if i < place && improve && neighbor != node && keys.count(
                                    wait_key(candidate, node as int),
                                ) == 0 {
                                    assert(edge_relaxed(
                                        extend,
                                        source as int,
                                        far,
                                        tree,
                                        node as int,
                                        edges@[i],
                                    ));
                                    lemma_row_target(*adjacency, node as int, i);
                                    lemma_edge_kept(
                                        extend,
                                        source as int,
                                        far,
                                        tree,
                                        neighbor as int,
                                        next,
                                        node,
                                        node as int,
                                        edges@[i],
                                    );
                                }
                            }
                        }
                    }
                }
            }
            proof {
                if distance@[node as int] == Some(candidate) && queue@.count(
                    wait_key(candidate, node as int),
                ) == 0 {
                    assert(settled(
                        extend,
                        *adjacency,
                        source as int,
                        distance@,
                        predecessor@,
                        node as int,
                    ));
                }
                assert(covered(
                    extend,
                    *adjacency,
                    source as int,
                    distance@,
                    predecessor@,
                    queue@,
                    node as int,
                ));
            }
        }
    }
}

proof fn lemma_row_target(adjacency: Csr, node: int, place: int)
    requires
        adjacency.targets_are_rows(),
        0 <= place < row_edges(adjacency, node).len(),
    ensures
        row_edges(adjacency, node)[place].0 < adjacency.node_total(),
{
    let at = adjacency.spec_offsets()[node] as int + place;
    assert(adjacency.spec_neighbors()[at] < adjacency.node_total());
}

/// One improvement keeps all that holds of the nodes other than the one that is expanded.
proof fn lemma_step<W: FnMut(u64, u32) -> Result<u64>>(
    extend: W,
    adjacency: Csr,
    source: int,
    far: Seq<Option<u64>>,
    tree: Seq<Option<u32>>,
    keys: vstd::multiset::Multiset<u128>,
    new_far: Seq<Option<u64>>,
    new_tree: Seq<Option<u32>>,
    new_keys: vstd::multiset::Multiset<u128>,
    target: u32,
    held: u64,
    node: u32,
    candidate: u64,
    place: int,
)
    requires
        adjacency.targets_are_rows(),
        is_tree(extend, adjacency, source, far, tree),
        waits_ok(keys, far),
        target < far.len(),
        target != source,
        node < far.len(),
        far[node as int] matches Some(before) && before <= candidate,
        0 <= place < row_edges(adjacency, node as int).len(),
        row_edges(adjacency, node as int)[place].0 == target,
        call_ensures(
            extend,
            (candidate, row_edges(adjacency, node as int)[place].1),
            Ok::<u64, Error>(held),
        ),
        improves(far[target as int], tree[target as int], held, node),
        new_far == far.update(target as int, Some(held)),
        new_tree == tree.update(target as int, Some(node)),
        new_keys == keys.insert(wait_key(held, target as int)),
        forall|other: int|
            0 <= other < far.len() && other != node ==> #[trigger] covered(
                extend,
                adjacency,
                source,
                far,
                tree,
                keys,
                other,
            ),
    ensures
        is_tree(extend, adjacency, source, new_far, new_tree),
        waits_ok(new_keys, new_far),
        forall|other: int|
            0 <= other < far.len() && other != node ==> #[trigger] covered(
                extend,
                adjacency,
                source,
                new_far,
                new_tree,
                new_keys,
                other,
            ),
        new_keys.count(wait_key(held, target as int)) > 0,
        total_slack(new_far, new_tree, far.len() as int) < total_slack(
            far,
            tree,
            far.len() as int,
        ),
        new_far[node as int] matches Some(now) && now <= candidate,
        forall|key: u128| keys.count(key) > 0 ==> #[trigger] new_keys.count(key) > 0,
{
    let fresh = wait_key(held, target as int);
    lemma_wait_key(held, target);
    lemma_still_tree(
        extend,
        adjacency,
        source,
        far,
        tree,
        target as int,
        held,
        node,
        candidate,
        place,
    );
    lemma_slack_falls(far, tree, target as int, Some(held), Some(node), far.len() as int);
    assert forall|key: u128| #[trigger] new_keys.count(key) > 0 implies key
        < 0x1_0000_0000_0000_0000_0000_0000 && key % 0x1_0000_0000 < new_far.len() && (
    new_far[key as int % 0x1_0000_0000] matches Some(now) && now <= key / 0x1_0000_0000) by {
        if key != fresh {
            assert(keys.count(key) > 0);
        }
    }
    assert forall|other: int| 0 <= other < far.len() && other != node implies #[trigger] covered(
        extend,
        adjacency,
        source,
        new_far,
        new_tree,
        new_keys,
        other,
    ) by {
        assert(covered(extend, adjacency, source, far, tree, keys, other));
        if other != target && far[other] is Some {
            if settled(extend, adjacency, source, far, tree, other) {
                lemma_still_settled(
                    extend,
                    adjacency,
                    source,
                    far,
                    tree,
                    target as int,
                    held,
                    node,
                    other,
                );
            }
        }
    }
}

/// Least distances from a source.
pub fn dijkstra<W: FnMut(u64, u32) -> Result<u64>>(adjacency: &Csr, source: u32, extend: W) -> (
    result: Result<DistanceTree>)
    requires
        adjacency.targets_are_rows(),
        forall|distance: u64, edge: u32| #[trigger] call_requires(extend, (distance, edge)),
    ensures
        if source >= adjacency.node_total() {
            fails_with(result, ErrorCode::QueryType, "Dijkstra source is out of bounds"@)
        } else {
            match result {
                Ok(tree) => is_least_tree(
                    extend,
                    *adjacency,
                    source as int,
                    tree.distance@,
                    tree.predecessor@,
                ),
                Err(error) => exists|distance: u64, edge: u32| #[trigger]
                    call_ensures(extend, (distance, edge), Err::<u64, Error>(error)),
            }
        },
{
    dijkstra_cancellable(
        adjacency,
        source,
        extend,
        crate::algorithms::traversal::never_cancelled,
    )
}

/// A walk from the source: each stop is a node and the distance at which the walk comes there, and
/// `places` says which edges are taken.
pub open spec fn is_walk<W: FnMut(u64, u32) -> Result<u64>>(
    extend: W,
    adjacency: Csr,
    source: int,
    stops: Seq<(int, u64)>,
    places: Seq<int>,
) -> bool {
    &&& stops.len() == places.len() + 1
    &&& stops[0] == (source, 0u64)
    &&& forall|k: int|
        0 <= k < places.len() ==> leads_over(
            extend,
            adjacency,
            stops[k].0,
            #[trigger] places[k],
            stops[k + 1].0,
            stops[k].1,
            stops[k + 1].1,
        )
}

/// Over one edge a smaller distance never becomes a greater one.
pub open spec fn monotone<W: FnMut(u64, u32) -> Result<u64>>(extend: W) -> bool {
    forall|near: u64, far: u64, edge: u32, low: u64, high: u64|
        near <= far && #[trigger] call_ensures(extend, (near, edge), Ok::<u64, Error>(low))
            && #[trigger] call_ensures(extend, (far, edge), Ok::<u64, Error>(high)) ==> low <= high
}

/// No walk is shorter than the distance, and whatever a walk leads to has one.
pub proof fn law_distances_are_least<W: FnMut(u64, u32) -> Result<u64>>(
    extend: W,
    adjacency: Csr,
    source: int,
    tree: DistanceTree,
    stops: Seq<(int, u64)>,
    places: Seq<int>,
    stop: int,
)
    requires
        adjacency.targets_are_rows(),
        is_least_tree(extend, adjacency, source, tree.distance@, tree.predecessor@),
        monotone(extend),
        is_walk(extend, adjacency, source, stops, places),
        0 <= stop < stops.len(),
    ensures
        0 <= stops[stop].0 < tree.distance@.len(),
        tree.distance@[stops[stop].0] matches Some(held) && held <= stops[stop].1,
    decreases stop,
{
    if stop > 0 {
        let from = stops[stop - 1].0;
        let before = stops[stop - 1].1;
        let node = stops[stop].0;
        let cost = stops[stop].1;
        let i = places[stop - 1];
        law_distances_are_least(extend, adjacency, source, tree, stops, places, stop - 1);
        assert(leads_over(extend, adjacency, from, i, node, before, cost));
        lemma_row_target(adjacency, from, i);
        let edge = row_edges(adjacency, from)[i];
        assert(tree.distance@[from] is Some);
        assert(settled(
            extend,
            adjacency,
            source,
            tree.distance@,
            tree.predecessor@,
            from,
        ));
        assert(edge_relaxed(
            extend,
            source,
            tree.distance@,
            tree.predecessor@,
            from,
            edge,
        ));
        if node != source {
            let near = tree.distance@[from]->Some_0;
            let bound = choose|bound: u64| #[trigger]
                call_ensures(extend, (near, edge.1), Ok::<u64, Error>(bound)) && at_most(
                    tree.distance@[node],
                    tree.predecessor@[node],
                    bound,
                    from,
                );
            assert(bound <= cost);
        }
    }
}

/// Of several ways of the same length the one over the smallest node is kept: where an edge leads to a
/// node at exactly its distance, the node was reached from the start of that edge or from a smaller
/// node.
pub proof fn law_ties_go_to_the_smallest_node<W: FnMut(u64, u32) -> Result<u64>>(
    extend: W,
    adjacency: Csr,
    source: int,
    tree: DistanceTree,
    node: int,
    place: int,
)
    requires
        is_least_tree(extend, adjacency, source, tree.distance@, tree.predecessor@),
        0 <= node < tree.distance@.len(),
        tree.distance@[node] is Some,
        0 <= place < row_edges(adjacency, node).len(),
        row_edges(adjacency, node)[place].0 != source,
        forall|bound: u64| #[trigger]
            call_ensures(
                extend,
                (tree.distance@[node]->Some_0, row_edges(adjacency, node)[place].1),
                Ok::<u64, Error>(bound),
            ) ==> tree.distance@[row_edges(adjacency, node)[place].0 as int] == Some(bound),
    ensures
        tree.predecessor@[row_edges(adjacency, node)[place].0 as int] matches Some(parent)
            && parent <= node,
{
    assert(settled(extend, adjacency, source, tree.distance@, tree.predecessor@, node));
    assert(edge_relaxed(
        extend,
        source,
        tree.distance@,
        tree.predecessor@,
        node,
        row_edges(adjacency, node)[place],
    ));
}

} // verus!
