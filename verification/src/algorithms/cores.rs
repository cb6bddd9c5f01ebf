//! Core numbers by degree peeling.

use crate::algorithms::metrics::{
    adjacent, ascending, is_neighbor_list, neighbor_lists, undirected_neighbors,
};
use crate::algorithms::strong::mirrored;
use crate::algorithms::traversal::never_cancelled;
use crate::cancel::{ask, goes_on};
use crate::csr::Csr;
use crate::error::{fails_with, Error, ErrorCode, Result};
use crate::queue::MinQueue;
use vstd::multiset::Multiset;
use vstd::prelude::*;

verus! {

/// Nodes of a list that are in a set.
pub open spec fn members(list: Seq<u32>, set: Set<int>) -> int
    decreases list.len(),
{
    if list.len() == 0 {
        0
    } else {
        members(list.drop_last(), set) + if set.contains(list.last() as int) {
            1int
        } else {
            0
        }
    }
}

/// Every node of the set has at least `degree` of its neighbors in the set.
pub open spec fn dense_set(lists: Seq<Vec<u32>>, set: Set<int>, degree: int) -> bool {
    forall|node: int| #[trigger]
        set.contains(node) ==> 0 <= node < lists.len() && members(lists[node]@, set) >= degree
}

/// A node belongs to some set of nodes that all have at least `degree` neighbors in it.
pub open spec fn in_core(lists: Seq<Vec<u32>>, node: int, degree: int) -> bool {
    exists|set: Set<int>| set.contains(node) && #[trigger] dense_set(lists, set, degree)
}

/// The largest degree for which a node is in such a set.
pub open spec fn core_numbers(lists: Seq<Vec<u32>>, core: Seq<u32>) -> bool {
    &&& core.len() == lists.len()
    &&& forall|node: int|
        0 <= node < core.len() ==> is_core_number(lists, node, #[trigger] core[node] as int)
}

pub open spec fn is_core_number(lists: Seq<Vec<u32>>, node: int, degree: int) -> bool {
    in_core(lists, node, degree) && !in_core(lists, node, degree + 1)
}

proof fn lemma_members_bounds(list: Seq<u32>, set: Set<int>)
    ensures
        0 <= members(list, set) <= list.len(),
    decreases list.len(),
{
    if list.len() > 0 {
        lemma_members_bounds(list.drop_last(), set);
    }
}

proof fn lemma_members_subset(list: Seq<u32>, small: Set<int>, large: Set<int>)
    requires
        forall|node: int| #[trigger] small.contains(node) ==> large.contains(node),
    ensures
        members(list, small) <= members(list, large),
    decreases list.len(),
{
    if list.len() > 0 {
        lemma_members_subset(list.drop_last(), small, large);
    }
}

proof fn lemma_members_all(list: Seq<u32>, set: Set<int>)
    requires
        forall|i: int| 0 <= i < list.len() ==> set.contains(#[trigger] list[i] as int),
    ensures
        members(list, set) == list.len(),
    decreases list.len(),
{
    if list.len() > 0 {
        let rest = list.drop_last();
        assert forall|i: int| 0 <= i < rest.len() implies set.contains(#[trigger] rest[i] as int) by {
            assert(rest[i] == list[i]);
        }
        lemma_members_all(rest, set);
        assert(set.contains(list[list.len() - 1] as int));
    }
}

proof fn lemma_members_remove(list: Seq<u32>, set: Set<int>, node: u32)
    requires
        ascending(list),
        set.contains(node as int),
    ensures
        members(list, set.remove(node as int)) == members(list, set) - if list.contains(node) {
            1int
        } else {
            0
        },
    decreases list.len(),
{
    if list.len() > 0 {
        let rest = list.drop_last();
        assert(ascending(rest)) by {
            assert forall|i: int, j: int| 0 <= i < j < rest.len() implies #[trigger] rest[i]
                < #[trigger] rest[j] by {
                assert(list[i] < list[j]);
            }
        }
        lemma_members_remove(rest, set, node);
        if list.last() == node {
            assert(list[list.len() - 1] == node);
            if rest.contains(node) {
                let i = choose|i: int| 0 <= i < rest.len() && rest[i] == node;
                assert(list[i] < list[list.len() - 1]);
            }
        } else {
            if rest.contains(node) {
                let i = choose|i: int| 0 <= i < rest.len() && rest[i] == node;
                assert(list[i] == node);
            }
            if list.contains(node) {
                let i = choose|i: int| 0 <= i < list.len() && list[i] == node;
                assert(rest[i] == node);
            }
        }
    }
}

/// Lists of nodes below the number of lists.
spec fn fitting_lists(lists: Seq<Vec<u32>>) -> bool {
    &&& lists.len() <= u32::MAX
    &&& forall|node: int|
        0 <= node < lists.len() ==> ascending((#[trigger] lists[node])@) && lists[node]@.len()
            <= u32::MAX
    &&& forall|node: int, i: int|
        0 <= node < lists.len() && 0 <= i < lists[node]@.len() ==> (#[trigger] lists[node]@[i])
            < lists.len()
}

/// Lists that name each other.
spec fn symmetric_lists(lists: Seq<Vec<u32>>) -> bool {
    &&& fitting_lists(lists)
    &&& forall|node: u32, other: u32|
        node < lists.len() && other < lists.len() && #[trigger] lists[node as int]@.contains(
            other,
        ) ==> lists[other as int]@.contains(node)
}

proof fn lemma_symmetric(outgoing: Csr, incoming: Csr, lists: Seq<Vec<u32>>)
    requires
        outgoing.targets_are_rows(),
        incoming.targets_are_rows(),
        incoming.node_total() == outgoing.node_total(),
        outgoing.node_total() <= u32::MAX,
        neighbor_lists(outgoing, incoming, lists),
    ensures
        fitting_lists(lists),
        mirrored(outgoing, incoming) ==> symmetric_lists(lists),
{
    assert forall|node: int| 0 <= node < lists.len() implies ascending((#[trigger] lists[node])@)
        && lists[node]@.len() <= u32::MAX by {
        assert(is_neighbor_list(outgoing, incoming, node, lists[node]@));
        crate::algorithms::metrics::lemma_list_set(outgoing, incoming, node, lists[node]@);
    }
    assert forall|node: int, i: int|
        0 <= node < lists.len() && 0 <= i < lists[node]@.len() implies (#[trigger] lists[node]@[i])
        < lists.len() by {
        let list = lists[node]@;
        assert(is_neighbor_list(outgoing, incoming, node, list));
        assert(list.contains(list[i]));
        crate::algorithms::metrics::lemma_adjacent_rows(outgoing, incoming, node, list[i] as int);
    }
    if mirrored(outgoing, incoming) {
        assert forall|node: u32, other: u32|
            node < lists.len() && other < lists.len() && #[trigger] lists[node as int]@.contains(
                other,
            ) implies lists[other as int]@.contains(node) by {
            assert(is_neighbor_list(outgoing, incoming, node as int, lists[node as int]@));
            assert(is_neighbor_list(outgoing, incoming, other as int, lists[other as int]@));
            assert(adjacent(outgoing, incoming, node as int, other as int));
            assert(incoming.leads(other as int, node as int) <==> outgoing.leads(
                node as int,
                other as int,
            ));
            assert(incoming.leads(node as int, other as int) <==> outgoing.leads(
                other as int,
                node as int,
            ));
        }
    }
}

spec fn entry_key(degree: int, node: int) -> u128 {
    (degree * 0x1_0000_0000_0000_0000 + node) as u128
}

fn encode_entry(degree: usize, node: usize) -> (key: u128)
    requires
        degree <= u32::MAX,
        node <= u32::MAX,
    ensures
        key == entry_key(degree as int, node as int),
{
    (degree as u128) * 0x1_0000_0000_0000_0000 + node as u128
}

/// Nodes not yet removed.
spec fn alive(removed: Seq<bool>) -> Set<int> {
    Set::new(|node: int| 0 <= node < removed.len() && !removed[node])
}

/// Every set whose nodes have `degree` neighbors in it lies inside `live`.
spec fn confines(lists: Seq<Vec<u32>>, degree: int, live: Set<int>) -> bool {
    forall|set: Set<int>, node: int|
        #![trigger dense_set(lists, set, degree), set.contains(node)]
        dense_set(lists, set, degree) && set.contains(node) ==> live.contains(node)
}

/// The parts of the peeling state fit each other and 32 bits.
spec fn sized(
    lists: Seq<Vec<u32>>,
    degree: Seq<usize>,
    removed: Seq<bool>,
    core: Seq<u32>,
    current: int,
) -> bool {
    &&& degree.len() == lists.len()
    &&& removed.len() == lists.len()
    &&& core.len() == lists.len()
    &&& 0 <= current <= u32::MAX
    &&& forall|node: int| 0 <= node < degree.len() ==> #[trigger] degree[node] <= u32::MAX
}

/// The peeling state: the degree of a remaining node counts its remaining neighbors, the queue holds
/// it, and the nodes that remained when `current` was set bear witness for it.
spec fn peeling(
    lists: Seq<Vec<u32>>,
    degree: Seq<usize>,
    removed: Seq<bool>,
    core: Seq<u32>,
    current: int,
    witness: Set<int>,
) -> bool {
    &&& sized(lists, degree, removed, core, current)
    &&& forall|node: int|
        0 <= node < lists.len() && !removed[node] ==> #[trigger] degree[node] == members(
            lists[node]@,
            alive(removed),
        )
    &&& dense_set(lists, witness, current)
    &&& forall|node: int| #[trigger] alive(removed).contains(node) ==> witness.contains(node)
    &&& confines(lists, current + 1, alive(removed))
    &&& forall|node: int|
        0 <= node < lists.len() && removed[node] ==> is_core_number(
            lists,
            node,
            #[trigger] core[node] as int,
        )
}

/// The queue holds the current entry of every remaining node, and entries of nodes only.
spec fn queue_covers(
    queue: Multiset<u128>,
    lists: Seq<Vec<u32>>,
    degree: Seq<usize>,
    removed: Seq<bool>,
) -> bool {
    &&& forall|node: int|
        0 <= node < lists.len() && !removed[node] ==> queue.count(
            entry_key(#[trigger] degree[node] as int, node),
        ) > 0
    &&& forall|key: u128| #[trigger]
        queue.count(key) > 0 ==> (key as int) % 0x1_0000_0000_0000_0000 < lists.len() && (
        key as int) / 0x1_0000_0000_0000_0000 <= u32::MAX
}

/// Removing a node of least degree settles its core number.
proof fn lemma_peel(
    lists: Seq<Vec<u32>>,
    degree: Seq<usize>,
    removed: Seq<bool>,
    core: Seq<u32>,
    current: int,
    witness: Set<int>,
    node: int,
    next: int,
)
    requires
        symmetric_lists(lists),
        peeling(lists, degree, removed, core, current, witness),
        0 <= node < lists.len(),
        !removed[node],
        degree[node] <= u32::MAX,
        next == if degree[node] > current {
            degree[node] as int
        } else {
            current
        },
        forall|other: int|
            0 <= other < lists.len() && !removed[other] ==> degree[node] <= #[trigger] degree[other],
    ensures
        is_core_number(lists, node, next),
        ({
            let after = removed.update(node, true);
            let kept = if degree[node] > current {
                alive(removed)
            } else {
                witness
            };
            &&& dense_set(lists, kept, next)
            &&& forall|other: int| #[trigger] alive(after).contains(other) ==> kept.contains(other)
            &&& confines(lists, next + 1, alive(after))
        }),
{
    let live = alive(removed);
    let after = removed.update(node, true);
    let kept = if degree[node] > current {
        live
    } else {
        witness
    };
    assert(live.contains(node));
    if degree[node] > current {
        assert forall|other: int| #[trigger] live.contains(other) implies 0 <= other < lists.len()
            && members(lists[other]@, live) >= next by {
            assert(degree[node] <= degree[other]);
        }
    }
    assert(dense_set(lists, kept, next));
    assert(kept.contains(node));
    let above = next + 1;
    let below = current + 1;
    assert forall|set: Set<int>, other: int|
        #![trigger dense_set(lists, set, above), set.contains(other)]
        dense_set(lists, set, above) && set.contains(other) implies alive(after).contains(
        other,
    ) by {
        assert(dense_set(lists, set, below)) by {
            assert forall|v: int| #[trigger] set.contains(v) implies 0 <= v < lists.len()
                && members(lists[v]@, set) >= below by {}
        }
        assert forall|v: int| #[trigger] set.contains(v) implies live.contains(v) by {
            assert(dense_set(lists, set, below));
        }
        if set.contains(node) {
            lemma_members_subset(lists[node]@, set, live);
            assert(degree[node] == members(lists[node]@, live));
            assert(false);
        }
        assert(live.contains(other));
        assert(other != node);
    }
    assert(confines(lists, above, alive(after)));
    assert forall|other: int| #[trigger] alive(after).contains(other) implies kept.contains(other) by {
        assert(live.contains(other));
    }
    assert(!in_core(lists, node, next + 1)) by {
        if in_core(lists, node, next + 1) {
            let set = choose|set: Set<int>|
                set.contains(node) && #[trigger] dense_set(lists, set, next + 1);
            assert(alive(after).contains(node));
        }
    }
}

/// Core numbers of the undirected graph from deterministic degree peeling. They are those of the
/// graph where one adjacency holds the edges of the other the other way round.
pub fn k_core(outgoing: &Csr, incoming: &Csr) -> (result: Result<Vec<u32>>)
    requires
        outgoing.targets_are_rows(),
        incoming.targets_are_rows(),
        outgoing.node_total() <= u32::MAX,
    ensures
        if outgoing.spec_offsets().len() == incoming.spec_offsets().len() {
            &&& result is Ok
            &&& result->Ok_0@.len() == outgoing.node_total()
            &&& mirrored(*outgoing, *incoming) ==> core_outcome(
                *outgoing,
                *incoming,
                result->Ok_0@,
            )
        } else {
            fails_with(result, ErrorCode::InvalidData, "CSR and CSC node counts differ"@)
        },
{
    k_core_cancellable(outgoing, incoming, never_cancelled)
}

/// The core numbers over the neighbor lists of the graph.
pub open spec fn core_outcome(outgoing: Csr, incoming: Csr, core: Seq<u32>) -> bool {
    exists|lists: Seq<Vec<u32>>| #[trigger]
        neighbor_lists(outgoing, incoming, lists) && core_numbers(lists, core)
}

/// Undirected core numbers with cancellation checks.
#[verifier::rlimit(80)]
#[verifier::spinoff_prover]
pub fn k_core_cancellable<F: FnMut() -> Result<()>>(
    outgoing: &Csr,
    incoming: &Csr,
    check: F,
) -> (result: Result<Vec<u32>>)
    requires
        outgoing.targets_are_rows(),
        incoming.targets_are_rows(),
        outgoing.node_total() <= u32::MAX,
        call_requires(check, ()),
    ensures
        if outgoing.spec_offsets().len() == incoming.spec_offsets().len() {
            match result {
                Ok(core) => {
                    &&& core@.len() == outgoing.node_total()
                    &&& mirrored(*outgoing, *incoming) ==> core_outcome(
                        *outgoing,
                        *incoming,
                        core@,
                    )
                    &&& outgoing.node_total() > 0 ==> goes_on(check)
                },
                Err(error) => outgoing.node_total() > 0 && call_ensures(
                    check,
                    (),
                    Err::<(), Error>(error),
                ),
            }
        } else {
            fails_with(result, ErrorCode::InvalidData, "CSR and CSC node counts differ"@)
        },
{
    let mut poll = check;
    let lists = match undirected_neighbors(outgoing, incoming) {
        Ok(lists) => lists,
        Err(error) => {
            return Err(error);
        },
    };
    proof {
        lemma_symmetric(*outgoing, *incoming, lists@);
    }
    let node_count: usize = lists.len();
    let mut degree: Vec<usize> = Vec::with_capacity(node_count);
    let mut removed: Vec<bool> = vec![false; node_count];
    let mut core: Vec<u32> = vec![0u32; node_count];
    let mut queue = MinQueue::new();
    let ghost all = alive(removed@);
    let ghost even = mirrored(*outgoing, *incoming);
    for node in 0..node_count
        invariant
            node_count == lists.len(),
            fitting_lists(lists@),
            degree.len() == node,
            forall|v: int| 0 <= v < node ==> #[trigger] degree@[v] == lists@[v]@.len(),
            queue.wf(),
            forall|v: int|
                0 <= v < node ==> queue@.count(entry_key(#[trigger] degree@[v] as int, v)) > 0,
            forall|key: u128| #[trigger]
                queue@.count(key) > 0 ==> (key as int) % 0x1_0000_0000_0000_0000 < lists.len() && (
                key as int) / 0x1_0000_0000_0000_0000 <= u32::MAX,
    {
        assert(ascending(lists@[node as int]@) && lists@[node as int]@.len() <= u32::MAX);
        let size: usize = lists[node].len();
        let ghost before = queue@;
        queue.push(encode_entry(size, node));
        degree.push(size);
        assert(forall|v: int|
            0 <= v < node ==> before.count(entry_key(#[trigger] degree@[v] as int, v)) > 0);
    }
    let mut current: usize = 0;
    let ghost mut witness: Set<int> = all;
    proof {
        assert forall|v: int| 0 <= v < lists@.len() && !removed@[v] implies #[trigger] degree@[v]
            == members(lists@[v]@, all) by {
            assert forall|i: int| 0 <= i < lists@[v]@.len() implies all.contains(
                #[trigger] lists@[v]@[i] as int,
            ) by {}
            lemma_members_all(lists@[v]@, all);
        }
        assert forall|v: int| #[trigger] all.contains(v) implies 0 <= v < lists@.len() && members(
            lists@[v]@,
            all,
        ) >= 0 by {
            lemma_members_bounds(lists@[v]@, all);
        }
        assert forall|v: int| 0 <= v < degree@.len() implies #[trigger] degree@[v] <= u32::MAX by {
            assert(lists@[v]@.len() <= u32::MAX);
        }
        vstd::set_lib::lemma_int_range(0, node_count as int);
        assert(all =~= vstd::set_lib::set_int_range(0, node_count as int));
    }
    loop
        invariant
            node_count == lists.len(),
            node_count == outgoing.node_total(),
            fitting_lists(lists@),
            even == mirrored(*outgoing, *incoming),
            even ==> symmetric_lists(lists@),
            neighbor_lists(*outgoing, *incoming, lists@),
            outgoing.spec_offsets().len() == incoming.spec_offsets().len(),
            poll == check,
            call_requires(poll, ()),
            queue.wf(),
            queue_covers(queue@, lists@, degree@, removed@),
            sized(lists@, degree@, removed@, core@, current as int),
            even ==> peeling(lists@, degree@, removed@, core@, current as int, witness),
            alive(removed@).finite(),
            node_count > 0 && removed@[0] ==> goes_on(check),
        decreases alive(removed@).len(), queue@.len(),
    {
        let ghost entries = queue@;
        let key: u128 = match queue.pop() {
            Some(key) => key,
            None => {
                proof {
                    assert forall|v: int| 0 <= v < core@.len() && even implies is_core_number(
                        lists@,
                        v,
                        #[trigger] core@[v] as int,
                    ) by {
                        if !removed@[v] {
                            assert(entries.count(entry_key(degree@[v] as int, v)) > 0);
                        }
                    }
                    if node_count > 0 && !removed@[0] {
                        assert(entries.count(entry_key(degree@[0] as int, 0)) > 0);
                    }
                }
                return Ok(core);
            },
        };
        let node: usize = (key % 0x1_0000_0000_0000_0000) as usize;
        let candidate: u128 = key / 0x1_0000_0000_0000_0000;
        if node % 1024 == 0 {
            match ask(&mut poll) {
                Ok(_) => {},
                Err(error) => {
                    return Err(error);
                },
            }
        }
        if removed[node] || degree[node] as u128 != candidate {
            proof {
                assert forall|v: int|
                    0 <= v < lists@.len() && !removed@[v] implies queue@.count(
                    entry_key(#[trigger] degree@[v] as int, v),
                ) > 0 by {
                    assert(degree@[v] <= u32::MAX);
                    assert(entry_key(degree@[v] as int, v) != key) by {
                        if entry_key(degree@[v] as int, v) == key {
                            assert(v == node && degree@[v] == candidate);
                        }
                    }
                }
            }
            continue ;
        }
        let ghost removed0 = removed@;
        let ghost degree0 = degree@;
        let ghost core0 = core@;
        let ghost live = alive(removed0);
        let next: usize = if degree[node] > current {
            degree[node]
        } else {
            current
        };
        proof {
            assert forall|other: int|
                0 <= other < lists@.len() && !removed0[other] implies degree0[node as int]
                <= #[trigger] degree0[other] by {
                assert(entries.count(entry_key(degree0[other] as int, other)) > 0);
                assert(degree0[other] <= u32::MAX);
                assert(key <= entry_key(degree0[other] as int, other));
            }
            assert(degree0[node as int] <= u32::MAX);
            if even {
                lemma_peel(
                    lists@,
                    degree0,
                    removed0,
                    core0,
                    current as int,
                    witness,
                    node as int,
                    next as int,
                );
            }
            assert(live.contains(node as int));
        }
        removed.set(node, true);
        core.set(node, next as u32);
        proof {
            assert(alive(removed@) =~= live.remove(node as int));
        }
        let list = &lists[node];
        for index in 0..list.len()
            invariant
                node_count == lists.len(),
                fitting_lists(lists@),
                even ==> symmetric_lists(lists@),
                node < node_count,
                *list == lists@[node as int],
                removed.len() == node_count,
                degree.len() == node_count,
                degree0.len() == node_count,
                removed@ == removed0.update(node as int, true),
                live == alive(removed0),
                forall|v: int|
                    even && 0 <= v < lists.len() && !removed0[v] ==> #[trigger] degree0[v]
                        == members(lists@[v]@, live),
                live.contains(node as int),
                forall|v: int| 0 <= v < node_count ==> #[trigger] degree@[v] <= u32::MAX,
                forall|v: int|
                    even && 0 <= v < node_count && !removed@[v] ==> #[trigger] degree@[v]
                        == degree0[v]
                        - if list@.subrange(0, index as int).contains(v as u32) {
                        1int
                    } else {
                        0
                    },
                queue.wf(),
                queue_covers(queue@, lists@, degree@, removed@),
        {
            let neighbor: usize = list[index] as usize;
            assert(lists@[node as int]@[index as int] < lists.len());
            let ghost degree1 = degree@;
            let ghost head = list@.subrange(0, index as int);
            let ghost longer = list@.subrange(0, index + 1);
            proof {
                assert(longer =~= head.push(list@[index as int]));
                assert forall|v: u32| #[trigger] longer.contains(v) <==> head.contains(v) || v
                    == list@[index as int] by {
                    if head.contains(v) {
                        let i = choose|i: int| 0 <= i < head.len() && head[i] == v;
                        assert(longer[i] == v);
                    }
                    if longer.contains(v) {
                        let i = choose|i: int| 0 <= i < longer.len() && longer[i] == v;
                        if i < head.len() {
                            assert(head[i] == v);
                        }
                    }
                    assert(longer[index as int] == list@[index as int]);
                }
                assert(!head.contains(list@[index as int])) by {
                    if head.contains(list@[index as int]) {
                        let i = choose|i: int|
                            0 <= i < head.len() && head[i] == list@[index as int];
                        assert(ascending(lists@[node as int]@));
                        assert(list@[i] < list@[index as int]);
                    }
                }
            }
            if !removed[neighbor] {
                proof {
                    if even {
                        assert(list@.contains(list@[index as int]));
                        assert(lists@[node as int]@.contains(neighbor as u32));
                        assert(lists@[neighbor as int]@.contains(node as u32));
                        assert(ascending(lists@[neighbor as int]@)
                            && lists@[neighbor as int]@.len() <= u32::MAX);
                        lemma_members_remove(lists@[neighbor as int]@, live, node as u32);
                        lemma_members_bounds(lists@[neighbor as int]@, live.remove(node as int));
                        lemma_members_bounds(lists@[neighbor as int]@, live);
                        assert(degree@[neighbor as int] == degree0[neighbor as int]);
                    }
                    assert(degree@[neighbor as int] <= u32::MAX);
                }
                let reduced: usize = degree[neighbor].saturating_sub(1);
                let ghost queue1 = queue@;
                degree.set(neighbor, reduced);
                queue.push(encode_entry(reduced, neighbor));
                proof {
                    assert forall|v: int|
                        0 <= v < lists@.len() && !removed@[v] implies queue@.count(
                        entry_key(#[trigger] degree@[v] as int, v),
                    ) > 0 by {
                        if v != neighbor {
                            assert(degree@[v] == degree1[v]);
                            assert(queue1.count(entry_key(degree1[v] as int, v)) > 0);
                        }
                    }
                }
            }
        }
        proof {
            assert(list@.subrange(0, list@.len() as int) =~= list@);
            assert forall|v: int|
                even && 0 <= v < lists@.len() && !removed@[v] implies #[trigger] degree@[v]
                == members(lists@[v]@, alive(removed@)) by {
                lemma_members_remove(lists@[v]@, live, node as u32);
                assert(ascending(lists@[v]@));
                if list@.contains(v as u32) {
                    assert(lists@[node as int]@.contains(v as u32));
                    assert(lists@[v]@.contains(node as u32));
                }
                if lists@[v]@.contains(node as u32) {
                    assert(lists@[(v as u32) as int]@.contains(node as u32));
                    assert(lists@[(node as u32) as int]@.contains(v as u32));
                }
                assert(degree0[v] == members(lists@[v]@, live));
            }
            witness = if degree0[node as int] > current {
                live
            } else {
                witness
            };
            assert forall|v: int|
                even && 0 <= v < lists@.len() && removed@[v] implies is_core_number(
                lists@,
                v,
                #[trigger] core@[v] as int,
            ) by {
                if v != node {
                    assert(core@[v] == core0[v]);
                }
            }
        }
        current = next;
    }
}

proof fn lemma_core_at_least(
    lists: Seq<Vec<u32>>,
    core: Seq<u32>,
    set: Set<int>,
    node: int,
    degree: int,
)
    requires
        core_numbers(lists, core),
        dense_set(lists, set, degree),
        set.contains(node),
    ensures
        core[node] >= degree,
{
    assert(0 <= node < lists.len());
    assert(is_core_number(lists, node, core[node] as int));
    if core[node] < degree {
        assert(dense_set(lists, set, core[node] + 1));
        assert(in_core(lists, node, core[node] + 1));
    }
}

/// No core number is larger than the number of neighbors.
pub proof fn law_cores_are_bounded_by_neighbors(lists: Seq<Vec<u32>>, core: Seq<u32>, node: int)
    requires
        core_numbers(lists, core),
        0 <= node < lists.len(),
    ensures
        core[node] <= lists[node]@.len(),
{
    assert(is_core_number(lists, node, core[node] as int));
    let set = choose|set: Set<int>|
        set.contains(node) && #[trigger] dense_set(lists, set, core[node] as int);
    lemma_members_bounds(lists[node]@, set);
}

/// Two neighbors have a core number of at least one, and the corners of a triangle one of at least two.
pub proof fn law_cores_of_pairs_and_triangles(
    lists: Seq<Vec<u32>>,
    core: Seq<u32>,
    first: u32,
    second: u32,
    third: u32,
)
    requires
        core_numbers(lists, core),
        forall|node: int| 0 <= node < lists.len() ==> ascending(#[trigger] lists[node]@),
        first != second,
        first < lists.len(),
        second < lists.len(),
        lists[first as int]@.contains(second),
        lists[second as int]@.contains(first),
    ensures
        core[first as int] >= 1,
        core[second as int] >= 1,
        third != first && third != second && third < lists.len()
            && lists[first as int]@.contains(third) && lists[third as int]@.contains(first)
            && lists[second as int]@.contains(third) && lists[third as int]@.contains(second)
            ==> core[first as int] >= 2 && core[second as int] >= 2 && core[third as int] >= 2,
{
    let a = first as int;
    let b = second as int;
    let c = third as int;
    let pair = set![a, b];
    assert(dense_set(lists, pair, 1)) by {
        lemma_members_remove(lists[a]@, pair, second);
        lemma_members_bounds(lists[a]@, pair.remove(b));
        lemma_members_remove(lists[b]@, pair, first);
        lemma_members_bounds(lists[b]@, pair.remove(a));
    }
    lemma_core_at_least(lists, core, pair, a, 1);
    lemma_core_at_least(lists, core, pair, b, 1);
    if third != first && third != second && third < lists.len() && lists[a]@.contains(third)
        && lists[c]@.contains(first) && lists[b]@.contains(third) && lists[c]@.contains(second) {
        let ring = set![a, b, c];
        assert(dense_set(lists, ring, 2)) by {
            lemma_members_remove(lists[a]@, ring, second);
            lemma_members_remove(lists[a]@, ring.remove(b), third);
            lemma_members_bounds(lists[a]@, ring.remove(b).remove(c));
            lemma_members_remove(lists[b]@, ring, first);
            lemma_members_remove(lists[b]@, ring.remove(a), third);
            lemma_members_bounds(lists[b]@, ring.remove(a).remove(c));
            lemma_members_remove(lists[c]@, ring, first);
            lemma_members_remove(lists[c]@, ring.remove(a), second);
            lemma_members_bounds(lists[c]@, ring.remove(a).remove(b));
        }
        lemma_core_at_least(lists, core, ring, a, 2);
        lemma_core_at_least(lists, core, ring, b, 2);
        lemma_core_at_least(lists, core, ring, c, 2);
    }
}

} // verus!
