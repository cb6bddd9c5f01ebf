//! Weakly connected components.

use crate::algorithms::traversal::{
    lemma_leads_row, lemma_marked_bounds, lemma_marked_step, marked, never_cancelled, node_count_of,
};
use crate::algorithms::strong::mirrored;
use crate::cancel::{ask, goes_on};
use crate::csr::Csr;
use crate::error::{fails_with, Error, ErrorCode, Result};
use crate::reach::{
    lemma_closed_set, lemma_one_edge, lemma_reaches_edge, lemma_reaches_self, lemma_reaches_trans,
    reaches, steps, Relation,
};
use vstd::prelude::*;

verus! {

/// Component assignment by dense node ordinal.
#[derive(Debug, PartialEq, Eq)]
pub struct Components {
    pub component: Vec<u32>,
    pub count: u32,
}

/// Component identifiers are dense and follow the smallest node of each component: an identifier
/// first occurs after all smaller ones.
pub open spec fn canonical(component: Seq<u32>, count: int) -> bool {
    &&& forall|v: int| 0 <= v < component.len() ==> #[trigger] component[v] < count
    &&& forall|id: int|
        0 <= id < count ==> #[trigger] occurs_before(component, component.len() as int, id)
    &&& forall|v: int, id: int|
        0 <= v < component.len() && 0 <= id < component[v] ==> #[trigger] occurs_before(
            component,
            v,
            id,
        )
}

/// The identifier occurs at a node below `node`.
pub open spec fn occurs_before(component: Seq<u32>, node: int, id: int) -> bool {
    exists|u: int| 0 <= u < node && #[trigger] component[u] == id
}

pub(crate) fn validate_pair(outgoing: &Csr, incoming: &Csr) -> (result: Result<()>)
    ensures
        if outgoing.spec_offsets().len() == incoming.spec_offsets().len() {
            result is Ok
        } else {
            fails_with(result, ErrorCode::InvalidData, "CSR and CSC node counts differ"@)
        },
{
    if outgoing.offsets().len() != incoming.offsets().len() {
        return Err(Error::invalid_data("CSR and CSC node counts differ"));
    }
    Ok(())
}

/// The edges of two adjacencies together.
pub open spec fn joined_edges(outgoing: Csr, incoming: Csr) -> Relation {
    |from: int, to: int| outgoing.leads(from, to) || incoming.leads(from, to)
}

/// `owner` is the smallest node that reaches `node`.
pub open spec fn owns(edge: Relation, owner: int, node: int) -> bool {
    &&& 0 <= owner
    &&& reaches(edge, owner, node)
    &&& forall|smaller: int| 0 <= smaller < owner ==> !#[trigger] reaches(edge, smaller, node)
}

/// Two nodes have one component exactly when one smallest node reaches both. Where every edge of one
/// adjacency is an edge of the other the other way round, these are the connected components.
pub open spec fn weak_components(edge: Relation, component: Seq<u32>) -> bool {
    forall|u: int, v: int|
        #![trigger component[u], component[v]]
        0 <= u < component.len() && 0 <= v < component.len() ==> (component[u] == component[v]
            <==> exists|owner: int| #[trigger] owns(edge, owner, u) && owns(edge, owner, v))
}

/// Weak components over the union of outgoing and incoming edges.
pub fn weakly_connected_components(outgoing: &Csr, incoming: &Csr) -> (result: Result<Components>)
    requires
        outgoing.targets_are_rows(),
        incoming.targets_are_rows(),
        outgoing.node_total() <= u32::MAX,
    ensures
        if outgoing.spec_offsets().len() == incoming.spec_offsets().len() {
            &&& result is Ok
            &&& result->Ok_0.component@.len() == outgoing.node_total()
            &&& canonical(result->Ok_0.component@, result->Ok_0.count as int)
            &&& weak_components(
                joined_edges(*outgoing, *incoming),
                result->Ok_0.component@,
            )
        } else {
            fails_with(result, ErrorCode::InvalidData, "CSR and CSC node counts differ"@)
        },
{
    weakly_connected_components_cancellable(outgoing, incoming, never_cancelled)
}

/// What labelling has done: each labelled node has the identifier of its owner, and `starts` lists
/// the owners by identifier.
spec fn labelled(
    edge: Relation,
    component: Seq<u32>,
    starts: Seq<int>,
    bound: int,
) -> bool {
    &&& starts.len() <= u32::MAX
    &&& forall|id: int| 0 <= id < starts.len() ==> 0 <= (#[trigger] starts[id]) < bound
    &&& forall|i: int, j: int|
        0 <= i < j < starts.len() ==> (#[trigger] starts[i]) < (#[trigger] starts[j])
    &&& forall|id: int|
        0 <= id < starts.len() ==> component[#[trigger] starts[id]] == id
    &&& forall|v: int|
        0 <= v < component.len() && #[trigger] component[v] != u32::MAX ==> component[v]
            < starts.len() && owns(edge, starts[component[v] as int], v)
    &&& forall|v: int|
        0 <= v < component.len() && v < bound ==> #[trigger] component[v] != u32::MAX
}

/// Nodes that carry a label.
spec fn labels(component: Seq<u32>) -> Seq<bool> {
    Seq::new(component.len(), |v: int| component[v] != u32::MAX)
}

/// Labels one more node of the component in progress.
#[verifier::spinoff_prover]
fn label_neighbors(
    adjacency: &Csr,
    node: u32,
    id: u32,
    component: &mut Vec<u32>,
    queue: &mut Vec<u32>,
    Ghost(edge): Ghost<Relation>,
    Ghost(start): Ghost<int>,
)
    requires
        adjacency.targets_are_rows(),
        old(component).len() == adjacency.node_total(),
        id < u32::MAX,
        forall|to: int| #[trigger] adjacency.leads(node as int, to) ==> edge(node as int, to),
        reaches(edge, start, node as int),
    ensures
        final(component).len() == old(component).len(),
        final(queue).len() >= old(queue).len(),
        final(queue).len() - old(queue).len() == marked(labels(final(component)@)) - marked(
            labels(old(component)@),
        ),
        forall|i: int|
            0 <= i < old(queue).len() ==> #[trigger] final(queue)@[i] == old(queue)@[i],
        forall|i: int|
            old(queue).len() <= i < final(queue).len() ==> (#[trigger] final(queue)@[i])
                < final(component).len() && final(component)@[final(queue)@[i] as int] == id,
        forall|v: int|
            0 <= v < old(component).len() ==> (#[trigger] final(component)@[v] == old(component)@[v]
                || old(component)@[v] == u32::MAX && final(component)@[v] == id && reaches(
                edge,
                start,
                v,
            ) && queued(final(queue)@, old(queue).len() as int, v)),
        forall|to: int| #[trigger]
            adjacency.leads(node as int, to) ==> final(component)@[to] != u32::MAX,
{
    let neighbors = adjacency.neighbors();
    let ghost before = component@;
    let ghost waiting = queue@.len();
    let ghost before_queue = queue@;
    if let Some((start_place, end)) = adjacency.row_bounds(node) {
        for place in start_place..end
            invariant
                adjacency.targets_are_rows(),
                neighbors@ == adjacency.spec_neighbors(),
                component.len() == adjacency.node_total(),
                component.len() == before.len(),
                id < u32::MAX,
                adjacency.spec_row(node as int) is Some,
                start_place == adjacency.spec_offsets()[node as int],
                end == adjacency.spec_offsets()[node + 1],
                start_place <= end <= neighbors.len(),
                adjacency.spec_row(node as int)->Some_0.len() == end - start_place,
                forall|to: int| #[trigger]
                    adjacency.leads(node as int, to) ==> edge(node as int, to),
                reaches(edge, start, node as int),
                before_queue.len() == waiting,
                queue.len() >= waiting,
                queue.len() - waiting == marked(labels(component@)) - marked(labels(before)),
                forall|i: int| 0 <= i < waiting ==> #[trigger] queue@[i] == before_queue[i],
                forall|i: int|
                    waiting <= i < queue.len() ==> (#[trigger] queue@[i]) < component.len()
                        && component@[queue@[i] as int] == id,
                forall|v: int|
                    0 <= v < before.len() ==> (#[trigger] component@[v] == before[v] || before[v]
                        == u32::MAX && component@[v] == id && reaches(edge, start, v) && queued(
                        queue@,
                        waiting as int,
                        v,
                    )),
                forall|k: int|
                    start_place <= k < place ==> component@[#[trigger] neighbors@[k] as int]
                        != u32::MAX,
        {
            let neighbor: u32 = neighbors[place];
            if component[neighbor as usize] == u32::MAX {
                let ghost component1 = component@;
                let ghost queue1 = queue@;
                proof {
                    assert(adjacency.spec_row(node as int)->Some_0[place - start_place].0
                        == neighbor);
                    assert(adjacency.leads(node as int, neighbor as int));
                    lemma_reaches_edge(edge, start, node as int, neighbor as int);
                    lemma_marked_step(labels(component@), neighbor as int);
                }
                component.set(neighbor as usize, id);
                queue.push(neighbor);
                proof {
                    assert(labels(component@) =~= labels(component1).update(neighbor as int, true));
                    assert(queue@[queue1.len() as int] == neighbor);
                    assert forall|v: int| 0 <= v < before.len() implies (#[trigger] component@[v]
                        == before[v] || before[v] == u32::MAX && component@[v] == id && reaches(
                        edge,
                        start,
                        v,
                    ) && queued(queue@, waiting as int, v)) by {
                        if v != neighbor && component1[v] != before[v] {
                            assert(queued(queue1, waiting as int, v));
                            let i = choose|i: int|
                                waiting <= i < queue1.len() && #[trigger] queue1[i] == v;
                            assert(queue@[i] == v);
                        }
                    }
                    assert forall|i: int| waiting <= i < queue.len() implies (#[trigger] queue@[i])
                        < component.len() && component@[queue@[i] as int] == id by {
                        if i < queue1.len() {
                            assert(queue@[i] == queue1[i]);
                        }
                    }
                }
            }
        }
        proof {
            assert forall|to: int| #[trigger] adjacency.leads(node as int, to) implies component@[to]
                != u32::MAX by {
                let row = adjacency.spec_row(node as int)->Some_0;
                let i = choose|i: int| 0 <= i < row.len() && (#[trigger] row[i]).0 == to;
                assert(neighbors@[start_place + i] == to);
            }
        }
    }
}

/// The queue holds `node` at `from` or later.
spec fn queued(queue: Seq<u32>, from: int, node: int) -> bool {
    exists|i: int| from <= i < queue.len() && #[trigger] queue[i] == node
}

/// Labelled nodes lead to labelled nodes only.
spec fn closed_labels(edge: Relation, component: Seq<u32>) -> bool {
    forall|u: int, v: int|
        0 <= u < component.len() && component[u] != u32::MAX && #[trigger] edge(u, v)
            ==> component[v] != u32::MAX
}

/// A labelled component in progress: the nodes of `queue` carry its identifier, and those before
/// `head` lead to labelled nodes only.
spec fn spreading(
    edge: Relation,
    before: Seq<u32>,
    component: Seq<u32>,
    queue: Seq<u32>,
    head: int,
    start: int,
    id: u32,
) -> bool {
    &&& component.len() == before.len()
    &&& 0 <= head <= queue.len()
    &&& forall|i: int|
        0 <= i < queue.len() ==> (#[trigger] queue[i]) < component.len()
            && component[queue[i] as int] == id
    &&& forall|v: int|
        0 <= v < before.len() ==> (#[trigger] component[v] == before[v] || before[v] == u32::MAX
            && component[v] == id && reaches(edge, start, v) && queued(queue, 0, v))
    &&& forall|i: int, to: int|
        0 <= i < head && #[trigger] edge(queue[i] as int, to) ==> component[to] != u32::MAX
    &&& component[start] == id
    &&& queue.len() - marked(labels(component)) == -marked(labels(before))
}

proof fn lemma_closed_reach(edge: Relation, component: Seq<u32>, from: int, to: int)
    requires
        forall|u: int, v: int| #[trigger] edge(u, v) ==> 0 <= v < component.len(),
        closed_labels(edge, component),
        0 <= from < component.len(),
        component[from] != u32::MAX,
        reaches(edge, from, to),
    ensures
        0 <= to < component.len(),
        component[to] != u32::MAX,
{
    let closed = Set::new(|v: int| 0 <= v < component.len() && component[v] != u32::MAX);
    lemma_closed_set(edge, closed, from, to);
}

/// A finished component joins the labelled ones.
proof fn lemma_component_done(
    edge: Relation,
    before: Seq<u32>,
    component: Seq<u32>,
    starts: Seq<int>,
    queue: Seq<u32>,
    start: int,
    id: u32,
)
    requires
        forall|u: int, v: int| #[trigger] edge(u, v) ==> 0 <= v < component.len(),
        labelled(edge, before, starts, start),
        closed_labels(edge, before),
        0 <= start < before.len(),
        before[start] == u32::MAX,
        id == starts.len(),
        starts.len() + 1 <= u32::MAX,
        spreading(edge, before, component, queue, queue.len() as int, start, id),
    ensures
        labelled(edge, component, starts.push(start), start + 1),
        closed_labels(edge, component),
{
    let grown = starts.push(start);
    assert forall|v: int|
        0 <= v < component.len() && #[trigger] component[v] != u32::MAX implies component[v]
        < grown.len() && owns(edge, grown[component[v] as int], v) by {
        if component[v] == before[v] && before[v] != u32::MAX {
            assert(grown[component[v] as int] == starts[component[v] as int]);
        } else {
            assert(component[v] == id);
            assert forall|smaller: int| 0 <= smaller < start implies !#[trigger] reaches(
                edge,
                smaller,
                v,
            ) by {
                if reaches(edge, smaller, v) {
                    assert(before[smaller] != u32::MAX);
                    lemma_closed_reach(edge, before, smaller, v);
                }
            }
        }
    }
    assert forall|i: int| 0 <= i < grown.len() implies component[#[trigger] grown[i]] == i by {
        if i < starts.len() {
            assert(grown[i] == starts[i]);
            assert(before[starts[i]] == i);
            assert(component[starts[i]] == before[starts[i]]);
        }
    }
    assert forall|i: int, j: int| 0 <= i < j < grown.len() implies (#[trigger] grown[i]) < (
    #[trigger] grown[j]) by {
        assert(grown[i] == starts[i]);
        if j < starts.len() {
            assert(grown[j] == starts[j]);
        }
    }
    assert forall|v: int| 0 <= v < component.len() && v < start + 1 implies #[trigger] component[v]
        != u32::MAX by {
        if v < start {
            assert(before[v] != u32::MAX);
        }
    }
    assert forall|u: int, v: int|
        0 <= u < component.len() && component[u] != u32::MAX && #[trigger] edge(u,
            v) implies component[v]
        != u32::MAX by {
        if component[u] == before[u] && before[u] != u32::MAX {
            assert(before[v] != u32::MAX);
            assert(component[v] == before[v] || component[v] == id);
        } else {
            assert(queued(queue, 0, u));
            let i = choose|i: int| 0 <= i < queue.len() && #[trigger] queue[i] == u;
            assert(edge(queue[i] as int, v));
        }
    }
}

proof fn lemma_labelled_result(edge: Relation, component: Seq<u32>, starts: Seq<int>)
    requires
        labelled(edge, component, starts, component.len() as int),
    ensures
        canonical(component, starts.len() as int),
        weak_components(edge, component),
{
    let count = starts.len() as int;
    assert forall|id: int| 0 <= id < count implies #[trigger] occurs_before(
        component,
        component.len() as int,
        id,
    ) by {
        assert(component[starts[id]] == id);
    }
    assert forall|v: int, id: int|
        0 <= v < component.len() && 0 <= id < component[v] implies #[trigger] occurs_before(
        component,
        v,
        id,
    ) by {
        let owner = starts[component[v] as int];
        lemma_reaches_self(edge, v);
        assert(owner <= v) by {
            if v < owner {
                assert(!reaches(edge, v, v));
            }
        }
        assert(starts[id] < starts[component[v] as int]);
        assert(component[starts[id]] == id);
    }
    assert forall|u: int, v: int|
        #![trigger component[u], component[v]]
        0 <= u < component.len() && 0 <= v < component.len() implies (component[u] == component[v]
        <==> exists|owner: int| #[trigger] owns(edge, owner, u) && owns(edge, owner, v)) by {
        let a = starts[component[u] as int];
        let b = starts[component[v] as int];
        if component[u] == component[v] {
            assert(owns(edge, a, u) && owns(edge, a, v));
        }
        if exists|owner: int| #[trigger] owns(edge, owner, u) && owns(edge, owner, v) {
            let owner = choose|owner: int| #[trigger]
                owns(edge, owner, u) && owns(edge, owner, v);
            if owner < a {
                assert(!reaches(edge, owner, u));
            }
            if a < owner {
                assert(!reaches(edge, a, u));
            }
            if owner < b {
                assert(!reaches(edge, owner, v));
            }
            if b < owner {
                assert(!reaches(edge, b, v));
            }
            assert(a == b);
            assert(component[a] == component[u] as int);
        }
    }
}

/// Weak components with a bounded-latency cancellation/deadline callback.
#[verifier::rlimit(60)]
#[verifier::spinoff_prover]
pub fn weakly_connected_components_cancellable<F: FnMut() -> Result<()>>(
    outgoing: &Csr,
    incoming: &Csr,
    check: F,
) -> (result: Result<Components>)
    requires
        outgoing.targets_are_rows(),
        incoming.targets_are_rows(),
        outgoing.node_total() <= u32::MAX,
        call_requires(check, ()),
    ensures
        if outgoing.spec_offsets().len() == incoming.spec_offsets().len() {
            match result {
                Ok(components) => {
                    &&& components.component@.len() == outgoing.node_total()
                    &&& canonical(components.component@, components.count as int)
                    &&& weak_components(
                        joined_edges(*outgoing, *incoming),
                        components.component@,
                    )
                    &&& outgoing.node_total() > 0 ==> goes_on(check)
                },
                Err(error) => outgoing.node_total() > 0 && call_ensures(
                    check,
                    (),
                    Err::<(), Error>(error),
                ),
            }
        } else {
            fails_with(result, ErrorCode::InvalidData, "CSR and CSC node counts differ"@)
        },
{
    let mut poll = check;
    match validate_pair(outgoing, incoming) {
        Ok(_) => {},
        Err(error) => {
            return Err(error);
        },
    }
    let node_count: usize = node_count_of(outgoing);
    let mut component: Vec<u32> = vec![u32::MAX; node_count];
    let mut count: u32 = 0;
    let ghost edge = joined_edges(*outgoing, *incoming);
    let ghost mut starts: Seq<int> = Seq::empty();
    proof {
        assert forall|u: int, v: int| #[trigger] edge(u, v) implies 0 <= u < node_count && 0 <= v
            < node_count by {
            if outgoing.leads(u, v) {
                lemma_leads_row(*outgoing, u, v);
            } else {
                lemma_leads_row(*incoming, u, v);
            }
        }
    }
    for start in 0..node_count
        invariant
            outgoing.targets_are_rows(),
            incoming.targets_are_rows(),
            node_count == outgoing.node_total(),
            node_count == incoming.node_total(),
            node_count <= u32::MAX,
            edge == joined_edges(*outgoing, *incoming),
            forall|u: int, v: int| #[trigger] edge(u, v) ==> 0 <= v < node_count,
            poll == check,
            call_requires(poll, ()),
            component.len() == node_count,
            count == starts.len(),
            count <= start,
            labelled(edge, component@, starts, start as int),
            closed_labels(edge, component@),
            start > 0 ==> goes_on(check),
    {
        if start % 1024 == 0 {
            match ask(&mut poll) {
                Ok(_) => {},
                Err(error) => {
                    return Err(error);
                },
            }
        }
        if component[start] == u32::MAX {
            let ghost before = component@;
            let mut queue: Vec<u32> = Vec::new();
            proof {
                lemma_marked_step(labels(component@), start as int);
                lemma_reaches_self(edge, start as int);
            }
            component.set(start, count);
            queue.push(start as u32);
            proof {
                assert(labels(component@) =~= labels(before).update(start as int, true));
                assert(queue@[0] == start);
                assert(queued(queue@, 0, start as int));
                lemma_marked_bounds(labels(component@));
            }
            let mut head: usize = 0;
            while head < queue.len()
                invariant
                    outgoing.targets_are_rows(),
                    incoming.targets_are_rows(),
                    node_count == outgoing.node_total(),
                    node_count == incoming.node_total(),
                    node_count <= u32::MAX,
                    edge == joined_edges(*outgoing, *incoming),
                    poll == check,
                    call_requires(poll, ()),
                    component.len() == node_count,
                    count < u32::MAX,
                    spreading(
                        edge,
                        before,
                        component@,
                        queue@,
                        head as int,
                        start as int,
                        count,
                    ),
                    start < node_count,
                    before[start as int] == u32::MAX,
                    forall|v: int| 0 <= v < before.len() ==> #[trigger] before[v] != count,
                    forall|u: int, v: int| #[trigger] edge(u, v) ==> 0 <= v < node_count,
                    head <= marked(labels(component@)),
                decreases node_count - head,
            {
                let node: u32 = queue[head];
                if node % 1024 == 0 {
                    match ask(&mut poll) {
                        Ok(_) => {},
                        Err(error) => {
                            return Err(error);
                        },
                    }
                }
                let ghost component0 = component@;
                let ghost queue0 = queue@;
                proof {
                    lemma_marked_bounds(labels(before));
                    lemma_marked_bounds(labels(component@));
                    assert(component@[node as int] == count);
                    lemma_spread_reaches(
                        edge,
                        before,
                        component@,
                        queue@,
                        head as int,
                        start as int,
                        count,
                        node,
                    );
                }
                label_neighbors(
                    outgoing,
                    node,
                    count,
                    &mut component,
                    &mut queue,
                    Ghost(edge),
                    Ghost(start as int),
                );
                let ghost component1 = component@;
                let ghost queue1 = queue@;
                label_neighbors(
                    incoming,
                    node,
                    count,
                    &mut component,
                    &mut queue,
                    Ghost(edge),
                    Ghost(start as int),
                );
                proof {
                    assert(queue@[head as int] == node) by {
                        assert(queue1[head as int] == queue0[head as int]);
                    }
                    lemma_spread_twice(
                        edge,
                        before,
                        component0,
                        queue0,
                        component1,
                        queue1,
                        component@,
                        queue@,
                        head as int,
                        start as int,
                        count,
                    );
                    assert forall|to: int| #[trigger] edge(node as int, to) implies component@[to]
                        != u32::MAX by {
                        if outgoing.leads(node as int, to) {
                            lemma_leads_row(*outgoing, node as int, to);
                            assert(component1[to] != u32::MAX);
                            assert(component@[to] == component1[to] || component@[to] == count);
                        }
                    }
                    assert forall|i: int, to: int|
                        0 <= i < head + 1 && #[trigger] edge(queue@[i] as int,
                            to) implies component@[to]
                        != u32::MAX by {
                        if i < head {
                            assert(queue@[i] == queue0[i]);
                            assert(edge(queue0[i] as int, to));
                            assert(component0[to] != u32::MAX);
                        }
                    }
                    lemma_marked_bounds(labels(component@));
                    lemma_marked_bounds(labels(before));
                }
                head = head + 1;
            }
            proof {
                lemma_component_done(
                    edge,
                    before,
                    component@,
                    starts,
                    queue@,
                    start as int,
                    count,
                );
                starts = starts.push(start as int);
            }
            count = count + 1;
        }
    }
    proof {
        lemma_labelled_result(edge, component@, starts);
    }
    Ok(Components { component, count })
}

proof fn lemma_spread_reaches(
    edge: Relation,
    before: Seq<u32>,
    component: Seq<u32>,
    queue: Seq<u32>,
    head: int,
    start: int,
    id: u32,
    node: u32,
)
    requires
        spreading(edge, before, component, queue, head, start, id),
        0 <= node < before.len(),
        component[node as int] == id,
        forall|v: int| 0 <= v < before.len() ==> #[trigger] before[v] != id,
    ensures
        reaches(edge, start, node as int),
{
    assert(component[node as int] == before[node as int] || reaches(edge, start, node as int));
    assert(before[node as int] != id);
}

proof fn lemma_spread_twice(
    edge: Relation,
    before: Seq<u32>,
    component0: Seq<u32>,
    queue0: Seq<u32>,
    component1: Seq<u32>,
    queue1: Seq<u32>,
    component2: Seq<u32>,
    queue2: Seq<u32>,
    head: int,
    start: int,
    id: u32,
)
    requires
        spreading(edge, before, component0, queue0, head, start, id),
        0 <= start < before.len(),
        id < u32::MAX,
        component1.len() == before.len(),
        component2.len() == before.len(),
        queue0.len() <= queue1.len() <= queue2.len(),
        forall|i: int| 0 <= i < queue0.len() ==> #[trigger] queue1[i] == queue0[i],
        forall|i: int| 0 <= i < queue1.len() ==> #[trigger] queue2[i] == queue1[i],
        queue1.len() - queue0.len() == marked(labels(component1)) - marked(labels(component0)),
        queue2.len() - queue1.len() == marked(labels(component2)) - marked(labels(component1)),
        forall|i: int|
            queue0.len() <= i < queue1.len() ==> (#[trigger] queue1[i]) < before.len()
                && component1[queue1[i] as int] == id,
        forall|i: int|
            queue1.len() <= i < queue2.len() ==> (#[trigger] queue2[i]) < before.len()
                && component2[queue2[i] as int] == id,
        forall|v: int|
            0 <= v < before.len() ==> (#[trigger] component1[v] == component0[v] || component0[v]
                == u32::MAX && component1[v] == id && reaches(edge, start, v) && queued(
                queue1,
                queue0.len() as int,
                v,
            )),
        forall|v: int|
            0 <= v < before.len() ==> (#[trigger] component2[v] == component1[v] || component1[v]
                == u32::MAX && component2[v] == id && reaches(edge, start, v) && queued(
                queue2,
                queue1.len() as int,
                v,
            )),
        forall|i: int, to: int|
            0 <= i < head && #[trigger] edge(queue0[i] as int, to) ==> 0 <= to < before.len(),
    ensures
        spreading(edge, before, component2, queue2, head, start, id),
        forall|v: int|
            0 <= v < before.len() && component0[v] != u32::MAX ==> #[trigger] component2[v]
                == component0[v],
{
    assert forall|i: int| 0 <= i < queue2.len() implies (#[trigger] queue2[i]) < before.len()
        && component2[queue2[i] as int] == id by {
        if i < queue0.len() {
            assert(queue2[i] == queue1[i] && queue1[i] == queue0[i]);
            assert(component0[queue0[i] as int] == id);
            assert(component1[queue0[i] as int] == id);
        } else if i < queue1.len() {
            assert(queue2[i] == queue1[i]);
            assert(component1[queue1[i] as int] == id);
        }
    }
    assert forall|v: int| 0 <= v < before.len() implies (#[trigger] component2[v] == before[v]
        || before[v] == u32::MAX && component2[v] == id && reaches(edge, start, v) && queued(
        queue2,
        0,
        v,
    )) by {
        if component2[v] != component1[v] {
            assert(component1[v] == component0[v]);
            let i = choose|i: int| queue1.len() <= i < queue2.len() && #[trigger] queue2[i] == v;
            assert(queued(queue2, 0, v));
            assert(component0[v] == before[v] || component0[v] == id);
        } else if component1[v] != component0[v] {
            let i = choose|i: int| queue0.len() <= i < queue1.len() && #[trigger] queue1[i] == v;
            assert(queue2[i] == v);
            assert(component0[v] == before[v] || component0[v] == id);
        } else if component0[v] != before[v] {
            let i = choose|i: int| 0 <= i < queue0.len() && #[trigger] queue0[i] == v;
            assert(queue1[i] == v);
            assert(queue2[i] == v);
        }
    }
    assert forall|i: int, to: int|
        0 <= i < head && #[trigger] edge(queue2[i] as int, to) implies component2[to] != u32::MAX by {
        assert(queue2[i] == queue1[i] && queue1[i] == queue0[i]);
        assert(edge(queue0[i] as int, to));
        assert(component0[to] != u32::MAX);
        assert(component1[to] == component0[to]);
        assert(component2[to] == component1[to]);
    }
    assert(component1[start] == id && component2[start] == id);
}

/// Where every edge can be read either way, a walk can too.
proof fn lemma_walk_back(edge: Relation, from: int, to: int, hops: nat)
    requires
        forall|u: int, v: int| #[trigger] edge(u, v) ==> edge(v, u),
        steps(edge, from, to, hops),
    ensures
        reaches(edge, to, from),
    decreases hops,
{
    if hops == 0 {
        lemma_reaches_self(edge, from);
    } else {
        let middle = choose|middle: int|
            steps(edge, from, middle, (hops - 1) as nat) && #[trigger] edge(middle, to);
        lemma_walk_back(edge, from, middle, (hops - 1) as nat);
        lemma_one_edge(edge, to, middle);
        lemma_reaches_trans(edge, to, middle, from);
    }
}

/// The smallest node that reaches `node`, found below a node that does.
proof fn lemma_owner_exists(edge: Relation, node: int, bound: int) -> (owner: int)
    requires
        0 <= bound,
        reaches(edge, bound, node),
    ensures
        owns(edge, owner, node),
    decreases bound,
{
    if exists|smaller: int| 0 <= smaller < bound && #[trigger] reaches(edge, smaller, node) {
        let smaller = choose|smaller: int|
            0 <= smaller < bound && #[trigger] reaches(edge, smaller, node);
        lemma_owner_exists(edge, node, smaller)
    } else {
        bound
    }
}

/// Where each adjacency mirrors the other, two nodes have one weak component exactly when a walk over
/// edges of either direction leads from one to the other.
pub proof fn law_weak_components_are_connected(
    outgoing: Csr,
    incoming: Csr,
    component: Seq<u32>,
    left: int,
    right: int,
)
    requires
        mirrored(outgoing, incoming),
        weak_components(joined_edges(outgoing, incoming), component),
        0 <= left < component.len(),
        0 <= right < component.len(),
    ensures
        component[left] == component[right] <==> reaches(
            joined_edges(outgoing, incoming),
            left,
            right,
        ),
{
    let edge = joined_edges(outgoing, incoming);
    assert forall|u: int, v: int| #[trigger] edge(u, v) implies edge(v, u) by {
        assert(incoming.leads(u, v) <==> outgoing.leads(v, u));
        assert(incoming.leads(v, u) <==> outgoing.leads(u, v));
    }
    if component[left] == component[right] {
        let owner = choose|owner: int| #[trigger]
            owns(edge, owner, left) && owns(edge, owner, right);
        let hops = choose|hops: nat| #[trigger] steps(edge, owner, left, hops);
        lemma_walk_back(edge, owner, left, hops);
        lemma_reaches_trans(edge, left, owner, right);
    }
    if reaches(edge, left, right) {
        let hops = choose|hops: nat| #[trigger] steps(edge, left, right, hops);
        lemma_walk_back(edge, left, right, hops);
        lemma_reaches_self(edge, left);
        let owner = lemma_owner_exists(edge, left, left);
        lemma_reaches_trans(edge, owner, left, right);
        assert forall|smaller: int| 0 <= smaller < owner implies !#[trigger] reaches(
            edge,
            smaller,
            right,
        ) by {
            if reaches(edge, smaller, right) {
                lemma_reaches_trans(edge, smaller, right, left);
            }
        }
        assert(owns(edge, owner, right));
    }
}

/// Where each adjacency mirrors the other, the ends of every edge are in one weak component, and two
/// nodes of one component are joined by edges, each taken in either direction.
pub proof fn law_edges_join_components(
    outgoing: Csr,
    incoming: Csr,
    component: Seq<u32>,
    left: int,
    right: int,
)
    requires
        mirrored(outgoing, incoming),
        weak_components(joined_edges(outgoing, incoming), component),
        0 <= left < component.len(),
        0 <= right < component.len(),
    ensures
        outgoing.leads(left, right) ==> component[left] == component[right],
        outgoing.leads(right, left) ==> component[left] == component[right],
        component[left] == component[right] ==> exists|path: Seq<int>| #[trigger]
            joins(outgoing, path, left, right),
{
    let edge = joined_edges(outgoing, incoming);
    law_weak_components_are_connected(outgoing, incoming, component, left, right);
    assert(incoming.leads(left, right) <==> outgoing.leads(right, left));
    if outgoing.leads(left, right) || outgoing.leads(right, left) {
        assert(edge(left, right));
        crate::reach::lemma_one_edge(edge, left, right);
    }
    if component[left] == component[right] {
        let path = crate::reach::law_reached_along_a_path(edge, left, right);
        assert forall|i: int| 0 <= i < path.len() - 1 implies outgoing.leads(
            #[trigger] path[i],
            path[i + 1],
        ) || outgoing.leads(path[i + 1], path[i]) by {
            assert(edge(path[i], path[i + 1]));
            assert(incoming.leads(path[i], path[i + 1]) <==> outgoing.leads(path[i + 1], path[i]));
        }
        assert(joins(outgoing, path, left, right));
    }
}

/// Edges, each taken in either direction, join two nodes along a path.
pub open spec fn joins(outgoing: Csr, path: Seq<int>, left: int, right: int) -> bool {
    &&& path.len() > 0
    &&& path[0] == left
    &&& path.last() == right
    &&& forall|i: int|
        0 <= i < path.len() - 1 ==> outgoing.leads(#[trigger] path[i], path[i + 1])
            || outgoing.leads(path[i + 1], path[i])
}

/// Components are numbered in the order in which their first nodes come, without a gap.
pub proof fn law_components_are_numbered_in_order(component: Seq<u32>, count: int, node: int)
    requires
        canonical(component, count),
        0 <= node < component.len(),
    ensures
        component[node] < count,
        component[0] == 0,
        component[node] > 0 ==> exists|earlier: int|
            0 <= earlier < node && #[trigger] component[earlier] == component[node] - 1,
{
    if component[0] > 0 {
        assert(occurs_before(component, 0, 0));
    }
    if component[node] > 0 {
        assert(occurs_before(component, node, component[node] - 1));
    }
}

} // verus!
