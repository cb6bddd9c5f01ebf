//! Undirected neighborhoods: triangles, neighborhood links and core numbers.

use crate::algorithms::components::validate_pair;
use crate::algorithms::strong::mirrored;
use crate::algorithms::traversal::{lemma_leads_row, never_cancelled, node_count_of};
use crate::cancel::{ask, goes_on};
use crate::csr::Csr;
use crate::error::{fails_with, Error, ErrorCode, Result};
use crate::order::{lemma_permutation, sort_keys, sorted};
use vstd::prelude::*;

verus! {

/// Two nodes are neighbors: an edge of either adjacency joins them, and they differ.
pub open spec fn adjacent(outgoing: Csr, incoming: Csr, node: int, other: int) -> bool {
    node != other && (outgoing.leads(node, other) || incoming.leads(node, other))
}

/// Strictly ascending nodes.
pub open spec fn ascending(nodes: Seq<u32>) -> bool {
    forall|i: int, j: int|
        0 <= i < j < nodes.len() ==> #[trigger] nodes[i] < #[trigger] nodes[j]
}

/// For each node, its neighbors in ascending order.
pub open spec fn neighbor_lists(outgoing: Csr, incoming: Csr, lists: Seq<Vec<u32>>) -> bool {
    &&& lists.len() == outgoing.node_total()
    &&& forall|node: int|
        0 <= node < lists.len() ==> is_neighbor_list(
            outgoing,
            incoming,
            node,
            (#[trigger] lists[node])@,
        )
}

pub open spec fn is_neighbor_list(
    outgoing: Csr,
    incoming: Csr,
    node: int,
    list: Seq<u32>,
) -> bool {
    &&& ascending(list)
    &&& forall|other: u32| #[trigger]
        list.contains(other) <==> adjacent(outgoing, incoming, node, other as int)
}

fn collect_neighbors(adjacency: &Csr, node: u32, keys: &mut Vec<u128>)
    requires
        adjacency.targets_are_rows(),
    ensures
        forall|key: u128| #[trigger]
            final(keys)@.contains(key) <==> old(keys)@.contains(key) || key <= u32::MAX && key
                != node && adjacency.leads(node as int, key as int),
{
    let neighbors = adjacency.neighbors();
    let ghost before = keys@;
    if let Some((start, end)) = adjacency.row_bounds(node) {
        for place in start..end
            invariant
                neighbors@ == adjacency.spec_neighbors(),
                adjacency.spec_row(node as int) is Some,
                start == adjacency.spec_offsets()[node as int],
                end == adjacency.spec_offsets()[node + 1],
                start <= end <= neighbors.len(),
                adjacency.spec_row(node as int)->Some_0.len() == end - start,
                forall|key: u128| #[trigger]
                    keys@.contains(key) <==> before.contains(key) || exists|k: int|
                        start <= k < place && #[trigger] neighbors@[k] == key && key != node,
        {
            let neighbor: u32 = neighbors[place];
            let ghost keys0 = keys@;
            if neighbor != node {
                keys.push(neighbor as u128);
            }
            proof {
                assert forall|key: u128| #[trigger] keys@.contains(key) <==> before.contains(key)
                    || exists|k: int|
                    start <= k < place + 1 && #[trigger] neighbors@[k] == key && key != node by {
                    assert(keys0.contains(key) <==> before.contains(key) || exists|k: int|
                        start <= k < place && #[trigger] neighbors@[k] == key && key != node);
                    if keys@.contains(key) && !keys0.contains(key) {
                        let i = choose|i: int| 0 <= i < keys@.len() && keys@[i] == key;
                        if i < keys0.len() {
                            assert(keys0[i] == key);
                        }
                        assert(neighbors@[place as int] == key);
                    }
                    if keys0.contains(key) {
                        let i = choose|i: int| 0 <= i < keys0.len() && keys0[i] == key;
                        assert(keys@[i] == key);
                    }
                    if neighbor == key && key != node {
                        assert(keys@[keys0.len() as int] == key);
                    }
                }
            }
        }
        proof {
            assert forall|key: u128| #[trigger] keys@.contains(key) <==> before.contains(key) || key
                <= u32::MAX && key != node && adjacency.leads(node as int, key as int) by {
                let row = adjacency.spec_row(node as int)->Some_0;
                if key <= u32::MAX && key != node && adjacency.leads(node as int, key as int) {
                    let i = choose|i: int|
                        0 <= i < row.len() && (#[trigger] row[i]).0 == key as int;
                    assert(neighbors@[start + i] == key);
                }
                if exists|k: int|
                    start <= k < end && #[trigger] neighbors@[k] == key && key != node {
                    let k = choose|k: int|
                        start <= k < end && #[trigger] neighbors@[k] == key && key != node;
                    assert(row[k - start].0 == key);
                }
            }
        }
    }
}

/// Sorted keys below 2 to the 32 as nodes, each once.
fn distinct_nodes(keys: &Vec<u128>) -> (nodes: Vec<u32>)
    requires
        sorted(keys@),
        forall|i: int| 0 <= i < keys@.len() ==> (#[trigger] keys@[i]) <= u32::MAX,
    ensures
        ascending(nodes@),
        forall|node: u32| #[trigger] nodes@.contains(node) <==> keys@.contains(node as u128),
{
    let mut nodes: Vec<u32> = Vec::new();
    for index in 0..keys.len()
        invariant
            sorted(keys@),
            forall|i: int| 0 <= i < keys@.len() ==> (#[trigger] keys@[i]) <= u32::MAX,
            ascending(nodes@),
            forall|i: int|
                0 <= i < nodes.len() ==> keys@.contains((#[trigger] nodes@[i]) as u128),
            forall|i: int| 0 <= i < index ==> nodes@.contains((#[trigger] keys@[i]) as u32),
            index > 0 ==> nodes.len() > 0 && nodes@.last() == keys@[index - 1],
            index == 0 ==> nodes.len() == 0,
    {
        let ghost nodes0 = nodes@;
        let key: u128 = keys[index];
        let repeated: bool = index > 0 && keys[index - 1] == key;
        if !repeated {
            nodes.push(key as u32);
            assert(nodes@[nodes0.len() as int] == key as u32);
            assert(index > 0 ==> keys@[index - 1] <= keys@[index as int]);
            assert forall|i: int, j: int| 0 <= i < j < nodes.len() implies #[trigger] nodes@[i]
                < #[trigger] nodes@[j] by {
                if j == nodes0.len() {
                    if i < nodes0.len() - 1 {
                        assert(nodes0[i] < nodes0[nodes0.len() - 1]);
                    }
                } else {
                    assert(nodes0[i] < nodes0[j]);
                }
            }
        }
        proof {
            assert(keys@[index as int] == key);
            assert forall|i: int| 0 <= i < nodes.len() implies keys@.contains(
                (#[trigger] nodes@[i]) as u128,
            ) by {
                if i < nodes0.len() {
                    assert(nodes@[i] == nodes0[i]);
                }
            }
            assert forall|i: int| 0 <= i < index + 1 implies nodes@.contains(
                (#[trigger] keys@[i]) as u32,
            ) by {
                let wanted = if i == index && repeated {
                    keys@[index - 1] as u32
                } else {
                    keys@[i] as u32
                };
                if i < index || repeated {
                    assert(nodes0.contains(wanted));
                    let k = choose|k: int| 0 <= k < nodes0.len() && nodes0[k] == wanted;
                    assert(nodes@[k] == wanted);
                }
            }
        }
    }
    proof {
        assert forall|node: u32| #[trigger] nodes@.contains(node) <==> keys@.contains(
            node as u128,
        ) by {
            if nodes@.contains(node) {
                let i = choose|i: int| 0 <= i < nodes@.len() && nodes@[i] == node;
                assert(keys@.contains(nodes@[i] as u128));
            }
            if keys@.contains(node as u128) {
                let i = choose|i: int| 0 <= i < keys@.len() && keys@[i] == node as u128;
                assert(nodes@.contains(keys@[i] as u32));
            }
        }
    }
    nodes
}

/// The neighbors of every node, without self-loops or repeats.
pub(crate) fn undirected_neighbors(outgoing: &Csr, incoming: &Csr) -> (lists: Result<
    Vec<Vec<u32>>,
>)
    requires
        outgoing.targets_are_rows(),
        incoming.targets_are_rows(),
        outgoing.node_total() <= u32::MAX,
    ensures
        if outgoing.spec_offsets().len() == incoming.spec_offsets().len() {
            lists is Ok && neighbor_lists(*outgoing, *incoming, lists->Ok_0@)
        } else {
            fails_with(lists, ErrorCode::InvalidData, "CSR and CSC node counts differ"@)
        },
{
    match validate_pair(outgoing, incoming) {
        Ok(_) => {},
        Err(error) => {
            return Err(error);
        },
    }
    let node_count: usize = node_count_of(outgoing);
    let mut lists: Vec<Vec<u32>> = Vec::with_capacity(node_count);
    for node in 0..node_count
        invariant
            outgoing.targets_are_rows(),
            incoming.targets_are_rows(),
            node_count == outgoing.node_total(),
            incoming.node_total() == outgoing.node_total(),
            node_count <= u32::MAX,
            lists.len() == node,
            forall|v: int|
                0 <= v < node ==> is_neighbor_list(
                    *outgoing,
                    *incoming,
                    v,
                    (#[trigger] lists@[v])@,
                ),
    {
        let mut keys: Vec<u128> = Vec::new();
        collect_neighbors(outgoing, node as u32, &mut keys);
        collect_neighbors(incoming, node as u32, &mut keys);
        let ghost unsorted = keys@;
        sort_keys(&mut keys);
        proof {
            lemma_permutation(keys@, unsorted);
            assert forall|i: int| 0 <= i < keys@.len() implies (#[trigger] keys@[i]) <= u32::MAX by {
                assert(keys@.contains(keys@[i]));
                assert(unsorted.contains(keys@[i]));
            }
        }
        let list = distinct_nodes(&keys);
        proof {
            assert forall|other: u32| #[trigger] list@.contains(other) <==> adjacent(
                *outgoing,
                *incoming,
                node as int,
                other as int,
            ) by {
                assert(keys@.contains(other as u128) == unsorted.contains(other as u128));
            }
        }
        lists.push(list);
    }
    Ok(lists)
}

/// First position above a node in ascending nodes.
fn first_above(list: &Vec<u32>, node: u32) -> (place: usize)
    requires
        ascending(list@),
    ensures
        place <= list.len(),
        forall|i: int| 0 <= i < place ==> (#[trigger] list@[i]) <= node,
        forall|i: int| place <= i < list.len() ==> (#[trigger] list@[i]) > node,
{
    let mut low: usize = 0;
    let mut high: usize = list.len();
    while low < high
        invariant
            low <= high <= list.len(),
            ascending(list@),
            forall|i: int| 0 <= i < low ==> (#[trigger] list@[i]) <= node,
            forall|i: int| high <= i < list.len() ==> (#[trigger] list@[i]) > node,
        decreases high - low,
    {
        let middle: usize = low + (high - low) / 2;
        if list[middle] <= node {
            assert forall|i: int| 0 <= i < middle + 1 implies (#[trigger] list@[i]) <= node by {
                if i < middle {
                    assert(list@[i] < list@[middle as int]);
                }
            }
            low = middle + 1;
        } else {
            assert forall|i: int| middle <= i < list.len() implies (#[trigger] list@[i]) > node by {
                if i > middle {
                    assert(list@[middle as int] < list@[i]);
                }
            }
            high = middle;
        }
    }
    low
}

fn holds(list: &Vec<u32>, node: u32) -> (present: bool)
    requires
        ascending(list@),
    ensures
        present == list@.contains(node),
{
    let place: usize = first_above(list, node);
    let present = place > 0 && list[place - 1] == node;
    proof {
        if present {
            assert(list@[place - 1] == node);
        }
        if list@.contains(node) {
            let i = choose|i: int| 0 <= i < list@.len() && list@[i] == node;
            assert(i < place);
            if i < place - 1 {
                assert(list@[i] < list@[place - 1]);
                assert(list@[place - 1] <= node);
            }
        }
    }
    present
}

/// Three nodes in ascending order, each two of them neighbors.
pub open spec fn is_triangle(outgoing: Csr, incoming: Csr, corners: (int, int, int)) -> bool {
    &&& 0 <= corners.0 < corners.1 < corners.2 < outgoing.node_total()
    &&& adjacent(outgoing, incoming, corners.0, corners.1)
    &&& adjacent(outgoing, incoming, corners.1, corners.2)
    &&& adjacent(outgoing, incoming, corners.0, corners.2)
}

/// All triangles, each once.
pub open spec fn triangles(outgoing: Csr, incoming: Csr) -> Set<(int, int, int)> {
    Set::new(|corners: (int, int, int)| is_triangle(outgoing, incoming, corners))
}

/// Triangles depend on which nodes are adjacent alone: neither the direction of an edge, nor a
/// parallel edge, nor an edge from a node to itself makes a difference.
pub proof fn law_triangles_depend_on_adjacency(
    outgoing: Csr,
    incoming: Csr,
    other_outgoing: Csr,
    other_incoming: Csr,
)
    requires
        outgoing.node_total() == other_outgoing.node_total(),
        forall|node: int, other: int| #[trigger]
            adjacent(outgoing, incoming, node, other) == adjacent(
                other_outgoing,
                other_incoming,
                node,
                other,
            ),
    ensures
        triangles(outgoing, incoming) == triangles(other_outgoing, other_incoming),
{
    assert(triangles(outgoing, incoming) =~= triangles(other_outgoing, other_incoming));
}

/// Exchanging the two directions leaves the triangles as they are.
pub proof fn law_triangles_ignore_direction(outgoing: Csr, incoming: Csr)
    requires
        outgoing.node_total() == incoming.node_total(),
    ensures
        triangles(outgoing, incoming) == triangles(incoming, outgoing),
{
    law_triangles_depend_on_adjacency(outgoing, incoming, incoming, outgoing);
}

/// One of the first `count` nodes of a list.
spec fn among(nodes: Seq<u32>, count: int, node: int) -> bool {
    exists|i: int| 0 <= i < count && #[trigger] nodes[i] == node
}

proof fn lemma_among_step(nodes: Seq<u32>, count: int, node: int)
    requires
        0 <= count < nodes.len(),
    ensures
        among(nodes, count + 1, node) <==> among(nodes, count, node) || nodes[count] == node,
{
    if among(nodes, count + 1, node) {
        let i = choose|i: int| 0 <= i < count + 1 && #[trigger] nodes[i] == node;
        if i < count {
            assert(among(nodes, count, node));
        }
    }
    if among(nodes, count, node) {
        let i = choose|i: int| 0 <= i < count && #[trigger] nodes[i] == node;
        assert(nodes[i] == node);
    }
    if nodes[count] == node {
        assert(among(nodes, count + 1, node));
    }
}

pub proof fn lemma_adjacent_rows(outgoing: Csr, incoming: Csr, node: int, other: int)
    requires
        outgoing.targets_are_rows(),
        incoming.targets_are_rows(),
        incoming.node_total() == outgoing.node_total(),
        adjacent(outgoing, incoming, node, other),
    ensures
        0 <= node < outgoing.node_total(),
        0 <= other < outgoing.node_total(),
{
    if outgoing.leads(node, other) {
        lemma_leads_row(outgoing, node, other);
    } else {
        lemma_leads_row(incoming, node, other);
    }
}

/// Triangles whose first corner is below `first`, or is `first` and whose second corner is one of
/// the first `seconds` of its list, or whose second corner is the next of them and whose third is
/// one of the first `thirds` of the list of that one.
spec fn counted(
    outgoing: Csr,
    incoming: Csr,
    lists: Seq<Vec<u32>>,
    first: int,
    seconds: int,
    thirds: int,
) -> Set<(int, int, int)> {
    Set::new(
        |t: (int, int, int)|
            is_triangle(outgoing, incoming, t) && (t.0 < first || t.0 == first && (among(
                lists[first]@,
                seconds,
                t.1,
            ) || 0 <= seconds < lists[first]@.len() && t.1 == lists[first]@[seconds] && among(
                lists[t.1]@,
                thirds,
                t.2,
            ))),
    )
}

/// Counts triangles in the undirected projection of the graph.
pub fn triangle_count(outgoing: &Csr, incoming: &Csr) -> (result: Result<u64>)
    requires
        outgoing.targets_are_rows(),
        incoming.targets_are_rows(),
        outgoing.node_total() <= u32::MAX,
    ensures
        triangle_outcome(*outgoing, *incoming, result),
{
    triangle_count_cancellable(outgoing, incoming, never_cancelled)
}

/// The place of an adjacency that leads from one node to another.
spec fn entry_at(csr: Csr, place: int, from: int, to: int) -> bool {
    &&& 0 <= from
    &&& from + 1 < csr.spec_offsets().len()
    &&& csr.spec_offsets()[from] <= place < csr.spec_offsets()[from + 1]
    &&& place < csr.spec_neighbors().len()
    &&& csr.spec_neighbors()[place] == to
}

/// The place that leads from one node to another, the places of the second adjacency behind those of
/// the first.
spec fn link_at(outgoing: Csr, incoming: Csr, place: int, from: int, to: int) -> bool {
    let first = outgoing.spec_neighbors().len();
    if place < first {
        entry_at(outgoing, place, from, to)
    } else {
        entry_at(incoming, place - first, from, to)
    }
}

spec fn link(outgoing: Csr, incoming: Csr, from: int, to: int) -> int {
    choose|place: int| link_at(outgoing, incoming, place, from, to)
}

proof fn lemma_link(outgoing: Csr, incoming: Csr, from: int, to: int)
    requires
        adjacent(outgoing, incoming, from, to),
    ensures
        link_at(outgoing, incoming, link(outgoing, incoming, from, to), from, to),
        0 <= link(outgoing, incoming, from, to) < outgoing.spec_neighbors().len()
            + incoming.spec_neighbors().len(),
{
    let first = outgoing.spec_neighbors().len() as int;
    if outgoing.leads(from, to) {
        let row = outgoing.spec_row(from)->Some_0;
        let i = choose|i: int| 0 <= i < row.len() && (#[trigger] row[i]).0 == to;
        assert(link_at(outgoing, incoming, outgoing.spec_offsets()[from] + i, from, to));
    } else {
        let row = incoming.spec_row(from)->Some_0;
        let i = choose|i: int| 0 <= i < row.len() && (#[trigger] row[i]).0 == to;
        assert(link_at(outgoing, incoming, first + incoming.spec_offsets()[from] + i, from, to));
    }
}

proof fn lemma_entry_unique(csr: Csr, place: int, from: int, to: int, source: int, target: int)
    requires
        csr.wf(),
        entry_at(csr, place, from, to),
        entry_at(csr, place, source, target),
    ensures
        from == source,
        to == target,
{
    if from < source {
        assert(csr.spec_offsets()[from + 1] <= csr.spec_offsets()[source]);
    } else if source < from {
        assert(csr.spec_offsets()[source + 1] <= csr.spec_offsets()[from]);
    }
}

/// The number of a triangle seen from one of its corners: the place of the opposite side, and the
/// corner.
spec fn side_code(outgoing: Csr, incoming: Csr, t: (int, int, int), corner: int) -> int {
    let total = outgoing.node_total();
    if corner == 0 {
        link(outgoing, incoming, t.1, t.2) * total + t.0
    } else if corner == 1 {
        link(outgoing, incoming, t.0, t.2) * total + t.1
    } else {
        link(outgoing, incoming, t.0, t.1) * total + t.2
    }
}

proof fn lemma_split(total: int, place: int, node: int, other_place: int, other: int)
    requires
        0 <= node < total,
        0 <= other < total,
        place * total + node == other_place * total + other,
    ensures
        place == other_place,
        node == other,
{
    vstd::arithmetic::div_mod::lemma_fundamental_div_mod_converse(
        place * total + node,
        total,
        place,
        node,
    );
    vstd::arithmetic::div_mod::lemma_fundamental_div_mod_converse(
        place * total + node,
        total,
        other_place,
        other,
    );
}

/// The opposite side and the corner of a triangle.
spec fn side_of(t: (int, int, int), corner: int) -> (int, int, int) {
    if corner == 0 {
        (t.1, t.2, t.0)
    } else if corner == 1 {
        (t.0, t.2, t.1)
    } else {
        (t.0, t.1, t.2)
    }
}

/// The number tells the triangle and the corner.
proof fn lemma_side_code(
    outgoing: Csr,
    incoming: Csr,
    t: (int, int, int),
    corner: int,
    u: (int, int, int),
    other: int,
)
    requires
        outgoing.wf(),
        incoming.wf(),
        is_triangle(outgoing, incoming, t),
        is_triangle(outgoing, incoming, u),
        0 <= corner < 3,
        0 <= other < 3,
        side_code(outgoing, incoming, t, corner) == side_code(outgoing, incoming, u, other),
    ensures
        t == u,
        corner == other,
{
    let left = side_of(t, corner);
    let right = side_of(u, other);
    let place = link(outgoing, incoming, left.0, left.1);
    let other_place = link(outgoing, incoming, right.0, right.1);
    lemma_link(outgoing, incoming, left.0, left.1);
    lemma_link(outgoing, incoming, right.0, right.1);
    lemma_split(outgoing.node_total(), place, left.2, other_place, right.2);
    let first = outgoing.spec_neighbors().len() as int;
    if place < first {
        lemma_entry_unique(outgoing, place, left.0, left.1, right.0, right.1);
    } else {
        lemma_entry_unique(incoming, place - first, left.0, left.1, right.0, right.1);
    }
}

proof fn lemma_side_range(outgoing: Csr, incoming: Csr, t: (int, int, int), corner: int)
    requires
        is_triangle(outgoing, incoming, t),
        0 <= corner < 3,
    ensures
        0 <= side_code(outgoing, incoming, t, corner) < (outgoing.spec_neighbors().len()
            + incoming.spec_neighbors().len()) * outgoing.node_total(),
{
    let side = side_of(t, corner);
    let total = outgoing.node_total();
    let places = (outgoing.spec_neighbors().len() + incoming.spec_neighbors().len()) as int;
    lemma_link(outgoing, incoming, side.0, side.1);
    let place = link(outgoing, incoming, side.0, side.1);
    assert(0 <= place * total + side.2 < places * total) by (nonlinear_arith)
        requires
            0 <= place < places,
            0 <= side.2 < total,
    ;
}

/// However many triangles are counted, 64 bits suffice: every triangle is seen from three corners, and
/// each time a side and a node are told apart by it.
pub proof fn law_triangle_count_fits(outgoing: Csr, incoming: Csr, counted: Set<(int, int, int)>)
    requires
        outgoing.wf(),
        incoming.wf(),
        outgoing.node_total() <= u32::MAX,
        counted.finite(),
        counted.subset_of(triangles(outgoing, incoming)),
    ensures
        counted.len() <= u64::MAX,
{
    let total = outgoing.node_total();
    let places = (outgoing.spec_neighbors().len() + incoming.spec_neighbors().len()) as int;
    let code0 = |t: (int, int, int)| side_code(outgoing, incoming, t, 0);
    let code1 = |t: (int, int, int)| side_code(outgoing, incoming, t, 1);
    let code2 = |t: (int, int, int)| side_code(outgoing, incoming, t, 2);
    let seen0 = counted.map(code0);
    let seen1 = counted.map(code1);
    let seen2 = counted.map(code2);
    assert forall|t: (int, int, int)| #[trigger] counted.contains(t) implies is_triangle(
        outgoing,
        incoming,
        t,
    ) by {
        assert(triangles(outgoing, incoming).contains(t));
    }
    assert forall|t: (int, int, int), u: (int, int, int)|
        counted.contains(t) && counted.contains(u) && #[trigger] code0(t) == #[trigger] code0(
            u,
        ) implies t == u by {
        lemma_side_code(outgoing, incoming, t, 0, u, 0);
    }
    assert forall|t: (int, int, int), u: (int, int, int)|
        counted.contains(t) && counted.contains(u) && #[trigger] code1(t) == #[trigger] code1(
            u,
        ) implies t == u by {
        lemma_side_code(outgoing, incoming, t, 1, u, 1);
    }
    assert forall|t: (int, int, int), u: (int, int, int)|
        counted.contains(t) && counted.contains(u) && #[trigger] code2(t) == #[trigger] code2(
            u,
        ) implies t == u by {
        lemma_side_code(outgoing, incoming, t, 2, u, 2);
    }
    vstd::set_lib::lemma_map_size(counted, seen0, code0);
    vstd::set_lib::lemma_map_size(counted, seen1, code1);
    vstd::set_lib::lemma_map_size(counted, seen2, code2);
    let all = vstd::set_lib::set_int_range(0, places * total);
    assert(0 <= places * total) by (nonlinear_arith)
        requires
            0 <= places,
            0 <= total,
    ;
    vstd::set_lib::lemma_int_range(0, places * total);
    assert forall|code: int| #[trigger] seen0.contains(code) implies all.contains(code) by {
        let t = choose|t: (int, int, int)| counted.contains(t) && code0(t) == code;
        lemma_side_range(outgoing, incoming, t, 0);
    }
    assert forall|code: int| #[trigger] seen1.contains(code) implies all.contains(code)
        && !seen0.contains(code) by {
        let t = choose|t: (int, int, int)| counted.contains(t) && code1(t) == code;
        lemma_side_range(outgoing, incoming, t, 1);
        if seen0.contains(code) {
            let u = choose|u: (int, int, int)| counted.contains(u) && code0(u) == code;
            lemma_side_code(outgoing, incoming, t, 1, u, 0);
        }
    }
    assert forall|code: int| #[trigger] seen2.contains(code) implies all.contains(code)
        && !seen0.contains(code) && !seen1.contains(code) by {
        let t = choose|t: (int, int, int)| counted.contains(t) && code2(t) == code;
        lemma_side_range(outgoing, incoming, t, 2);
        if seen0.contains(code) {
            let u = choose|u: (int, int, int)| counted.contains(u) && code0(u) == code;
            lemma_side_code(outgoing, incoming, t, 2, u, 0);
        }
        if seen1.contains(code) {
            let u = choose|u: (int, int, int)| counted.contains(u) && code1(u) == code;
            lemma_side_code(outgoing, incoming, t, 2, u, 1);
        }
    }
    let two = seen0 + seen1;
    assert(seen0.disjoint(seen1));
    vstd::set_lib::lemma_set_disjoint_lens(seen0, seen1);
    assert(two.disjoint(seen2));
    vstd::set_lib::lemma_set_disjoint_lens(two, seen2);
    assert((two + seen2).subset_of(all));
    vstd::set_lib::lemma_len_subset(two + seen2, all);
    assert(outgoing.spec_neighbors().len() <= u32::MAX);
    assert(incoming.spec_neighbors().len() <= u32::MAX);
    assert(places * total <= 0x1_ffff_fffe * 0xffff_ffff) by (nonlinear_arith)
        requires
            0 <= places <= 0x1_ffff_fffe,
            0 <= total <= 0xffff_ffff,
    ;
}

/// The number of triangles. Where it does not fit, the offsets of an adjacency are out of order, and
/// some set of triangles has too many members.
pub open spec fn triangle_outcome(outgoing: Csr, incoming: Csr, result: Result<u64>) -> bool {
    if outgoing.spec_offsets().len() == incoming.spec_offsets().len() {
        match result {
            Ok(count) => {
                &&& triangles(outgoing, incoming).finite()
                &&& count == triangles(outgoing, incoming).len()
            },
            Err(error) => {
                &&& error.is(ErrorCode::ResultBudgetExceeded, "triangle count overflow"@)
                &&& !(outgoing.wf() && incoming.wf())
                &&& exists|some: Set<(int, int, int)>|
                    #![trigger some.finite()]
                    some.finite() && some.subset_of(triangles(outgoing, incoming)) && some.len()
                        > u64::MAX
            },
        }
    } else {
        fails_with(result, ErrorCode::InvalidData, "CSR and CSC node counts differ"@)
    }
}

/// Counts triangles with cancellation checks.
#[verifier::rlimit(60)]
#[verifier::spinoff_prover]
pub fn triangle_count_cancellable<F: FnMut() -> Result<()>>(
    outgoing: &Csr,
    incoming: &Csr,
    check: F,
) -> (result: Result<u64>)
    requires
        outgoing.targets_are_rows(),
        incoming.targets_are_rows(),
        outgoing.node_total() <= u32::MAX,
        call_requires(check, ()),
    ensures
        triangle_outcome(*outgoing, *incoming, result) && (result is Ok && outgoing.node_total() > 0
            ==> goes_on(check)) || outgoing.node_total() > 0 && (result matches Err(error)
            && call_ensures(check, (), Err::<(), Error>(error))),
{
    let mut poll = check;
    let lists = match undirected_neighbors(outgoing, incoming) {
        Ok(lists) => lists,
        Err(error) => {
            return Err(error);
        },
    };
    let mut count: u64 = 0;
    let ghost mut found: Set<(int, int, int)> = Set::empty();
    assert(found =~= counted(*outgoing, *incoming, lists@, 0, 0, 0)) by {
        assert forall|t: (int, int, int)| !counted(*outgoing, *incoming, lists@, 0, 0, 0).contains(
            t,
        ) by {}
    }
    for first in 0..lists.len()
        invariant
            outgoing.targets_are_rows(),
            incoming.targets_are_rows(),
            incoming.node_total() == outgoing.node_total(),
            outgoing.spec_offsets().len() == incoming.spec_offsets().len(),
            outgoing.node_total() <= u32::MAX,
            poll == check,
            call_requires(poll, ()),
            neighbor_lists(*outgoing, *incoming, lists@),
            found.finite(),
            count == found.len(),
            found == counted(*outgoing, *incoming, lists@, first as int, 0, 0),
            first > 0 ==> goes_on(check),
    {
        if first % 256 == 0 {
            match ask(&mut poll) {
                Ok(_) => {},
                Err(error) => {
                    return Err(error);
                },
            }
        }
        let list = &lists[first];
        assert(is_neighbor_list(*outgoing, *incoming, first as int, list@));
        let start: usize = first_above(list, first as u32);
        proof {
            assert(found =~= counted(
                *outgoing,
                *incoming,
                lists@,
                first as int,
                start as int,
                0,
            ));
        }
        for seconds in start..list.len()
            invariant
                outgoing.targets_are_rows(),
                incoming.targets_are_rows(),
                incoming.node_total() == outgoing.node_total(),
                outgoing.spec_offsets().len() == incoming.spec_offsets().len(),
                outgoing.node_total() <= u32::MAX,
                neighbor_lists(*outgoing, *incoming, lists@),
                first < lists.len(),
                *list == lists@[first as int],
                is_neighbor_list(*outgoing, *incoming, first as int, list@),
                forall|i: int| start <= i < list.len() ==> (#[trigger] list@[i]) > first,
                found.finite(),
                count == found.len(),
                found == counted(
                    *outgoing,
                    *incoming,
                    lists@,
                    first as int,
                    seconds as int,
                    0,
                ),
        {
            let second: u32 = list[seconds];
            proof {
                assert(list@.contains(second));
                lemma_adjacent_rows(*outgoing, *incoming, first as int, second as int);
            }
            let inner = &lists[second as usize];
            assert(is_neighbor_list(*outgoing, *incoming, second as int, inner@));
            let inner_start: usize = first_above(inner, second);
            proof {
                assert(found =~= counted(
                    *outgoing,
                    *incoming,
                    lists@,
                    first as int,
                    seconds as int,
                    inner_start as int,
                ));
            }
            for thirds in inner_start..inner.len()
                invariant
                    outgoing.targets_are_rows(),
                    incoming.targets_are_rows(),
                    incoming.node_total() == outgoing.node_total(),
                    outgoing.spec_offsets().len() == incoming.spec_offsets().len(),
                    outgoing.node_total() <= u32::MAX,
                    first < second < lists.len(),
                    *list == lists@[first as int],
                    *inner == lists@[second as int],
                    seconds < list.len(),
                    list@[seconds as int] == second,
                    is_neighbor_list(*outgoing, *incoming, first as int, list@),
                    is_neighbor_list(*outgoing, *incoming, second as int, inner@),
                    adjacent(*outgoing, *incoming, first as int, second as int),
                    forall|i: int|
                        inner_start <= i < inner.len() ==> (#[trigger] inner@[i]) > second,
                    found.finite(),
                    count == found.len(),
                    found == counted(
                        *outgoing,
                        *incoming,
                        lists@,
                        first as int,
                        seconds as int,
                        thirds as int,
                    ),
            {
                let third: u32 = inner[thirds];
                let ghost corner = (first as int, second as int, third as int);
                let ghost next = counted(
                    *outgoing,
                    *incoming,
                    lists@,
                    first as int,
                    seconds as int,
                    thirds + 1,
                );
                proof {
                    assert(inner@.contains(third));
                    lemma_adjacent_rows(*outgoing, *incoming, second as int, third as int);
                    assert forall|t: (int, int, int)| next.contains(t) <==> found.contains(t) || (t
                        == corner && is_triangle(*outgoing, *incoming, t)) by {
                        lemma_among_step(inner@, thirds as int, t.2);
                    }
                    assert(!found.contains(corner)) by {
                        if among(list@, seconds as int, second as int) {
                            let i = choose|i: int|
                                0 <= i < seconds && #[trigger] list@[i] == second as int;
                            assert(list@[i] < list@[seconds as int]);
                        }
                        if among(inner@, thirds as int, third as int) {
                            let i = choose|i: int|
                                0 <= i < thirds && #[trigger] inner@[i] == third as int;
                            assert(inner@[i] < inner@[thirds as int]);
                        }
                    }
                }
                if holds(list, third) {
                    let ghost grown = found.insert(corner);
                    proof {
                        assert(is_triangle(*outgoing, *incoming, corner));
                        assert(grown =~= next);
                    }
                    count = match count.checked_add(1) {
                        Some(count) => count,
                        None => {
                            proof {
                                assert(grown.finite());
                                assert(grown.len() == found.len() + 1);
                                assert(grown.subset_of(triangles(*outgoing, *incoming)));
                                if outgoing.wf() && incoming.wf() {
                                    law_triangle_count_fits(*outgoing, *incoming, grown);
                                }
                            }
                            return Err(
                                Error::new(
                                    ErrorCode::ResultBudgetExceeded,
                                    "triangle count overflow",
                                ),
                            );
                        },
                    };
                    proof {
                        found = grown;
                    }
                } else {
                    proof {
                        assert(!is_triangle(*outgoing, *incoming, corner));
                        assert(found =~= next);
                    }
                }
            }
            proof {
                let done = counted(
                    *outgoing,
                    *incoming,
                    lists@,
                    first as int,
                    seconds + 1,
                    0,
                );
                assert forall|t: (int, int, int)| done.contains(t) <==> found.contains(t) by {
                    lemma_among_step(list@, seconds as int, t.1);
                    if t.0 == first && t.1 == second && is_triangle(*outgoing, *incoming, t) {
                        assert(inner@.contains(t.2 as u32));
                        let i = choose|i: int| 0 <= i < inner@.len() && inner@[i] == t.2 as u32;
                        assert(among(inner@, inner@.len() as int, t.2));
                    }
                }
                assert(found =~= done);
            }
        }
        proof {
            let done = counted(*outgoing, *incoming, lists@, first + 1, 0, 0);
            assert forall|t: (int, int, int)| done.contains(t) <==> found.contains(t) by {
                if t.0 == first && is_triangle(*outgoing, *incoming, t) {
                    assert(list@.contains(t.1 as u32));
                    let i = choose|i: int| 0 <= i < list@.len() && list@[i] == t.1 as u32;
                    assert(among(list@, list@.len() as int, t.1));
                }
            }
            assert(found =~= done);
        }
    }
    proof {
        assert(found =~= triangles(*outgoing, *incoming));
    }
    Ok(count)
}

/// Pairs of neighbors of a node, smaller one first, that are neighbors of each other.
pub open spec fn linked_pairs(outgoing: Csr, incoming: Csr, node: int) -> Set<(int, int)> {
    Set::new(
        |pair: (int, int)|
            pair.0 < pair.1 && adjacent(outgoing, incoming, node, pair.0) && adjacent(
                outgoing,
                incoming,
                node,
                pair.1,
            ) && adjacent(outgoing, incoming, pair.0, pair.1),
    )
}

/// Neighbors of a node.
pub open spec fn neighbor_set(outgoing: Csr, incoming: Csr, node: int) -> Set<int> {
    Set::new(|other: int| adjacent(outgoing, incoming, node, other))
}

/// For every node, how many pairs of its neighbors are linked and how many pairs there are.
pub open spec fn link_counts(outgoing: Csr, incoming: Csr, counts: Seq<(u64, u64)>) -> bool {
    &&& counts.len() == outgoing.node_total()
    &&& forall|node: int|
        0 <= node < counts.len() ==> is_link_count(
            outgoing,
            incoming,
            node,
            #[trigger] counts[node],
        )
}

pub open spec fn is_link_count(
    outgoing: Csr,
    incoming: Csr,
    node: int,
    count: (u64, u64),
) -> bool {
    let degree = neighbor_set(outgoing, incoming, node).len() as int;
    &&& neighbor_set(outgoing, incoming, node).finite()
    &&& linked_pairs(outgoing, incoming, node).finite()
    &&& count.0 == linked_pairs(outgoing, incoming, node).len()
    &&& count.1 == degree * (degree - 1) / 2
}

pub proof fn lemma_list_set(outgoing: Csr, incoming: Csr, node: int, list: Seq<u32>)
    requires
        outgoing.targets_are_rows(),
        incoming.targets_are_rows(),
        incoming.node_total() == outgoing.node_total(),
        outgoing.node_total() <= u32::MAX,
        is_neighbor_list(outgoing, incoming, node, list),
    ensures
        neighbor_set(outgoing, incoming, node).finite(),
        neighbor_set(outgoing, incoming, node).len() == list.len(),
        list.len() <= outgoing.node_total(),
{
    let wide = list.map(|i: int, other: u32| other as int);
    assert(wide.no_duplicates()) by {
        assert forall|i: int, j: int| 0 <= i < wide.len() && 0 <= j < wide.len() && i
            != j implies wide[i] != wide[j] by {
            if i < j {
                assert(list[i] < list[j]);
            } else {
                assert(list[j] < list[i]);
            }
        }
    }
    wide.unique_seq_to_set();
    let range = vstd::set_lib::set_int_range(0, outgoing.node_total());
    vstd::set_lib::lemma_int_range(0, outgoing.node_total());
    assert forall|other: int| wide.to_set().contains(other) <==> neighbor_set(
        outgoing,
        incoming,
        node,
    ).contains(other) by {
        if wide.to_set().contains(other) {
            let i = choose|i: int| 0 <= i < wide.len() && wide[i] == other;
            assert(list[i] == other);
            assert(list.contains(list[i]));
        }
        if adjacent(outgoing, incoming, node, other) {
            lemma_adjacent_rows(outgoing, incoming, node, other);
            assert(list.contains(other as u32));
            let i = choose|i: int| 0 <= i < list.len() && list[i] == other as u32;
            assert(wide[i] == other);
        }
    }
    assert(wide.to_set() =~= neighbor_set(outgoing, incoming, node));
    assert(wide.to_set().subset_of(range)) by {
        assert forall|other: int| wide.to_set().contains(other) implies range.contains(other) by {
            lemma_adjacent_rows(outgoing, incoming, node, other);
        }
    }
    vstd::set_lib::lemma_len_subset(wide.to_set(), range);
}

/// Linked pairs whose smaller member is one of the first `lefts` of a list, or is the next of them
/// and whose greater member is one of the first `rights`.
spec fn linked_so_far(
    outgoing: Csr,
    incoming: Csr,
    node: int,
    list: Seq<u32>,
    lefts: int,
    rights: int,
) -> Set<(int, int)> {
    Set::new(
        |pair: (int, int)|
            linked_pairs(outgoing, incoming, node).contains(pair) && (among(list, lefts, pair.0)
                || 0 <= lefts < list.len() && pair.0 == list[lefts] && among(
                list,
                rights,
                pair.1,
            )),
    )
}

/// Linked and possible pairs of neighbors of every node: numerator and denominator of the local
/// undirected clustering coefficient.
#[verifier::rlimit(60)]
#[verifier::spinoff_prover]
pub fn neighborhood_links<F: FnMut() -> Result<()>>(
    outgoing: &Csr,
    incoming: &Csr,
    check: F,
) -> (result: Result<Vec<(u64, u64)>>)
    requires
        outgoing.targets_are_rows(),
        incoming.targets_are_rows(),
        outgoing.node_total() <= u32::MAX,
        call_requires(check, ()),
    ensures
        if outgoing.spec_offsets().len() == incoming.spec_offsets().len() {
            match result {
                Ok(counts) => {
                    &&& link_counts(*outgoing, *incoming, counts@)
                    &&& outgoing.node_total() > 0 ==> goes_on(check)
                },
                Err(error) => outgoing.node_total() > 0 && call_ensures(
                    check,
                    (),
                    Err::<(), Error>(error),
                ),
            }
        } else {
            fails_with(result, ErrorCode::InvalidData, "CSR and CSC node counts differ"@)
        },
{
    let mut poll = check;
    let lists = match undirected_neighbors(outgoing, incoming) {
        Ok(lists) => lists,
        Err(error) => {
            return Err(error);
        },
    };
    let mut counts: Vec<(u64, u64)> = Vec::with_capacity(lists.len());
    for row in 0..lists.len()
        invariant
            outgoing.targets_are_rows(),
            incoming.targets_are_rows(),
            incoming.node_total() == outgoing.node_total(),
            outgoing.spec_offsets().len() == incoming.spec_offsets().len(),
            outgoing.node_total() <= u32::MAX,
            poll == check,
            call_requires(poll, ()),
            neighbor_lists(*outgoing, *incoming, lists@),
            counts.len() == row,
            row > 0 ==> goes_on(check),
            forall|node: int|
                0 <= node < row ==> is_link_count(
                    *outgoing,
                    *incoming,
                    node,
                    #[trigger] counts@[node],
                ),
    {
        if row % 256 == 0 {
            match ask(&mut poll) {
                Ok(_) => {},
                Err(error) => {
                    return Err(error);
                },
            }
        }
        let list = &lists[row];
        assert(is_neighbor_list(*outgoing, *incoming, row as int, list@));
        let total: usize = list.len();
        let mut links: u64 = 0;
        let ghost mut found: Set<(int, int)> = Set::empty();
        proof {
            lemma_list_set(*outgoing, *incoming, row as int, list@);
            assert(found =~= linked_so_far(*outgoing, *incoming, row as int, list@, 0, 0)) by {
                assert forall|pair: (int, int)| !linked_so_far(
                    *outgoing,
                    *incoming,
                    row as int,
                    list@,
                    0,
                    0,
                ).contains(pair) by {}
            }
        }
        for left in 0..total
            invariant
                outgoing.targets_are_rows(),
                incoming.targets_are_rows(),
                incoming.node_total() == outgoing.node_total(),
                outgoing.node_total() <= u32::MAX,
                neighbor_lists(*outgoing, *incoming, lists@),
                total == list.len(),
                total <= u32::MAX,
                is_neighbor_list(*outgoing, *incoming, row as int, list@),
                found.finite(),
                links == found.len(),
                links <= left * total,
                found == linked_so_far(
                    *outgoing,
                    *incoming,
                    row as int,
                    list@,
                    left as int,
                    0,
                ),
        {
            let small: u32 = list[left];
            proof {
                assert(list@.contains(small));
                lemma_adjacent_rows(*outgoing, *incoming, row as int, small as int);
                assert(found =~= linked_so_far(
                    *outgoing,
                    *incoming,
                    row as int,
                    list@,
                    left as int,
                    left + 1,
                )) by {
                    let later = linked_so_far(
                        *outgoing,
                        *incoming,
                        row as int,
                        list@,
                        left as int,
                        left + 1,
                    );
                    assert forall|pair: (int, int)| later.contains(pair) <==> found.contains(
                        pair,
                    ) by {
                        if pair.0 == small && among(list@, left + 1, pair.1) && pair.0 < pair.1 {
                            let i = choose|i: int|
                                0 <= i < left + 1 && #[trigger] list@[i] == pair.1;
                            if i < left {
                                assert(list@[i] < list@[left as int]);
                            }
                        }
                    }
                }
            }
            let near = &lists[small as usize];
            assert(is_neighbor_list(*outgoing, *incoming, small as int, near@));
            for right in (left + 1)..total
                invariant
                    outgoing.targets_are_rows(),
                    incoming.targets_are_rows(),
                    incoming.node_total() == outgoing.node_total(),
                    outgoing.node_total() <= u32::MAX,
                    total == list.len(),
                    total <= u32::MAX,
                    left < total,
                    list@[left as int] == small,
                    is_neighbor_list(*outgoing, *incoming, row as int, list@),
                    is_neighbor_list(*outgoing, *incoming, small as int, near@),
                    found.finite(),
                    links == found.len(),
                    links <= left * total + right,
                    found == linked_so_far(
                        *outgoing,
                        *incoming,
                        row as int,
                        list@,
                        left as int,
                        right as int,
                    ),
            {
                let great: u32 = list[right];
                let ghost pair = (small as int, great as int);
                let ghost next = linked_so_far(
                    *outgoing,
                    *incoming,
                    row as int,
                    list@,
                    left as int,
                    right + 1,
                );
                proof {
                    assert(list@.contains(small));
                    assert(list@.contains(great));
                    assert(list@[left as int] < list@[right as int]);
                    assert(left * total + right + 1 < u64::MAX) by (nonlinear_arith)
                        requires
                            left < total,
                            right < total,
                            total <= u32::MAX,
                    ;
                    assert forall|other: (int, int)| next.contains(other) <==> found.contains(
                        other,
                    ) || (other == pair && linked_pairs(
                        *outgoing,
                        *incoming,
                        row as int,
                    ).contains(other)) by {
                        lemma_among_step(list@, right as int, other.1);
                    }
                    assert(!found.contains(pair)) by {
                        if among(list@, left as int, small as int) {
                            let i = choose|i: int|
                                0 <= i < left && #[trigger] list@[i] == small as int;
                            assert(list@[i] < list@[left as int]);
                        }
                        if among(list@, right as int, great as int) {
                            let i = choose|i: int|
                                0 <= i < right && #[trigger] list@[i] == great as int;
                            assert(list@[i] < list@[right as int]);
                        }
                    }
                }
                if holds(near, great) {
                    proof {
                        assert(found.insert(pair) =~= next);
                        found = next;
                    }
                    links = links + 1;
                } else {
                    proof {
                        assert(found =~= next);
                    }
                }
            }
            proof {
                assert((left + 1) * total == left * total + total) by (nonlinear_arith);
                let done = linked_so_far(
                    *outgoing,
                    *incoming,
                    row as int,
                    list@,
                    left + 1,
                    0,
                );
                assert forall|pair: (int, int)| done.contains(pair) <==> found.contains(pair) by {
                    lemma_among_step(list@, left as int, pair.0);
                    if linked_pairs(*outgoing, *incoming, row as int).contains(pair) {
                        lemma_adjacent_rows(*outgoing, *incoming, row as int, pair.1);
                        assert(list@.contains(pair.1 as u32));
                        let i = choose|i: int| 0 <= i < list@.len() && list@[i] == pair.1 as u32;
                        assert(among(list@, list@.len() as int, pair.1));
                    }
                }
                assert(found =~= done);
            }
        }
        proof {
            assert forall|pair: (int, int)| linked_pairs(
                *outgoing,
                *incoming,
                row as int,
            ).contains(pair) implies found.contains(pair) by {
                lemma_adjacent_rows(*outgoing, *incoming, row as int, pair.0);
                assert(list@.contains(pair.0 as u32));
                let i = choose|i: int| 0 <= i < list@.len() && list@[i] == pair.0 as u32;
                assert(among(list@, list@.len() as int, pair.0));
            }
            assert(found =~= linked_pairs(*outgoing, *incoming, row as int));
            assert(total * (total - 1) <= u64::MAX) by (nonlinear_arith)
                requires
                    0 <= total <= u32::MAX,
            ;
            assert(0 <= total * (total - 1)) by (nonlinear_arith)
                requires
                    0 <= total,
            ;
        }
        let possible: u64 = if total == 0 {
            0
        } else {
            (total as u64) * ((total - 1) as u64) / 2
        };
        proof {
            let degree = neighbor_set(*outgoing, *incoming, row as int).len() as int;
            assert(0 * (0 - 1) == 0) by (nonlinear_arith);
            assert(degree == total);
            assert(possible == degree * (degree - 1) / 2);
            assert(is_link_count(*outgoing, *incoming, row as int, (links, possible)));
        }
        counts.push((links, possible));
    }
    Ok(counts)
}

/// The ends of an edge are neighbors whatever its direction, a node is not its own neighbor, and nothing
/// else makes neighbors.
pub proof fn law_neighbors_share_an_edge(outgoing: Csr, incoming: Csr, node: int, other: int)
    requires
        mirrored(outgoing, incoming),
    ensures
        !adjacent(outgoing, incoming, node, node),
        node != other ==> (adjacent(outgoing, incoming, node, other) <==> outgoing.leads(node, other)
            || outgoing.leads(other, node)),
        adjacent(outgoing, incoming, node, other) == adjacent(outgoing, incoming, other, node),
{
    assert(incoming.leads(node, other) <==> outgoing.leads(other, node));
    assert(incoming.leads(other, node) <==> outgoing.leads(node, other));
}

/// A triangle is counted once, whichever of its corners comes first: three different nodes, each two of
/// which share an edge, make exactly one.
pub proof fn law_triangles_are_counted_once(
    outgoing: Csr,
    incoming: Csr,
    a: int,
    b: int,
    c: int,
)
    requires
        mirrored(outgoing, incoming),
        0 <= a < outgoing.node_total(),
        0 <= b < outgoing.node_total(),
        0 <= c < outgoing.node_total(),
    ensures
        triangles(outgoing, incoming).contains((a, b, c)) ==> a < b < c && (outgoing.leads(a, b)
            || outgoing.leads(b, a)) && (outgoing.leads(b, c) || outgoing.leads(c, b)) && (
        outgoing.leads(a, c) || outgoing.leads(c, a)),
        a < b < c && (outgoing.leads(a, b) || outgoing.leads(b, a)) && (outgoing.leads(b, c)
            || outgoing.leads(c, b)) && (outgoing.leads(a, c) || outgoing.leads(c, a))
            ==> triangles(outgoing, incoming).contains((a, b, c)),
{
    law_neighbors_share_an_edge(outgoing, incoming, a, b);
    law_neighbors_share_an_edge(outgoing, incoming, b, c);
    law_neighbors_share_an_edge(outgoing, incoming, a, c);
}

/// Of a node the pairs of neighbors that share an edge are counted, and all pairs of neighbors: every
/// two different neighbors once.
pub proof fn law_links_among_neighbors(
    outgoing: Csr,
    incoming: Csr,
    node: int,
    count: (u64, u64),
    pair: (int, int),
)
    requires
        is_link_count(outgoing, incoming, node, count),
    ensures
        linked_pairs(outgoing, incoming, node).contains(pair) <==> pair.0 < pair.1 && adjacent(
            outgoing,
            incoming,
            node,
            pair.0,
        ) && adjacent(outgoing, incoming, node, pair.1) && adjacent(
            outgoing,
            incoming,
            pair.0,
            pair.1,
        ),
        count.0 == linked_pairs(outgoing, incoming, node).len(),
        count.1 * 2 == neighbor_set(outgoing, incoming, node).len() * (neighbor_set(
            outgoing,
            incoming,
            node,
        ).len() - 1),
{
    let degree = neighbor_set(outgoing, incoming, node).len() as int;
    assert(degree * (degree - 1) % 2 == 0) by {
        if degree % 2 == 0 {
            let half = degree / 2;
            assert(degree * (degree - 1) == 2 * (half * (degree - 1))) by (nonlinear_arith)
                requires
                    degree == 2 * half,
            ;
        } else {
            let half = degree / 2;
            assert(degree * (degree - 1) == 2 * (half * degree)) by (nonlinear_arith)
                requires
                    degree == 2 * half + 1,
            ;
        }
    }
}

} // verus!
