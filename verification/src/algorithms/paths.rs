//! Which of the shortest paths a breadth-first search finds.

use crate::algorithms::traversal::{
    first_at, first_to, follows_search, is_shortest_path, lemma_leads_row, lemma_met_extends,
    lemma_search_grows, met, row_nodes, search_order, whole_order,
};
use crate::csr::Csr;
use vstd::prelude::*;

verus! {

/// Neighbors ascend in every row.
pub open spec fn rows_ascend(csr: Csr) -> bool {
    forall|node: u32| #[trigger] ascends(row_nodes(csr, node))
}

pub open spec fn ascends(nodes: Seq<u32>) -> bool {
    forall|i: int, j: int|
        0 <= i <= j < nodes.len() ==> #[trigger] nodes[i] <= #[trigger] nodes[j]
}

/// Up to place `place` the lists are the same, and there the left one is smaller.
pub open spec fn smaller_at(left: Seq<u32>, right: Seq<u32>, place: int) -> bool {
    &&& 0 <= place < left.len()
    &&& place < right.len()
    &&& left.take(place) == right.take(place)
    &&& left[place] < right[place]
}

/// The left list comes first in lexical order, or both are the same.
pub open spec fn lexically_least(left: Seq<u32>, right: Seq<u32>) -> bool {
    left == right || exists|place: int| #[trigger] smaller_at(left, right, place)
}

/// What appending unmet nodes gives.
proof fn lemma_met(order: Seq<u32>, nodes: Seq<u32>)
    requires
        order.no_duplicates(),
    ensures
        met(order, nodes).no_duplicates(),
        forall|i: int|
            order.len() <= i < met(order, nodes).len() ==> nodes.contains(
                #[trigger] met(order, nodes)[i],
            ),
        forall|node: u32| nodes.contains(node) ==> #[trigger] met(order, nodes).contains(node),
        ascends(nodes) ==> forall|i: int, j: int|
            order.len() <= i < j < met(order, nodes).len() ==> (#[trigger] met(order, nodes)[i]) < (
            #[trigger] met(order, nodes)[j]),
    decreases nodes.len(),
{
    if nodes.len() > 0 {
        let rest = nodes.drop_last();
        let before = met(order, rest);
        let now = met(order, nodes);
        lemma_met(order, rest);
        lemma_met_extends(order, rest);
        assert(nodes[nodes.len() - 1] == nodes.last());
        assert forall|node: u32| rest.contains(node) implies nodes.contains(node) by {
            let i = choose|i: int| 0 <= i < rest.len() && rest[i] == node;
            assert(nodes[i] == node);
        }
        assert forall|i: int| order.len() <= i < now.len() implies nodes.contains(
            #[trigger] now[i],
        ) by {
            if i < before.len() {
                assert(now[i] == before[i]);
                assert(rest.contains(before[i]));
            }
        }
        assert forall|node: u32| nodes.contains(node) implies #[trigger] now.contains(node) by {
            let i = choose|i: int| 0 <= i < nodes.len() && nodes[i] == node;
            if i < rest.len() {
                assert(rest[i] == node);
                assert(before.contains(node));
                let k = choose|k: int| 0 <= k < before.len() && before[k] == node;
                assert(now[k] == node);
            } else if !before.contains(node) {
                assert(now[before.len() as int] == node);
            }
        }
        if ascends(nodes) {
            assert(ascends(rest)) by {
                assert forall|i: int, j: int| 0 <= i <= j < rest.len() implies #[trigger] rest[i]
                    <= #[trigger] rest[j] by {
                    assert(nodes[i] <= nodes[j]);
                }
            }
            assert forall|i: int, j: int| order.len() <= i < j < now.len() implies (
            #[trigger] now[i]) < (#[trigger] now[j]) by {
                assert(now[i] == before[i]);
                if j < before.len() {
                    assert(before[i] < before[j]);
                } else {
                    assert(rest.contains(before[i]));
                    let k = choose|k: int| 0 <= k < rest.len() && rest[k] == before[i];
                    assert(nodes[k] <= nodes[nodes.len() - 1]);
                    assert(before.contains(before[i]));
                }
            }
        }
    }
}

proof fn lemma_row_leads(csr: Csr, node: u32, to: u32)
    ensures
        row_nodes(csr, node).contains(to) <==> csr.leads(node as int, to as int),
{
    let nodes = row_nodes(csr, node);
    if nodes.contains(to) {
        let i = choose|i: int| 0 <= i < nodes.len() && nodes[i] == to;
        assert(csr.spec_row(node as int)->Some_0[i].0 == to);
    }
    if csr.leads(node as int, to as int) {
        let row = csr.spec_row(node as int)->Some_0;
        let i = choose|i: int| 0 <= i < row.len() && (#[trigger] row[i]).0 == to;
        assert(nodes[i] == to);
    }
}

/// Some node before `place` leads to a node.
spec fn led_before(csr: Csr, order: Seq<u32>, place: int, node: u32) -> bool {
    exists|j: int| 0 <= j < place && csr.leads(#[trigger] order[j] as int, node as int)
}

/// What the nodes are that a search has met.
proof fn lemma_order(csr: Csr, source: u32, steps: nat)
    requires
        csr.targets_are_rows(),
        source < csr.node_total(),
    ensures
        search_order(csr, source, steps).no_duplicates(),
        search_order(csr, source, steps).len() > 0,
        search_order(csr, source, steps)[0] == source,
        forall|i: int|
            0 <= i < search_order(csr, source, steps).len() ==> (#[trigger] search_order(
                csr,
                source,
                steps,
            )[i]) < csr.node_total(),
        forall|i: int|
            0 < i < search_order(csr, source, steps).len() ==> led_before(
                csr,
                search_order(csr, source, steps),
                steps as int,
                #[trigger] search_order(csr, source, steps)[i],
            ),
        forall|j: int, node: u32|
            0 <= j < steps && j < search_order(csr, source, steps).len() && #[trigger] csr.leads(
                search_order(csr, source, steps)[j] as int,
                node as int,
            ) ==> search_order(csr, source, steps).contains(node),
    decreases steps,
{
    if steps > 0 {
        let last = (steps - 1) as nat;
        let before = search_order(csr, source, last);
        let now = search_order(csr, source, steps);
        lemma_order(csr, source, last);
        if last < before.len() {
            let read = before[last as int];
            let nodes = row_nodes(csr, read);
            lemma_met(before, nodes);
            lemma_met_extends(before, nodes);
            assert(before =~= now.subrange(0, before.len() as int));
            assert(forall|i: int| 0 <= i < before.len() ==> before[i] == now[i]);
            assert forall|i: int| 0 <= i < now.len() implies (#[trigger] now[i])
                < csr.node_total() by {
                if i >= before.len() {
                    lemma_row_leads(csr, read, now[i]);
                    lemma_leads_row(csr, read as int, now[i] as int);
                } else {
                    assert(before[i] < csr.node_total());
                }
            }
            assert forall|i: int| 0 < i < now.len() implies led_before(
                csr,
                now,
                steps as int,
                #[trigger] now[i],
            ) by {
                if i >= before.len() {
                    lemma_row_leads(csr, read, now[i]);
                    assert(csr.leads(now[last as int] as int, now[i] as int));
                } else {
                    assert(led_before(csr, before, last as int, before[i]));
                    let j = choose|j: int|
                        0 <= j < last && csr.leads(#[trigger] before[j] as int, before[i] as int);
                    assert(csr.leads(now[j] as int, now[i] as int));
                }
            }
            assert forall|j: int, node: u32|
                0 <= j < steps && j < now.len() && #[trigger] csr.leads(
                    now[j] as int,
                    node as int,
                ) implies now.contains(node) by {
                if j < last {
                    assert(before[j] == now[j]);
                    assert(before.contains(node));
                    let k = choose|k: int| 0 <= k < before.len() && before[k] == node;
                    assert(now[k] == node);
                } else {
                    lemma_row_leads(csr, read, node);
                }
            }
        } else {
            assert forall|i: int| 0 < i < now.len() implies led_before(
                csr,
                now,
                steps as int,
                #[trigger] now[i],
            ) by {
                assert(led_before(csr, before, last as int, before[i]));
                let j = choose|j: int|
                    0 <= j < last && csr.leads(#[trigger] before[j] as int, before[i] as int);
                assert(csr.leads(now[j] as int, now[i] as int));
            }
        }
    } else {
        let order = search_order(csr, source, 0);
        assert(order =~= seq![source]);
    }
}

/// No more nodes are met than there are.
proof fn lemma_order_fits(csr: Csr, source: u32, steps: nat)
    requires
        csr.targets_are_rows(),
        source < csr.node_total(),
    ensures
        search_order(csr, source, steps).len() <= csr.node_total(),
{
    lemma_order(csr, source, steps);
    let order = search_order(csr, source, steps);
    let wide = order.map(|i: int, node: u32| node as int);
    assert(wide.no_duplicates());
    wide.unique_seq_to_set();
    let range = vstd::set_lib::set_int_range(0, csr.node_total());
    vstd::set_lib::lemma_int_range(0, csr.node_total());
    assert(wide.to_set().subset_of(range)) by {
        assert forall|node: int| wide.to_set().contains(node) implies range.contains(node) by {
            let i = choose|i: int| 0 <= i < wide.len() && wide[i] == node;
            assert(order[i] < csr.node_total());
        }
    }
    vstd::set_lib::lemma_len_subset(wide.to_set(), range);
}

/// A node is met while the row of the first node that leads to it is read.
proof fn lemma_met_while(csr: Csr, source: u32, place: int, node: u32, next: u32, at: int)
    requires
        csr.targets_are_rows(),
        source < csr.node_total(),
        next != source,
        first_at(csr, whole_order(csr, source), place, node, next),
        0 <= at < whole_order(csr, source).len(),
        whole_order(csr, source)[at] == next,
    ensures
        place < search_order(csr, source, place as nat).len(),
        search_order(csr, source, place as nat)[place] == node,
        search_order(csr, source, place as nat).len() <= at < search_order(
            csr,
            source,
            (place + 1) as nat,
        ).len(),
{
    let order = whole_order(csr, source);
    let total = csr.node_total() as nat;
    let before = search_order(csr, source, place as nat);
    let now = search_order(csr, source, (place + 1) as nat);
    lemma_order(csr, source, total);
    lemma_order_fits(csr, source, total);
    lemma_order(csr, source, place as nat);
    lemma_search_grows(csr, source, place as nat, total);
    lemma_search_grows(csr, source, (place + 1) as nat, total);
    assert(before =~= order.subrange(0, before.len() as int));
    assert(now =~= order.subrange(0, now.len() as int));
    assert(forall|i: int| 0 <= i < before.len() ==> before[i] == order[i]);
    assert(forall|i: int| 0 <= i < now.len() ==> now[i] == order[i]);
    assert(place < before.len());
    lemma_row_leads(csr, node, next);
    lemma_met(before, row_nodes(csr, node));
    assert(now.contains(next));
    let k = choose|k: int| 0 <= k < now.len() && now[k] == next;
    assert(order[k] == order[at]);
    assert(k == at);
    if at < before.len() {
        assert(at > 0);
        assert(led_before(csr, before, place, before[at]));
        let j = choose|j: int|
            0 <= j < place && csr.leads(#[trigger] before[j] as int, before[at] as int);
        assert(csr.leads(order[j] as int, next as int));
    }
}

/// Every node of a walk from the source is met.
proof fn lemma_walk_met(csr: Csr, source: u32, path: Seq<u32>, count: int) -> (at: int)
    requires
        csr.targets_are_rows(),
        source < csr.node_total(),
        0 <= count < path.len(),
        path[0] == source,
        forall|i: int|
            0 <= i < path.len() - 1 ==> csr.leads(#[trigger] path[i] as int, path[i + 1] as int),
    ensures
        0 <= at < whole_order(csr, source).len(),
        whole_order(csr, source)[at] == path[count],
    decreases count,
{
    let order = whole_order(csr, source);
    lemma_order(csr, source, csr.node_total() as nat);
    lemma_order_fits(csr, source, csr.node_total() as nat);
    if count == 0 {
        0
    } else {
        let from = lemma_walk_met(csr, source, path, count - 1);
        assert(csr.leads(path[count - 1] as int, path[count] as int));
        assert(csr.leads(order[from] as int, path[count] as int));
        assert(order.contains(path[count]));
        choose|k: int| 0 <= k < order.len() && order[k] == path[count]
    }
}

/// A path of the search comes, in lexical order, not after a walk of its length that ends at its
/// last node or at one that is met later.
proof fn lemma_compare(
    csr: Csr,
    source: u32,
    path: Seq<u32>,
    other: Seq<u32>,
    at: int,
    later: int,
)
    requires
        csr.targets_are_rows(),
        rows_ascend(csr),
        source < csr.node_total(),
        path.len() == other.len(),
        path.len() > 0,
        path[0] == source,
        other[0] == source,
        forall|k: int| 0 < k < path.len() ==> #[trigger] path[k] != source,
        forall|k: int| 0 < k < other.len() ==> #[trigger] other[k] != source,
        follows_search(csr, source, path),
        forall|i: int|
            0 <= i < other.len() - 1 ==> csr.leads(#[trigger] other[i] as int, other[i + 1] as int),
        0 <= at <= later < whole_order(csr, source).len(),
        whole_order(csr, source)[at] == path.last(),
        whole_order(csr, source)[later] == other.last(),
    ensures
        lexically_least(path, other),
    decreases path.len(),
{
    let order = whole_order(csr, source);
    let total = csr.node_total() as nat;
    lemma_order(csr, source, total);
    lemma_order_fits(csr, source, total);
    if path.len() == 1 {
        assert(path =~= other);
    } else {
        let last = path.len() - 1;
        let shorter = path.drop_last();
        let rest = other.drop_last();
        let a = path[last];
        let b = other[last];
        assert(first_to(csr, order, path[last - 1], path[last]));
        let i = choose|i: int| #[trigger] first_at(csr, order, i, path[last - 1], a);
        let from = lemma_walk_met(csr, source, other, last - 1);
        assert(csr.leads(other[last - 1] as int, other[last - 1 + 1] as int));
        let j = lemma_first(csr, order, from, b);
        lemma_met_while(csr, source, i, path[last - 1], a, at);
        lemma_met_while(csr, source, j, order[j], b, later);
        if j < i {
            lemma_search_grows(csr, source, (j + 1) as nat, i as nat);
        }
        assert(i <= j <= from);
        assert forall|k: int| 0 < k < shorter.len() implies first_to(
            csr,
            order,
            shorter[k - 1],
            #[trigger] shorter[k],
        ) by {
            assert(first_to(csr, order, path[k - 1], path[k]));
        }
        assert forall|k: int| 0 <= k < rest.len() - 1 implies csr.leads(
            #[trigger] rest[k] as int,
            rest[k + 1] as int,
        ) by {
            assert(csr.leads(other[k] as int, other[k + 1] as int));
        }
        assert forall|k: int| 0 < k < shorter.len() implies #[trigger] shorter[k] != source by {
            assert(path[k] != source);
        }
        assert forall|k: int| 0 < k < rest.len() implies #[trigger] rest[k] != source by {
            assert(other[k] != source);
        }
        lemma_compare(csr, source, shorter, rest, i, from);
        if shorter == rest {
            assert(order[i] == order[from]);
            assert(i == from);
            let before = search_order(csr, source, i as nat);
            let now = search_order(csr, source, (i + 1) as nat);
            lemma_search_grows(csr, source, (i + 1) as nat, total);
            assert(now =~= order.subrange(0, now.len() as int));
            assert(now[at] == a && now[later] == b);
            lemma_order(csr, source, i as nat);
            assert(ascends(row_nodes(csr, before[i])));
            lemma_met(before, row_nodes(csr, before[i]));
            if at < later {
                assert(a < b);
                assert(path.take(last) =~= other.take(last)) by {
                    assert(path.take(last) =~= shorter);
                    assert(other.take(last) =~= rest);
                }
                assert(smaller_at(path, other, last));
            } else {
                assert(path =~= shorter.push(a));
                assert(other =~= rest.push(b));
            }
        } else {
            let place = choose|place: int| #[trigger] smaller_at(shorter, rest, place);
            assert(path.take(place) =~= shorter.take(place));
            assert(other.take(place) =~= rest.take(place));
            assert(smaller_at(path, other, place));
        }
    }
}

/// The first node of an order that leads to a node, at or before one that does.
proof fn lemma_first(csr: Csr, order: Seq<u32>, from: int, next: u32) -> (place: int)
    requires
        0 <= from < order.len(),
        csr.leads(order[from] as int, next as int),
    ensures
        0 <= place <= from,
        first_at(csr, order, place, order[place], next),
    decreases from,
{
    if exists|j: int| 0 <= j < from && csr.leads(#[trigger] order[j] as int, next as int) {
        let j = choose|j: int|
            0 <= j < from && csr.leads(#[trigger] order[j] as int, next as int);
        lemma_first(csr, order, j, next)
    } else {
        from
    }
}

/// A shortest path does not come back to its source.
proof fn lemma_leaves_source(csr: Csr, source: u32, target: u32, path: Seq<u32>, place: int)
    requires
        source < csr.node_total(),
        is_shortest_path(csr, source, target, path),
        0 < place < path.len(),
    ensures
        path[place] != source,
{
    if path[place] == source {
        lemma_shortcut(csr, source, path, place, path.len() - 1);
        assert(csr.walk(seq![source], target as int, (path.len() - 1 - place) as nat));
    }
}

proof fn lemma_shortcut(csr: Csr, source: u32, path: Seq<u32>, place: int, until: int)
    requires
        source < csr.node_total(),
        0 <= place <= until < path.len(),
        path[place] == source,
        forall|i: int|
            0 <= i < path.len() - 1 ==> csr.leads(#[trigger] path[i] as int, path[i + 1] as int),
    ensures
        csr.walk(seq![source], path[until] as int, (until - place) as nat),
    decreases until,
{
    let seeds = seq![source];
    if until > place {
        lemma_shortcut(csr, source, path, place, until - 1);
        assert(csr.leads(path[until - 1] as int, path[until - 1 + 1] as int));
    } else {
        assert(seeds[0] == path[until]);
    }
}

/// Where neighbors ascend in every row, the path that the search finds is the lexically least of the
/// shortest paths.
pub proof fn law_shortest_path_is_least(
    csr: Csr,
    source: u32,
    target: u32,
    path: Seq<u32>,
    other: Seq<u32>,
)
    requires
        csr.targets_are_rows(),
        rows_ascend(csr),
        source < csr.node_total(),
        is_shortest_path(csr, source, target, path),
        follows_search(csr, source, path),
        is_shortest_path(csr, source, target, other),
    ensures
        lexically_least(path, other),
{
    let seeds = seq![source];
    assert(path.len() == other.len()) by {
        if path.len() < other.len() {
            assert(!csr.walk(seeds, target as int, (path.len() - 1) as nat));
        }
        if other.len() < path.len() {
            assert(!csr.walk(seeds, target as int, (other.len() - 1) as nat));
        }
    }
    assert forall|k: int| 0 < k < path.len() implies #[trigger] path[k] != source by {
        lemma_leaves_source(csr, source, target, path, k);
    }
    assert forall|k: int| 0 < k < other.len() implies #[trigger] other[k] != source by {
        lemma_leaves_source(csr, source, target, other, k);
    }
    let at = lemma_walk_met(csr, source, path, path.len() - 1);
    lemma_compare(csr, source, path, other, at, at);
}

} // verus!
