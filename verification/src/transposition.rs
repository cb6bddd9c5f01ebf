//! Adjacencies of edges and of the same edges the other way round.

use crate::csr::{
    build_outcome, degree, keys_of, law_listed_rows, lemma_sorted_keys,
    sources_inside, targets_inside, transposed, Csr,
};
use crate::error::Result;
use crate::order::{law_triple_key_order, lemma_triple_key, triple_key, triple_of};
use vstd::prelude::*;

verus! {

/// How often an item occurs.
pub open spec fn copies<A>(items: Seq<A>, item: A) -> int
    decreases items.len(),
{
    if items.len() == 0 {
        0
    } else {
        copies(items.drop_last(), item) + if items.last() == item {
            1int
        } else {
            0
        }
    }
}

proof fn lemma_copies_counted(keys: Seq<u128>, key: u128)
    ensures
        copies(keys, key) == keys.to_multiset().count(key),
    decreases keys.len(),
{
    broadcast use vstd::seq_lib::group_to_multiset_ensures;

    if keys.len() > 0 {
        let rest = keys.drop_last();
        lemma_copies_counted(rest, key);
        assert(keys =~= rest.push(keys.last()));
        assert(keys.to_multiset() =~= rest.to_multiset().insert(keys.last()));
    }
}

proof fn lemma_copies_keys(triples: Seq<(u32, u32, u32)>, triple: (u32, u32, u32))
    ensures
        copies(keys_of(triples), triple_key(triple)) == copies(triples, triple),
    decreases triples.len(),
{
    if triples.len() > 0 {
        let rest = triples.drop_last();
        lemma_copies_keys(rest, triple);
        assert(keys_of(triples).drop_last() =~= keys_of(rest));
        lemma_triple_key(triple);
        lemma_triple_key(triples.last());
        assert(keys_of(triples).last() == triple_key(triples.last()));
    }
}

/// Only the part between two places holds copies.
proof fn lemma_copies_between(keys: Seq<u128>, key: u128, from: int, until: int, count: int)
    requires
        0 <= from <= until <= keys.len(),
        0 <= count <= keys.len(),
        forall|i: int|
            0 <= i < keys.len() && !(from <= i < until) ==> #[trigger] keys[i] != key,
    ensures
        copies(keys.take(count), key) == if count <= from {
            0
        } else if count <= until {
            copies(keys.subrange(from, count), key)
        } else {
            copies(keys.subrange(from, until), key)
        },
    decreases count,
{
    let head = keys.take(count);
    let none = keys.subrange(from, from);
    assert(copies(none, key) == 0);
    if count > 0 {
        lemma_copies_between(keys, key, from, until, count - 1);
        assert(head.drop_last() =~= keys.take(count - 1));
        assert(head.last() == keys[count - 1]);
        assert(copies(head, key) == copies(keys.take(count - 1), key) + if keys[count - 1] == key {
            1int
        } else {
            0
        });
        if from < count <= until {
            let part = keys.subrange(from, count);
            assert(part.drop_last() =~= keys.subrange(from, count - 1));
            assert(part.last() == keys[count - 1]);
            assert(copies(part, key) == copies(keys.subrange(from, count - 1), key) + if keys[count
                - 1] == key {
                1int
            } else {
                0
            });
            if count - 1 == from {
                assert(keys.subrange(from, count - 1) == none);
            }
        } else {
            assert(keys[count - 1] != key);
            if count > until && count - 1 <= from {
                assert(keys.subrange(from, until) == none);
            }
        }
    } else {
        assert(copies(head, key) == 0);
        if count > from {
            assert(false);
        }
    }
}

/// A row that shows keys of one source shows each as often as it occurs.
proof fn lemma_copies_row(
    keys: Seq<u128>,
    row: Seq<(u32, u32)>,
    source: u32,
    target: u32,
    edge: u32,
)
    requires
        row.len() == keys.len(),
        forall|i: int|
            0 <= i < keys.len() ==> #[trigger] keys[i] < 0x1_0000_0000_0000_0000_0000_0000
                && triple_of(keys[i]) == (source, row[i].0, row[i].1),
    ensures
        copies(row, (target, edge)) == copies(keys, triple_key((source, target, edge))),
    decreases keys.len(),
{
    if keys.len() > 0 {
        let last = keys.len() - 1;
        let fewer = keys.drop_last();
        let rest = row.drop_last();
        assert forall|i: int| 0 <= i < fewer.len() implies #[trigger] fewer[i]
            < 0x1_0000_0000_0000_0000_0000_0000 && triple_of(fewer[i]) == (
            source,
            rest[i].0,
            rest[i].1,
        ) by {
            assert(fewer[i] == keys[i]);
        }
        lemma_copies_row(fewer, rest, source, target, edge);
        lemma_triple_key((source, target, edge));
        assert(triple_of(keys[last]) == (source, row[last].0, row[last].1));
        lemma_key_of_triple(keys[last]);
    }
}

/// A key of 96 bits is the key of its triple.
proof fn lemma_key_of_triple(key: u128)
    requires
        key < 0x1_0000_0000_0000_0000_0000_0000,
    ensures
        triple_key(triple_of(key)) == key,
{
}

/// A row holds each edge as often as the listed edges hold it.
#[verifier::rlimit(40)]
#[verifier::spinoff_prover]
pub proof fn law_listed_copies(
    csr: Csr,
    node_count: int,
    triples: Seq<(u32, u32, u32)>,
    node: u32,
    target: u32,
    edge: u32,
)
    requires
        csr.lists(node_count, triples),
        sources_inside(triples, node_count),
        targets_inside(triples, node_count),
        node < node_count,
    ensures
        csr.spec_row(node as int) is Some,
        copies(csr.spec_row(node as int)->Some_0, (target, edge)) == copies(
            triples,
            (node, target, edge),
        ),
{
    law_listed_rows(csr, node_count, triples);
    let keys = choose|keys: Seq<u128>| #[trigger] csr.listed_by(node_count, triples, keys);
    lemma_sorted_keys(triples, keys, node_count);
    let from = csr.spec_offsets()[node as int] as int;
    let until = csr.spec_offsets()[node + 1] as int;
    let triple = (node, target, edge);
    let key = triple_key(triple);
    lemma_triple_key(triple);
    assert forall|i: int| 0 <= i < keys.len() && !(from <= i < until) implies #[trigger] keys[i]
        != key by {
        assert(i < csr.spec_offsets()[node as int] <==> triple_of(keys[i]).0 < node);
        assert(i < csr.spec_offsets()[node + 1] <==> triple_of(keys[i]).0 < node + 1);
    }
    let shown = keys.subrange(from, until);
    assert(copies(keys, key) == copies(shown, key)) by {
        lemma_copies_between(keys, key, from, until, keys.len() as int);
        assert(keys.take(keys.len() as int) =~= keys);
        if from == until {
            assert(shown =~= Seq::<u128>::empty());
        }
    }
    let row = csr.spec_row(node as int)->Some_0;
    assert forall|i: int| 0 <= i < shown.len() implies #[trigger] shown[i]
        < 0x1_0000_0000_0000_0000_0000_0000 && triple_of(shown[i]) == (
        node,
        row[i].0,
        row[i].1,
    ) by {
        let k = from + i;
        assert(shown[i] == keys[k]);
        assert(k < csr.spec_offsets()[node as int] <==> triple_of(keys[k]).0 < node);
        assert(k < csr.spec_offsets()[node + 1] <==> triple_of(keys[k]).0 < node + 1);
    }
    lemma_copies_row(shown, row, node, target, edge);
    lemma_copies_counted(keys, key);
    lemma_copies_counted(keys_of(triples), key);
    lemma_copies_keys(triples, triple);
}

proof fn lemma_copies_transposed(
    triples: Seq<(u32, u32, u32)>,
    source: u32,
    target: u32,
    edge: u32,
)
    ensures
        copies(transposed(triples), (target, source, edge)) == copies(
            triples,
            (source, target, edge),
        ),
    decreases triples.len(),
{
    if triples.len() > 0 {
        lemma_copies_transposed(triples.drop_last(), source, target, edge);
        assert(transposed(triples).drop_last() =~= transposed(triples.drop_last()));
    }
}

/// An edge occurs in the adjacency of the edges the other way round as often as in that of the edges.
pub proof fn law_transposed_copies(
    outgoing: Csr,
    incoming: Csr,
    node_count: int,
    triples: Seq<(u32, u32, u32)>,
    source: u32,
    target: u32,
    edge: u32,
)
    requires
        outgoing.lists(node_count, triples),
        incoming.lists(node_count, transposed(triples)),
        sources_inside(triples, node_count),
        targets_inside(triples, node_count),
        source < node_count,
        target < node_count,
    ensures
        incoming.spec_row(target as int) is Some,
        outgoing.spec_row(source as int) is Some,
        copies(incoming.spec_row(target as int)->Some_0, (source, edge)) == copies(
            outgoing.spec_row(source as int)->Some_0,
            (target, edge),
        ),
{
    let turned = transposed(triples);
    lemma_turned(triples, node_count);
    law_listed_copies(outgoing, node_count, triples, source, target, edge);
    law_listed_copies(incoming, node_count, turned, target, source, edge);
    lemma_copies_transposed(triples, source, target, edge);
}

proof fn lemma_turned(triples: Seq<(u32, u32, u32)>, node_count: int)
    ensures
        sources_inside(transposed(triples), node_count) == targets_inside(triples, node_count),
        targets_inside(transposed(triples), node_count) == sources_inside(triples, node_count),
{
    let turned = transposed(triples);
    if sources_inside(turned, node_count) {
        assert forall|i: int| 0 <= i < triples.len() implies (#[trigger] triples[i]).1
            < node_count by {
            assert(turned[i].0 < node_count);
        }
    }
    if targets_inside(turned, node_count) {
        assert forall|i: int| 0 <= i < triples.len() implies (#[trigger] triples[i]).0
            < node_count by {
            assert(turned[i].1 < node_count);
        }
    }
    if targets_inside(triples, node_count) {
        assert forall|i: int| 0 <= i < turned.len() implies (#[trigger] turned[i]).0
            < node_count by {
            assert(triples[i].1 < node_count);
        }
    }
    if sources_inside(triples, node_count) {
        assert forall|i: int| 0 <= i < turned.len() implies (#[trigger] turned[i]).1
            < node_count by {
            assert(triples[i].0 < node_count);
        }
    }
}

proof fn lemma_degree_bound(triples: Seq<(u32, u32, u32)>, source: int)
    ensures
        0 <= degree(triples, source) <= triples.len(),
    decreases triples.len(),
{
    if triples.len() > 0 {
        lemma_degree_bound(triples.drop_last(), source);
    }
}

/// Edges that can be counted have an adjacency the other way round exactly if they have one at all.
pub proof fn law_transposed_builds(
    node_count: int,
    triples: Seq<(u32, u32, u32)>,
    outgoing: Result<Csr>,
    incoming: Result<Csr>,
)
    requires
        triples.len() <= u32::MAX,
        build_outcome(node_count, triples, outgoing),
        build_outcome(node_count, transposed(triples), incoming),
    ensures
        outgoing is Ok <==> incoming is Ok,
        outgoing matches Ok(csr) ==> csr.lists(node_count, triples) && sources_inside(
            triples,
            node_count,
        ) && targets_inside(triples, node_count),
        incoming matches Ok(csr) ==> csr.lists(node_count, transposed(triples)),
{
    lemma_turned(triples, node_count);
    assert forall|node: int| #[trigger] degree(triples, node) <= u32::MAX by {
        lemma_degree_bound(triples, node);
    }
    assert forall|node: int| #[trigger] degree(transposed(triples), node) <= u32::MAX by {
        lemma_degree_bound(transposed(triples), node);
    }
}

/// The neighbors in a row of listed edges ascend.
pub proof fn law_listed_rows_ascend(
    csr: Csr,
    node_count: int,
    triples: Seq<(u32, u32, u32)>,
)
    requires
        node_count >= 0,
        csr.lists(node_count, triples),
        sources_inside(triples, node_count),
        targets_inside(triples, node_count),
    ensures
        crate::algorithms::paths::rows_ascend(csr),
{
    law_listed_rows(csr, node_count, triples);
    let keys = choose|keys: Seq<u128>| #[trigger] csr.listed_by(node_count, triples, keys);
    lemma_sorted_keys(triples, keys, node_count);
    assert forall|node: u32| #[trigger] crate::algorithms::paths::ascends(
        crate::algorithms::traversal::row_nodes(csr, node),
    ) by {
        let nodes = crate::algorithms::traversal::row_nodes(csr, node);
        assert forall|i: int, j: int| 0 <= i <= j < nodes.len() implies #[trigger] nodes[i]
            <= #[trigger] nodes[j] by {
            let from = csr.spec_offsets()[node as int] as int;
            let a = keys[from + i];
            let b = keys[from + j];
            assert(from + i < csr.spec_offsets()[node as int] <==> triple_of(keys[from + i]).0
                < node);
            assert(from + i < csr.spec_offsets()[node + 1] <==> triple_of(keys[from + i]).0 < node
                + 1);
            assert(from + j < csr.spec_offsets()[node as int] <==> triple_of(keys[from + j]).0
                < node);
            assert(from + j < csr.spec_offsets()[node + 1] <==> triple_of(keys[from + j]).0 < node
                + 1);
            assert(a <= b);
            lemma_key_of_triple(a);
            lemma_key_of_triple(b);
            law_triple_key_order(triple_of(b), triple_of(a));
        }
    }
}

} // verus!
