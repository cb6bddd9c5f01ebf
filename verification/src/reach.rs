//! Reachability over an edge relation.

use vstd::prelude::*;

verus! {

/// An edge relation between nodes.
pub type Relation = spec_fn(int, int) -> bool;

/// A walk of `hops` edges leads from `from` to `to`.
pub open spec fn steps(edge: Relation, from: int, to: int, hops: nat) -> bool
    decreases hops,
{
    if hops == 0 {
        from == to
    } else {
        exists|middle: int|
            steps(edge, from, middle, (hops - 1) as nat) && #[trigger] edge(middle, to)
    }
}

/// Some walk leads from `from` to `to`.
pub open spec fn reaches(edge: Relation, from: int, to: int) -> bool {
    exists|hops: nat| #[trigger] steps(edge, from, to, hops)
}

/// Each of two nodes can reach the other.
pub open spec fn mutual(edge: Relation, left: int, right: int) -> bool {
    reaches(edge, left, right) && reaches(edge, right, left)
}

pub proof fn lemma_reaches_self(edge: Relation, node: int)
    ensures
        reaches(edge, node, node),
{
    assert(steps(edge, node, node, 0));
}

pub proof fn lemma_reaches_edge(edge: Relation, from: int, middle: int, to: int)
    requires
        reaches(edge, from, middle),
        edge(middle, to),
    ensures
        reaches(edge, from, to),
{
    let hops = choose|hops: nat| #[trigger] steps(edge, from, middle, hops);
    assert(steps(edge, from, to, hops + 1));
}

pub proof fn lemma_one_edge(edge: Relation, from: int, to: int)
    requires
        edge(from, to),
    ensures
        reaches(edge, from, to),
{
    lemma_reaches_self(edge, from);
    lemma_reaches_edge(edge, from, from, to);
}

proof fn lemma_steps_append(edge: Relation, from: int, middle: int, to: int, hops: nat)
    requires
        reaches(edge, from, middle),
        steps(edge, middle, to, hops),
    ensures
        reaches(edge, from, to),
    decreases hops,
{
    if hops > 0 {
        let before = choose|before: int|
            steps(edge, middle, before, (hops - 1) as nat) && #[trigger] edge(before, to);
        lemma_steps_append(edge, from, middle, before, (hops - 1) as nat);
        lemma_reaches_edge(edge, from, before, to);
    }
}

pub proof fn lemma_reaches_trans(edge: Relation, from: int, middle: int, to: int)
    requires
        reaches(edge, from, middle),
        reaches(edge, middle, to),
    ensures
        reaches(edge, from, to),
{
    let hops = choose|hops: nat| #[trigger] steps(edge, middle, to, hops);
    lemma_steps_append(edge, from, middle, to, hops);
}

pub proof fn lemma_mutual_trans(edge: Relation, left: int, middle: int, right: int)
    requires
        mutual(edge, left, middle),
        mutual(edge, middle, right),
    ensures
        mutual(edge, left, right),
        mutual(edge, right, left),
        mutual(edge, middle, left),
{
    lemma_reaches_trans(edge, left, middle, right);
    lemma_reaches_trans(edge, right, middle, left);
}

/// A set that no edge leaves holds everything that its members reach.
pub proof fn lemma_closed_set(edge: Relation, closed: Set<int>, from: int, to: int)
    requires
        closed.contains(from),
        reaches(edge, from, to),
        forall|u: int, v: int| closed.contains(u) && #[trigger] edge(u, v) ==> closed.contains(v),
    ensures
        closed.contains(to),
{
    let hops = choose|hops: nat| #[trigger] steps(edge, from, to, hops);
    lemma_closed_steps(edge, closed, from, to, hops);
}

proof fn lemma_closed_steps(edge: Relation, closed: Set<int>, from: int, to: int, hops: nat)
    requires
        closed.contains(from),
        steps(edge, from, to, hops),
        forall|u: int, v: int| closed.contains(u) && #[trigger] edge(u, v) ==> closed.contains(v),
    ensures
        closed.contains(to),
    decreases hops,
{
    if hops > 0 {
        let middle = choose|middle: int|
            steps(edge, from, middle, (hops - 1) as nat) && #[trigger] edge(middle, to);
        lemma_closed_steps(edge, closed, from, middle, (hops - 1) as nat);
    }
}

/// A walk that starts inside a set and ends outside of it leaves it by some edge.
pub proof fn lemma_exit_edge(edge: Relation, inside: Set<int>, from: int, to: int) -> (exit: (
    int,
    int,
))
    requires
        inside.contains(from),
        !inside.contains(to),
        reaches(edge, from, to),
    ensures
        inside.contains(exit.0),
        !inside.contains(exit.1),
        edge(exit.0, exit.1),
        reaches(edge, from, exit.1),
        reaches(edge, exit.1, to),
{
    let hops = choose|hops: nat| #[trigger] steps(edge, from, to, hops);
    lemma_exit_steps(edge, inside, from, to, hops)
}

proof fn lemma_exit_steps(
    edge: Relation,
    inside: Set<int>,
    from: int,
    to: int,
    hops: nat,
) -> (exit: (int, int))
    requires
        inside.contains(from),
        !inside.contains(to),
        steps(edge, from, to, hops),
    ensures
        inside.contains(exit.0),
        !inside.contains(exit.1),
        edge(exit.0, exit.1),
        reaches(edge, from, exit.1),
        reaches(edge, exit.1, to),
    decreases hops,
{
    let middle = choose|middle: int|
        steps(edge, from, middle, (hops - 1) as nat) && #[trigger] edge(middle, to);
    if inside.contains(middle) {
        lemma_reaches_edge(edge, from, middle, to);
        lemma_reaches_self(edge, to);
        (middle, to)
    } else {
        let exit = lemma_exit_steps(edge, inside, from, middle, (hops - 1) as nat);
        lemma_reaches_edge(edge, exit.1, middle, to);
        exit
    }
}

/// A walk along edges leads from its first node to its last.
pub proof fn law_paths_reach(edge: Relation, path: Seq<int>)
    requires
        path.len() > 0,
        forall|i: int| 0 <= i < path.len() - 1 ==> #[trigger] edge(path[i], path[i + 1]),
    ensures
        reaches(edge, path[0], path.last()),
    decreases path.len(),
{
    if path.len() == 1 {
        lemma_reaches_self(edge, path[0]);
    } else {
        let head = path.drop_last();
        assert forall|i: int| 0 <= i < head.len() - 1 implies #[trigger] edge(
            head[i],
            head[i + 1],
        ) by {
            assert(edge(path[i], path[i + 1]));
        }
        law_paths_reach(edge, head);
        let last = path.len() - 1;
        assert(edge(path[last - 1], path[last - 1 + 1]));
        lemma_reaches_edge(edge, path[0], head.last(), path[last]);
    }
}

/// What is reached is reached along some path.
pub proof fn law_reached_along_a_path(edge: Relation, from: int, to: int) -> (path: Seq<int>)
    requires
        reaches(edge, from, to),
    ensures
        path.len() > 0,
        path[0] == from,
        path.last() == to,
        forall|i: int| 0 <= i < path.len() - 1 ==> #[trigger] edge(path[i], path[i + 1]),
{
    let hops = choose|hops: nat| #[trigger] steps(edge, from, to, hops);
    lemma_steps_path(edge, from, to, hops)
}

proof fn lemma_steps_path(edge: Relation, from: int, to: int, hops: nat) -> (path: Seq<int>)
    requires
        steps(edge, from, to, hops),
    ensures
        path.len() == hops + 1,
        path[0] == from,
        path.last() == to,
        forall|i: int| 0 <= i < path.len() - 1 ==> #[trigger] edge(path[i], path[i + 1]),
    decreases hops,
{
    if hops == 0 {
        seq![from]
    } else {
        let middle = choose|middle: int|
            steps(edge, from, middle, (hops - 1) as nat) && #[trigger] edge(middle, to);
        let head = lemma_steps_path(edge, from, middle, (hops - 1) as nat);
        let path = head.push(to);
        assert forall|i: int| 0 <= i < path.len() - 1 implies #[trigger] edge(
            path[i],
            path[i + 1],
        ) by {
            if i < head.len() - 1 {
                assert(edge(head[i], head[i + 1]));
            }
        }
        path
    }
}

} // verus!
