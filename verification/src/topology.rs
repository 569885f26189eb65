//! The mathematical model of an undirected multigraph: a sequence of edges
//! over the nodes `0 .. n`, each edge a pair of node indices in the order in
//! which it was added. Parallel edges and self-loops are ordinary edges.

use vstd::prelude::*;

verus! {

/// Whether every endpoint of `edges` is one of the nodes `0 .. n`.
pub open spec fn edges_within(edges: Seq<(int, int)>, n: nat) -> bool {
    forall|i: int|
        #![trigger edges[i]]
        0 <= i < edges.len() ==> 0 <= edges[i].0 < n && 0 <= edges[i].1 < n
}

/// Whether the edge `e` connects `a` and `b`, in either direction.
pub open spec fn joins(e: (int, int), a: int, b: int) -> bool {
    (e.0 == a && e.1 == b) || (e.0 == b && e.1 == a)
}

/// Whether some edge connects `a` and `b`.
pub open spec fn adjacent(edges: Seq<(int, int)>, a: int, b: int) -> bool {
    exists|i: int| 0 <= i < edges.len() && joins(#[trigger] edges[i], a, b)
}

/// The far ends of the edges that start at `v`, newest edge first.
pub open spec fn heads_from(edges: Seq<(int, int)>, v: int) -> Seq<int>
    decreases edges.len(),
{
    if edges.len() == 0 {
        Seq::empty()
    } else if edges.last().0 == v {
        seq![edges.last().1] + heads_from(edges.drop_last(), v)
    } else {
        heads_from(edges.drop_last(), v)
    }
}

/// The near ends of the edges that end at `v` and start elsewhere, newest
/// edge first.
pub open spec fn tails_into(edges: Seq<(int, int)>, v: int) -> Seq<int>
    decreases edges.len(),
{
    if edges.len() == 0 {
        Seq::empty()
    } else if edges.last().1 == v && edges.last().0 != v {
        seq![edges.last().0] + tails_into(edges.drop_last(), v)
    } else {
        tails_into(edges.drop_last(), v)
    }
}

/// The neighbours of `v`, one entry for each edge at `v`: a parallel edge
/// repeats its neighbour, a self-loop lists `v` once.
pub open spec fn neighbor_list(edges: Seq<(int, int)>, v: int) -> Seq<int> {
    heads_from(edges, v) + tails_into(edges, v)
}

/// The number of neighbour entries of `v`: one for each edge at `v`.
pub open spec fn entry_count(edges: Seq<(int, int)>, v: int) -> nat {
    neighbor_list(edges, v).len()
}

/// What one endpoint of an edge adds to a count.
pub open spec fn unit(b: bool) -> nat {
    if b {
        1
    } else {
        0
    }
}

/// The degree of `v`: the number of edge endpoints at `v`. A parallel edge
/// counts each time, and a self-loop counts twice, once for each of its ends.
pub open spec fn degree(edges: Seq<(int, int)>, v: int) -> nat
    decreases edges.len(),
{
    if edges.len() == 0 {
        0
    } else {
        degree(edges.drop_last(), v) + unit(edges.last().0 == v) + unit(edges.last().1 == v)
    }
}

/// The number of entries of `list` that are `v`.
pub open spec fn occurrences(list: Seq<int>, v: int) -> nat
    decreases list.len(),
{
    if list.len() == 0 {
        0
    } else {
        occurrences(list.drop_last(), v) + unit(list.last() == v)
    }
}

/// The sum of the degrees of the nodes `0 .. n`.
pub open spec fn degree_sum(edges: Seq<(int, int)>, n: nat) -> nat
    decreases n,
{
    if n == 0 {
        0
    } else {
        degree_sum(edges, (n - 1) as nat) + degree(edges, n - 1)
    }
}

/// A new edge adds one to the degree of each of its ends, so two to the
/// degree of the node of a self-loop.
pub proof fn lemma_degree_push(edges: Seq<(int, int)>, e: (int, int), v: int)
    ensures
        degree(edges.push(e), v) == degree(edges, v) + unit(e.0 == v) + unit(e.1 == v),
{
    let grown = edges.push(e);
    assert(grown.drop_last() =~= edges);
    assert(grown.last() == e);
}

/// A new edge lengthens the neighbour list of its start by one and, unless it
/// is a self-loop, that of its end by one; all other lists keep their length.
pub proof fn lemma_entry_count_push(edges: Seq<(int, int)>, e: (int, int), v: int)
    ensures
        entry_count(edges.push(e), v) == entry_count(edges, v) + unit(e.0 == v) + unit(
            e.1 == v && e.0 != v,
        ),
{
    let grown = edges.push(e);
    assert(grown.drop_last() =~= edges);
    assert(grown.last() == e);
}

/// No node has more neighbour entries than there are edges.
pub proof fn lemma_entry_count_bound(edges: Seq<(int, int)>, v: int)
    ensures
        entry_count(edges, v) <= edges.len(),
    decreases edges.len(),
{
    if edges.len() > 0 {
        lemma_entry_count_bound(edges.drop_last(), v);
        lemma_entry_count_push(edges.drop_last(), edges.last(), v);
        assert(edges.drop_last().push(edges.last()) =~= edges);
    }
}

/// Counting the entries that are `v` goes through a list part by part.
pub proof fn lemma_occurrences_concat(a: Seq<int>, b: Seq<int>, v: int)
    ensures
        occurrences(a + b, v) == occurrences(a, v) + occurrences(b, v),
    decreases b.len(),
{
    if b.len() == 0 {
        assert(a + b =~= a);
    } else {
        lemma_occurrences_concat(a, b.drop_last(), v);
        assert((a + b).drop_last() =~= a + b.drop_last());
        assert((a + b).last() == b.last());
    }
}

/// A list of one entry holds `v` once or not at all.
pub proof fn lemma_occurrences_single(x: int, v: int)
    ensures
        occurrences(seq![x], v) == unit(x == v),
{
    assert(seq![x].drop_last() =~= Seq::<int>::empty());
    assert(seq![x].last() == x);
    assert(occurrences(Seq::<int>::empty(), v) == 0);
}

/// The near ends of the edges that end at `v` and start elsewhere are never
/// `v`.
pub proof fn lemma_tails_hold_no_loop(edges: Seq<(int, int)>, v: int)
    ensures
        occurrences(tails_into(edges, v), v) == 0,
    decreases edges.len(),
{
    if edges.len() > 0 {
        lemma_tails_hold_no_loop(edges.drop_last(), v);
        if edges.last().1 == v && edges.last().0 != v {
            lemma_occurrences_single(edges.last().0, v);
            lemma_occurrences_concat(seq![edges.last().0], tails_into(edges.drop_last(), v), v);
        }
    }
}

/// Among the far ends of the edges that start at `v`, `v` stands once for
/// each self-loop: together with the entry count that is the degree.
proof fn lemma_degree_from_parts(edges: Seq<(int, int)>, v: int)
    ensures
        degree(edges, v) == heads_from(edges, v).len() + tails_into(edges, v).len() + occurrences(
            heads_from(edges, v),
            v,
        ),
    decreases edges.len(),
{
    if edges.len() > 0 {
        lemma_degree_from_parts(edges.drop_last(), v);
        if edges.last().0 == v {
            lemma_occurrences_single(edges.last().1, v);
            lemma_occurrences_concat(seq![edges.last().1], heads_from(edges.drop_last(), v), v);
        }
    }
}

/// The degree of `v` from its neighbour list: the number of entries, and one
/// more for each entry that is `v` itself, which stands for a self-loop.
pub proof fn lemma_degree_from_entries(edges: Seq<(int, int)>, v: int)
    ensures
        degree(edges, v) == entry_count(edges, v) + occurrences(neighbor_list(edges, v), v),
        entry_count(edges, v) <= degree(edges, v) <= 2 * entry_count(edges, v),
{
    lemma_degree_from_parts(edges, v);
    lemma_tails_hold_no_loop(edges, v);
    lemma_occurrences_concat(heads_from(edges, v), tails_into(edges, v), v);
    lemma_occurrences_bound(heads_from(edges, v), v);
}

/// A list holds `v` no more often than it has entries.
pub proof fn lemma_occurrences_bound(list: Seq<int>, v: int)
    ensures
        occurrences(list, v) <= list.len(),
    decreases list.len(),
{
    if list.len() > 0 {
        lemma_occurrences_bound(list.drop_last(), v);
    }
}

/// What a new edge adds to the sum of the degrees of the nodes `0 .. n`: one
/// for each of its ends among them.
pub proof fn lemma_degree_sum_push(edges: Seq<(int, int)>, e: (int, int), n: nat)
    ensures
        degree_sum(edges.push(e), n) == degree_sum(edges, n) + unit(0 <= e.0 < n) + unit(
            0 <= e.1 < n,
        ),
    decreases n,
{
    if n > 0 {
        lemma_degree_sum_push(edges, e, (n - 1) as nat);
        lemma_degree_push(edges, e, n - 1);
    }
}

/// Without edges every degree is zero.
pub proof fn lemma_degree_sum_empty(n: nat)
    ensures
        degree_sum(Seq::<(int, int)>::empty(), n) == 0,
    decreases n,
{
    if n > 0 {
        lemma_degree_sum_empty((n - 1) as nat);
    }
}

/// The degrees of any range of nodes sum to at most twice the number of
/// edges.
pub proof fn lemma_degree_sum_bound(edges: Seq<(int, int)>, n: nat)
    ensures
        degree_sum(edges, n) <= 2 * edges.len(),
    decreases edges.len(),
{
    if edges.len() == 0 {
        assert(edges =~= Seq::<(int, int)>::empty());
        lemma_degree_sum_empty(n);
    } else {
        lemma_degree_sum_bound(edges.drop_last(), n);
        lemma_degree_sum_push(edges.drop_last(), edges.last(), n);
        assert(edges.drop_last().push(edges.last()) =~= edges);
    }
}

/// The handshake law: the degrees of all nodes sum to twice the number of
/// edges, parallel edges and self-loops counted each.
pub proof fn lemma_handshake(edges: Seq<(int, int)>, n: nat)
    requires
        edges_within(edges, n),
    ensures
        degree_sum(edges, n) == 2 * edges.len(),
    decreases edges.len(),
{
    if edges.len() == 0 {
        assert(edges =~= Seq::<(int, int)>::empty());
        lemma_degree_sum_empty(n);
    } else {
        let init = edges.drop_last();
        let e = edges.last();
        assert(edges_within(init, n)) by {
            assert forall|i: int| 0 <= i < init.len() implies 0 <= (#[trigger] init[i]).0 < n && 0
                <= init[i].1 < n by {
                assert(init[i] == edges[i]);
            }
        }
        lemma_handshake(init, n);
        lemma_degree_sum_push(init, e, n);
        assert(init.push(e) =~= edges);
        assert(0 <= edges[edges.len() - 1].0 < n && 0 <= edges[edges.len() - 1].1 < n);
    }
}

/// The neighbour list of `v` holds exactly the nodes adjacent to `v`.
pub proof fn lemma_neighbors_are_adjacent(edges: Seq<(int, int)>, v: int, u: int)
    ensures
        neighbor_list(edges, v).contains(u) <==> adjacent(edges, v, u),
    decreases edges.len(),
{
    if edges.len() == 0 {
        assert(!neighbor_list(edges, v).contains(u));
    } else {
        let init = edges.drop_last();
        let e = edges.last();
        lemma_neighbors_are_adjacent(init, v, u);
        let old_list = neighbor_list(init, v);
        let new_list = neighbor_list(edges, v);
        let front = if e.0 == v { seq![e.1] } else { Seq::<int>::empty() };
        let middle = if e.1 == v && e.0 != v { seq![e.0] } else { Seq::<int>::empty() };
        assert(new_list =~= front + heads_from(init, v) + middle + tails_into(init, v));
        if new_list.contains(u) {
            let k = choose|k: int| 0 <= k < new_list.len() && new_list[k] == u;
            if k < front.len() {
                assert(joins(edges[edges.len() - 1], v, u));
            } else if k < front.len() + heads_from(init, v).len() {
                assert(old_list[k - front.len()] == u);
                assert(old_list.contains(u));
            } else if k < front.len() + heads_from(init, v).len() + middle.len() {
                assert(joins(edges[edges.len() - 1], v, u));
            } else {
                assert(old_list[k - front.len() - middle.len()] == u);
                assert(old_list.contains(u));
            }
            if old_list.contains(u) {
                let i = choose|i: int| 0 <= i < init.len() && joins(#[trigger] init[i], v, u);
                assert(joins(edges[i], v, u));
            }
        }
        if adjacent(edges, v, u) {
            let i = choose|i: int| 0 <= i < edges.len() && joins(#[trigger] edges[i], v, u);
            if i < init.len() {
                assert(joins(init[i], v, u));
                assert(old_list.contains(u));
                let k = choose|k: int| 0 <= k < old_list.len() && old_list[k] == u;
                if k < heads_from(init, v).len() {
                    assert(new_list[front.len() + k] == u);
                } else {
                    assert(new_list[front.len() + middle.len() + k] == u);
                }
            } else {
                if e.0 == v {
                    assert(new_list[0] == u);
                } else {
                    assert(new_list[(front.len() + heads_from(init, v).len()) as int] == u);
                }
            }
        }
    }
}

} // verus!
