//! Walks, reachability and shortest-path distance in the edge-sequence model.

use vstd::prelude::*;
use crate::topology::{
    adjacent, degree, edges_within, joins, lemma_degree_from_entries,
    lemma_neighbors_are_adjacent, neighbor_list,
};

verus! {

/// Whether an edge connects the node at position `i` of `path` with the next.
pub open spec fn step(edges: Seq<(int, int)>, path: Seq<int>, i: int) -> bool {
    adjacent(edges, path[i], path[i + 1])
}

/// Whether `path` is a walk from `s` to `t`: it starts at `s`, ends at `t`,
/// and an edge connects each of its nodes with the next.
pub open spec fn walks(edges: Seq<(int, int)>, path: Seq<int>, s: int, t: int) -> bool {
    &&& path.len() >= 1
    &&& path[0] == s
    &&& path[path.len() - 1] == t
    &&& forall|i: int| 0 <= i < path.len() - 1 ==> #[trigger] step(edges, path, i)
}

/// Whether some walk with exactly `k` edges leads from `s` to `t`.
pub open spec fn within(edges: Seq<(int, int)>, s: int, t: int, k: nat) -> bool {
    exists|path: Seq<int>| #[trigger] walks(edges, path, s, t) && path.len() == k + 1
}

/// Whether some walk leads from `s` to `t`. Every node reaches itself.
pub open spec fn reachable(edges: Seq<(int, int)>, s: int, t: int) -> bool {
    exists|k: nat| within(edges, s, t, k)
}

/// Whether `d` is the least number of edges of a walk from `s` to `t`.
pub open spec fn is_distance(edges: Seq<(int, int)>, s: int, t: int, d: nat) -> bool {
    &&& within(edges, s, t, d)
    &&& forall|k: nat| k < d ==> !within(edges, s, t, k)
}

/// The shortest-path distance from `s` to `t`; meaningful where `t` is
/// reachable from `s`.
pub open spec fn distance(edges: Seq<(int, int)>, s: int, t: int) -> nat {
    choose|d: nat| is_distance(edges, s, t, d)
}

/// Among the walks from `s` to `t` with at most `k` edges one is shortest.
proof fn lemma_least_walk(edges: Seq<(int, int)>, s: int, t: int, k: nat)
    requires
        within(edges, s, t, k),
    ensures
        exists|d: nat| is_distance(edges, s, t, d),
    decreases k,
{
    if exists|j: nat| j < k && within(edges, s, t, j) {
        let j = choose|j: nat| j < k && within(edges, s, t, j);
        lemma_least_walk(edges, s, t, j);
    } else {
        assert(is_distance(edges, s, t, k));
    }
}

/// Where `t` is reachable from `s`, `distance` is the length of a shortest walk.
pub proof fn lemma_distance_is_least(edges: Seq<(int, int)>, s: int, t: int)
    requires
        reachable(edges, s, t),
    ensures
        is_distance(edges, s, t, distance(edges, s, t)),
{
    let k = choose|k: nat| within(edges, s, t, k);
    lemma_least_walk(edges, s, t, k);
}

/// A least walk length is the distance: there is only one.
pub proof fn lemma_distance_unique(edges: Seq<(int, int)>, s: int, t: int, d: nat)
    requires
        is_distance(edges, s, t, d),
    ensures
        reachable(edges, s, t),
        distance(edges, s, t) == d,
{
    lemma_distance_is_least(edges, s, t);
    let c = distance(edges, s, t);
    if c < d {
        assert(!within(edges, s, t, c));
    }
    if d < c {
        assert(!within(edges, s, t, d));
    }
}

/// A walk read backwards is a walk.
pub proof fn lemma_within_symmetric(edges: Seq<(int, int)>, s: int, t: int, k: nat)
    requires
        within(edges, s, t, k),
    ensures
        within(edges, t, s, k),
{
    let path = choose|path: Seq<int>| #[trigger] walks(edges, path, s, t) && path.len() == k + 1;
    let back = Seq::new(path.len(), |i: int| path[path.len() - 1 - i]);
    assert forall|i: int| 0 <= i < back.len() - 1 implies #[trigger] step(edges, back, i) by {
        let j = path.len() - 2 - i;
        assert(step(edges, path, j));
        let a = path[j];
        let b = path[j + 1];
        let w = choose|w: int| 0 <= w < edges.len() && joins(#[trigger] edges[w], a, b);
        assert(joins(edges[w], b, a));
        assert(back[i] == b);
        assert(back[i + 1] == a);
    }
    assert(walks(edges, back, t, s));
}

/// Distance is symmetric: `t` is reachable from `s` exactly when `s` is
/// reachable from `t`, and then both distances are the same.
pub proof fn lemma_distance_symmetric(edges: Seq<(int, int)>, s: int, t: int)
    ensures
        reachable(edges, s, t) == reachable(edges, t, s),
        reachable(edges, s, t) ==> distance(edges, s, t) == distance(edges, t, s),
{
    if reachable(edges, s, t) {
        let k = choose|k: nat| within(edges, s, t, k);
        lemma_within_symmetric(edges, s, t, k);
    }
    if reachable(edges, t, s) {
        let k = choose|k: nat| within(edges, t, s, k);
        lemma_within_symmetric(edges, t, s, k);
    }
    if reachable(edges, s, t) {
        lemma_distance_is_least(edges, s, t);
        lemma_distance_is_least(edges, t, s);
        let d = distance(edges, s, t);
        let c = distance(edges, t, s);
        lemma_within_symmetric(edges, s, t, d);
        lemma_within_symmetric(edges, t, s, c);
        if c < d {
            assert(!within(edges, s, t, c));
        }
        if d < c {
            assert(!within(edges, t, s, d));
        }
    }
}

/// The distance from a node to itself is zero.
pub proof fn lemma_distance_to_self(edges: Seq<(int, int)>, s: int)
    ensures
        reachable(edges, s, s),
        distance(edges, s, s) == 0,
{
    let path = seq![s];
    assert(walks(edges, path, s, s));
    assert(within(edges, s, s, 0));
    assert(is_distance(edges, s, s, 0));
    lemma_distance_unique(edges, s, s, 0);
}

/// A node without edges reaches no other node, and no other node reaches it.
pub proof fn lemma_isolated_unreachable(edges: Seq<(int, int)>, v: int, t: int)
    requires
        degree(edges, v) == 0,
        t != v,
    ensures
        !reachable(edges, v, t),
        !reachable(edges, t, v),
{
    lemma_distance_symmetric(edges, v, t);
    if reachable(edges, v, t) {
        let k = choose|k: nat| within(edges, v, t, k);
        let path = choose|path: Seq<int>| #[trigger]
            walks(edges, path, v, t) && path.len() == k + 1;
        assert(step(edges, path, 0));
        lemma_neighbors_are_adjacent(edges, v, path[1]);
        lemma_degree_from_entries(edges, v);
        assert(neighbor_list(edges, v).len() > 0);
    }
}

/// Walks never leave the nodes `0 .. n` that the edges lie within.
pub proof fn lemma_reachable_within(edges: Seq<(int, int)>, n: nat, s: int, t: int)
    requires
        edges_within(edges, n),
        reachable(edges, s, t),
        s != t,
    ensures
        0 <= s < n,
        0 <= t < n,
{
    let k = choose|k: nat| within(edges, s, t, k);
    let path = choose|path: Seq<int>| #[trigger] walks(edges, path, s, t) && path.len() == k + 1;
    assert(step(edges, path, 0));
    assert(step(edges, path, path.len() - 2));
    let i = choose|i: int| 0 <= i < edges.len() && joins(#[trigger] edges[i], path[0], path[1]);
    let j = choose|j: int|
        0 <= j < edges.len() && joins(
            #[trigger] edges[j],
            path[path.len() - 2],
            path[path.len() - 2 + 1],
        );
}

/// Every node of a walk that starts among the nodes `0 .. n` is among them.
pub proof fn lemma_walk_stays_within(
    edges: Seq<(int, int)>,
    n: nat,
    path: Seq<int>,
    s: int,
    t: int,
)
    requires
        edges_within(edges, n),
        walks(edges, path, s, t),
        0 <= s < n,
    ensures
        forall|i: int| 0 <= i < path.len() ==> 0 <= #[trigger] path[i] < n,
{
    assert forall|i: int| 0 <= i < path.len() implies 0 <= #[trigger] path[i] < n by {
        if i > 0 {
            assert(step(edges, path, i - 1));
            let w = choose|w: int|
                0 <= w < edges.len() && joins(#[trigger] edges[w], path[i - 1], path[i - 1 + 1]);
        }
    }
}

/// A walk that passes a node twice can leave out what lies between.
pub proof fn lemma_walk_shortcut(
    edges: Seq<(int, int)>,
    path: Seq<int>,
    s: int,
    t: int,
    i: int,
    j: int,
)
    requires
        walks(edges, path, s, t),
        0 <= i < j < path.len(),
        path[i] == path[j],
    ensures
        within(edges, s, t, (path.len() - 1 - (j - i)) as nat),
{
    let short = path.take(i + 1) + path.skip(j + 1);
    assert forall|k: int| 0 <= k < short.len() - 1 implies #[trigger] step(edges, short, k) by {
        if k < i {
            assert(step(edges, path, k));
        } else {
            assert(step(edges, path, k + (j - i)));
        }
    }
    assert(walks(edges, short, s, t));
}

/// More than `n` nodes out of `0 .. n` hold one of them twice.
pub proof fn lemma_some_node_twice(path: Seq<int>, n: nat)
    requires
        path.len() > n,
        forall|i: int| 0 <= i < path.len() ==> 0 <= #[trigger] path[i] < n,
    ensures
        exists|i: int, j: int| 0 <= i < j < path.len() && path[i] == path[j],
{
    if path.no_duplicates() {
        path.unique_seq_to_set();
        vstd::set_lib::lemma_int_range(0, n as int);
        assert(path.to_set().subset_of(vstd::set_lib::set_int_range(0, n as int))) by {
            assert forall|x: int| path.to_set().contains(x) implies vstd::set_lib::set_int_range(
                0,
                n as int,
            ).contains(x) by {
                let k = choose|k: int| 0 <= k < path.len() && path[k] == x;
                assert(0 <= path[k] < n);
            }
        }
        vstd::set_lib::lemma_len_subset(path.to_set(), vstd::set_lib::set_int_range(0, n as int));
        assert(false);
    } else {
        let (a, b) = choose|a: int, b: int|
            0 <= a < path.len() && 0 <= b < path.len() && a != b && path[a] == path[b];
        if a < b {
            assert(0 <= a < b < path.len() && path[a] == path[b]);
        } else {
            assert(0 <= b < a < path.len() && path[b] == path[a]);
        }
    }
}

/// A shortest walk passes no node twice: among `n` nodes every distance is
/// less than `n`.
pub proof fn lemma_distance_bound(edges: Seq<(int, int)>, n: nat, s: int, t: int)
    requires
        edges_within(edges, n),
        0 <= s < n,
        reachable(edges, s, t),
    ensures
        distance(edges, s, t) < n,
{
    lemma_distance_is_least(edges, s, t);
    let d = distance(edges, s, t);
    let path = choose|path: Seq<int>| #[trigger] walks(edges, path, s, t) && path.len() == d + 1;
    if d >= n {
        lemma_walk_stays_within(edges, n, path, s, t);
        lemma_some_node_twice(path, n);
        let (i, j) = choose|i: int, j: int| 0 <= i < j < path.len() && path[i] == path[j];
        lemma_walk_shortcut(edges, path, s, t, i, j);
        assert(!within(edges, s, t, (d - (j - i)) as nat));
    }
}

} // verus!
