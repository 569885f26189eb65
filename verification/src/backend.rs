//! The graph container of `petgraph`, as far as this library uses it.
//!
//! Nothing in this file is proved. Each function states what the matching
//! `petgraph` function does to the container's list of edges and its number of
//! nodes; the rest of the crate is verified against these statements.

use vstd::prelude::*;
use petgraph::graph::Graph;
use petgraph::graph::NodeIndex;
use petgraph::Undirected;
use crate::topology::{adjacent, neighbor_list};
use crate::distances::edge_cost;
use crate::paths::{is_distance, reachable};

verus! {

/// `petgraph::graph::Graph`, taken as it is: what it holds is told by
/// `graph_edges` and `graph_order`.
#[verifier::external_type_specification]
#[verifier::external_body]
#[verifier::reject_recursive_types(N)]
#[verifier::reject_recursive_types(E)]
#[verifier::reject_recursive_types(Ty)]
#[verifier::reject_recursive_types(Ix)]
pub struct ExGraph<N, E, Ty, Ix>(Graph<N, E, Ty, Ix>);

/// `petgraph::Undirected`, the marker of graphs whose edges have no direction.
#[verifier::external_type_specification]
#[verifier::external_body]
pub struct ExUndirected(Undirected);

/// The edges that a graph holds, oldest first, each as the pair of node
/// indices it was added with.
pub uninterp spec fn graph_edges(g: Graph<(), (), Undirected, u32>) -> Seq<(int, int)>;

/// The number of nodes that a graph holds; its nodes are `0 .. graph_order(g)`.
pub uninterp spec fn graph_order(g: Graph<(), (), Undirected, u32>) -> nat;

/// `Graph::new_undirected`: a graph without nodes and edges.
#[verifier::external_body]
pub(crate) fn empty_graph() -> (g: Graph<(), (), Undirected, u32>)
    ensures
        graph_order(g) == 0,
        graph_edges(g) == Seq::<(int, int)>::empty(),
{
    Graph::new_undirected()
}

/// `Graph::node_count`.
#[verifier::external_body]
pub(crate) fn node_count(g: &Graph<(), (), Undirected, u32>) -> (n: usize)
    ensures
        n == graph_order(*g),
{
    g.node_count()
}

/// `Graph::add_node`: the new node gets the next free index, which is
/// returned; the edges stay. The outside function panics once the index type
/// is exhausted, which `requires` excludes.
#[verifier::external_body]
pub(crate) fn add_node(g: &mut Graph<(), (), Undirected, u32>) -> (v: usize)
    requires
        graph_order(*old(g)) < u32::MAX,
    ensures
        v == graph_order(*old(g)),
        graph_order(*final(g)) == graph_order(*old(g)) + 1,
        graph_edges(*final(g)) == graph_edges(*old(g)),
{
    g.add_node(()).index()
}

/// `Graph::edge_count`.
#[verifier::external_body]
pub(crate) fn edge_count(g: &Graph<(), (), Undirected, u32>) -> (m: usize)
    ensures
        m == graph_edges(*g).len(),
{
    g.edge_count()
}

/// `Graph::add_edge`: the edge from `a` to `b` is appended to the edges; the
/// nodes stay. The outside function panics where a node does not exist or the
/// index type is exhausted, which `requires` excludes.
#[verifier::external_body]
pub(crate) fn add_edge(g: &mut Graph<(), (), Undirected, u32>, a: usize, b: usize)
    requires
        a < graph_order(*old(g)),
        b < graph_order(*old(g)),
        graph_order(*old(g)) <= u32::MAX,
        graph_edges(*old(g)).len() < u32::MAX,
    ensures
        graph_order(*final(g)) == graph_order(*old(g)),
        graph_edges(*final(g)) == graph_edges(*old(g)).push((a as int, b as int)),
{
    g.add_edge(NodeIndex::new(a), NodeIndex::new(b), ());
}

/// `Graph::neighbors`, its items collected in the order in which the iterator
/// hands them out: first the far ends of the edges that start at `v`, then
/// the near ends of the edges that end at `v` without starting there, each
/// group newest edge first.
#[verifier::external_body]
pub(crate) fn neighbors(g: &Graph<(), (), Undirected, u32>, v: usize) -> (out: Vec<usize>)
    requires
        v < graph_order(*g),
        graph_order(*g) <= u32::MAX,
    ensures
        out@.len() == neighbor_list(graph_edges(*g), v as int).len(),
        forall|i: int|
            0 <= i < out@.len() ==> #[trigger] out@[i] as int == neighbor_list(
                graph_edges(*g),
                v as int,
            )[i],
{
    g.neighbors(NodeIndex::new(v)).map(|u| u.index()).collect()
}

/// `Graph::contains_edge` on an undirected graph: whether some edge connects
/// `a` and `b`, in either direction.
#[verifier::external_body]
pub(crate) fn contains_edge(g: &Graph<(), (), Undirected, u32>, a: usize, b: usize) -> (found: bool)
    requires
        a < graph_order(*g),
        b < graph_order(*g),
        graph_order(*g) <= u32::MAX,
    ensures
        found == adjacent(graph_edges(*g), a as int, b as int),
{
    g.contains_edge(NodeIndex::new(a), NodeIndex::new(b))
}

/// `petgraph::algo::dijkstra` from `s` without a goal, every edge at the cost
/// of `edge_cost`, the entries of its map handed out in the map's own order:
/// each entry is a node with the least number of edges of a walk from `s` to
/// it, every node that `s` reaches has an entry, and no node has two.
#[verifier::external_body]
pub(crate) fn shortest_paths(g: &Graph<(), (), Undirected, u32>, s: usize) -> (out: Vec<
    (usize, u64),
>)
    requires
        s < graph_order(*g),
        graph_order(*g) <= u32::MAX,
    ensures
        forall|i: int|
            0 <= i < out@.len() ==> is_distance(
                graph_edges(*g),
                s as int,
                (#[trigger] out@[i]).0 as int,
                out@[i].1 as nat,
            ),
        forall|t: int|
            0 <= t < graph_order(*g) && #[trigger] reachable(graph_edges(*g), s as int, t)
                ==> exists|i: int| 0 <= i < out@.len() && (#[trigger] out@[i]).0 == t,
        forall|i: int, j: int|
            0 <= i < j < out@.len() ==> (#[trigger] out@[i]).0 != (#[trigger] out@[j]).0,
{
    let found = petgraph::algo::dijkstra(g, NodeIndex::new(s), None, |_| edge_cost());
    found.into_iter().map(|(t, d)| (t.index(), d)).collect()
}

} // verus!
