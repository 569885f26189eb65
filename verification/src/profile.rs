//! What a plot of a graph needs: how often each degree occurs, and a point
//! for each node that shows its degree centrality.

use vstd::prelude::*;
use crate::store::Network;
use crate::topology::{degree, unit};

verus! {

/// The number of nodes among `0 .. n` whose degree is `d`.
pub open spec fn nodes_of_degree(edges: Seq<(int, int)>, n: nat, d: nat) -> nat
    decreases n,
{
    if n == 0 {
        0
    } else {
        nodes_of_degree(edges, (n - 1) as nat, d) + unit(degree(edges, n - 1) == d)
    }
}

/// Whether `m` is the greatest degree among the nodes `0 .. n`, or zero where
/// there is no node.
pub open spec fn is_max_degree(edges: Seq<(int, int)>, n: nat, m: nat) -> bool {
    &&& forall|v: int| 0 <= v < n ==> #[trigger] degree(edges, v) <= m
    &&& n == 0 ==> m == 0
    &&& n > 0 ==> exists|v: int| 0 <= v < n && #[trigger] degree(edges, v) == m
}

/// No more than `n` of the nodes `0 .. n` have the same degree.
pub proof fn lemma_nodes_of_degree_bound(edges: Seq<(int, int)>, n: nat, d: nat)
    ensures
        nodes_of_degree(edges, n, d) <= n,
    decreases n,
{
    if n > 0 {
        lemma_nodes_of_degree_bound(edges, (n - 1) as nat, d);
    }
}

/// The greatest degree of the graph; zero for a graph without nodes.
pub fn max_degree(graph: &Network) -> (m: u64)
    requires
        graph.wf(),
    ensures
        is_max_degree(graph.edges(), graph.order(), m as nat),
        m <= 2 * 0xffff_ffff,
{
    let n = graph.node_count();
    let mut m: u64 = 0;
    let mut v: usize = 0;
    while v < n
        invariant
            graph.wf(),
            n == graph.order(),
            0 <= v <= n,
            is_max_degree(graph.edges(), v as nat, m as nat),
            m <= 2 * 0xffff_ffff,
        decreases n - v,
    {
        let d = graph.degree(v);
        let ghost before = m;
        if v == 0 || d > m {
            m = d;
        }
        proof {
            let edges = graph.edges();
            assert forall|u: int| 0 <= u < v + 1 implies #[trigger] degree(edges, u) <= m by {}
            if m == d {
                assert(degree(edges, v as int) == m);
            } else {
                let u = choose|u: int| 0 <= u < v && #[trigger] degree(edges, u) == before;
                assert(degree(edges, u) == m);
            }
        }
        v = v + 1;
    }
    m
}

/// How often each degree occurs: the entry at `d` is the number of nodes of
/// degree `d`, for every `d` up to the greatest degree of the graph.
pub fn degree_distribution(graph: &Network) -> (counts: Vec<usize>)
    requires
        graph.wf(),
    ensures
        counts@.len() >= 1,
        is_max_degree(graph.edges(), graph.order(), (counts@.len() - 1) as nat),
        forall|d: int|
            0 <= d < counts@.len() ==> #[trigger] counts@[d] == nodes_of_degree(
                graph.edges(),
                graph.order(),
                d as nat,
            ),
{
    let n = graph.node_count();
    let m = max_degree(graph);
    let mut counts: Vec<usize> = Vec::new();
    let mut k: u64 = 0;
    while k <= m
        invariant
            m <= 2 * 0xffff_ffff,
            0 <= k <= m + 1,
            counts@.len() == k,
            forall|d: int| 0 <= d < k ==> #[trigger] counts@[d] == 0,
        decreases m + 1 - k,
    {
        counts.push(0);
        k = k + 1;
    }
    let slots = counts.len();
    let mut v: usize = 0;
    while v < n
        invariant
            graph.wf(),
            n == graph.order(),
            0 <= v <= n,
            slots == m + 1,
            counts@.len() == m + 1,
            is_max_degree(graph.edges(), n as nat, m as nat),
            forall|d: int|
                0 <= d < counts@.len() ==> #[trigger] counts@[d] == nodes_of_degree(
                    graph.edges(),
                    v as nat,
                    d as nat,
                ),
        decreases n - v,
    {
        let d = graph.degree(v);
        proof {
            assert(degree(graph.edges(), v as int) <= m);
            lemma_nodes_of_degree_bound(graph.edges(), v as nat, d as nat);
        }
        let at = d as usize;
        let seen = counts[at];
        counts.set(at, seen + 1);
        v = v + 1;
    }
    counts
}

/// A point for each node, by node index: ten times the index across and ten
/// times the degree up.
pub fn centrality_points(graph: &Network) -> (points: Vec<(u64, u64)>)
    requires
        graph.wf(),
    ensures
        points@.len() == graph.order(),
        forall|v: int|
            0 <= v < points@.len() ==> (#[trigger] points@[v]).0 == 10 * v && points@[v].1 == 10
                * degree(graph.edges(), v),
{
    let n = graph.node_count();
    let mut points: Vec<(u64, u64)> = Vec::new();
    let mut v: usize = 0;
    while v < n
        invariant
            graph.wf(),
            n == graph.order(),
            0 <= v <= n,
            points@.len() == v,
            forall|u: int|
                0 <= u < points@.len() ==> (#[trigger] points@[u]).0 == 10 * u && points@[u].1
                    == 10 * degree(graph.edges(), u),
        decreases n - v,
    {
        let d = graph.degree(v);
        points.push((10 * (v as u64), 10 * d));
        v = v + 1;
    }
    points
}

} // verus!
