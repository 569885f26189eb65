//! The average degree of a graph, and its degree sequence.

use vstd::prelude::*;
use crate::store::Network;
use crate::tally::{MetricsError, Ratio, Tally};
use crate::topology::{degree, degree_sum, lemma_degree_sum_bound, lemma_handshake};

verus! {

/// The sum of the degrees of all nodes together with the number of nodes.
/// The sum is twice the number of edges: every edge has two ends, a self-loop
/// both at one node.
pub fn degree_tally(graph: &Network) -> (total: Tally)
    requires
        graph.wf(),
    ensures
        total@ == (degree_sum(graph.edges(), graph.order()), graph.order()),
        total.sum == 2 * graph.edges().len(),
{
    let n = graph.node_count();
    let mut sum: u64 = 0;
    let mut v: usize = 0;
    while v < n
        invariant
            graph.wf(),
            n == graph.order(),
            0 <= v <= n,
            sum == degree_sum(graph.edges(), v as nat),
        decreases n - v,
    {
        let d = graph.degree(v);
        proof {
            lemma_degree_sum_bound(graph.edges(), v as nat);
        }
        sum = sum + d;
        v = v + 1;
    }
    proof {
        lemma_handshake(graph.edges(), graph.order());
    }
    Tally { sum: sum as u128, count: n as u64 }
}

/// The average degree: the sum of the degrees of all nodes over the number
/// of nodes, which is twice the number of edges over the number of nodes. A
/// graph without nodes has none.
pub fn average_degree(graph: &Network) -> (r: Result<Ratio, MetricsError>)
    requires
        graph.wf(),
    ensures
        graph.order() == 0 <==> r == Err::<Ratio, MetricsError>(MetricsError::EmptyGraph),
        graph.order() > 0 <==> r is Ok,
        r is Ok ==> r->Ok_0.num == degree_sum(graph.edges(), graph.order()) && r->Ok_0.den
            == graph.order(),
        r is Ok ==> r->Ok_0.num == 2 * graph.edges().len(),
{
    degree_tally(graph).mean()
}

/// Every node with its degree, by node index.
pub fn degrees(graph: &Network) -> (out: Vec<(usize, u64)>)
    requires
        graph.wf(),
    ensures
        out@.len() == graph.order(),
        forall|v: int|
            0 <= v < out@.len() ==> (#[trigger] out@[v]).0 == v && out@[v].1 == degree(
                graph.edges(),
                v,
            ),
{
    let n = graph.node_count();
    let mut out: Vec<(usize, u64)> = Vec::new();
    let mut v: usize = 0;
    while v < n
        invariant
            graph.wf(),
            n == graph.order(),
            0 <= v <= n,
            out@.len() == v,
            forall|u: int|
                0 <= u < out@.len() ==> (#[trigger] out@[u]).0 == u && out@[u].1 == degree(
                    graph.edges(),
                    u,
                ),
        decreases n - v,
    {
        let d = graph.degree(v);
        out.push((v, d));
        v = v + 1;
    }
    out
}

} // verus!
