//! Local clustering coefficients and their average.

use vstd::prelude::*;
use crate::store::Network;
use crate::tally::{MetricsError, Ratio};
use crate::topology::{
    adjacent, degree, entry_count, lemma_degree_from_entries, neighbor_list, unit,
};

verus! {

/// Among the entries of `list` at the places after `i` and before `hi`, the
/// number of those adjacent to the entry at `i`.
pub open spec fn linked_after(edges: Seq<(int, int)>, list: Seq<int>, i: int, hi: int) -> nat
    decreases hi - i,
{
    if hi <= i + 1 {
        0
    } else {
        linked_after(edges, list, i, hi - 1) + unit(adjacent(edges, list[i], list[hi - 1]))
    }
}

/// The number of pairs of places `i < j` of `list` with `i < k` whose entries
/// are adjacent.
pub open spec fn linked_pairs(edges: Seq<(int, int)>, list: Seq<int>, k: int) -> nat
    decreases k,
{
    if k <= 0 {
        0
    } else {
        linked_pairs(edges, list, k - 1) + linked_after(edges, list, k - 1, list.len() as int)
    }
}

/// The number of pairs of neighbour entries of `v` that an edge connects.
pub open spec fn connected_pairs(edges: Seq<(int, int)>, v: int) -> nat {
    linked_pairs(edges, neighbor_list(edges, v), entry_count(edges, v) as int)
}

/// The number of pairs among `d` neighbour entries.
pub open spec fn possible_pairs(d: nat) -> nat {
    if d < 2 {
        0
    } else {
        (d * (d - 1) / 2) as nat
    }
}

/// The local clustering coefficient of `v` as numerator and denominator: the
/// connected pairs of its neighbour entries over all pairs of them, and zero
/// for a node with fewer than two entries.
///
/// The coefficient is taken over the neighbour entries, not over the edge
/// endpoints: a self-loop at `v` is one entry, `v` itself, though it adds two
/// to the degree. In a graph without self-loops the number of entries is the
/// degree.
pub open spec fn local_coefficient(edges: Seq<(int, int)>, v: int) -> (nat, nat) {
    if entry_count(edges, v) < 2 {
        (0, 1)
    } else {
        (connected_pairs(edges, v), possible_pairs(entry_count(edges, v)))
    }
}

/// A row of the pair count is no longer than the places it ranges over.
pub proof fn lemma_linked_after_bound(edges: Seq<(int, int)>, list: Seq<int>, i: int, hi: int)
    requires
        i < hi,
    ensures
        linked_after(edges, list, i, hi) <= hi - i - 1,
    decreases hi - i,
{
    if hi > i + 1 {
        lemma_linked_after_bound(edges, list, i, hi - 1);
    }
}

/// Twice the pairs counted over the first `k` rows is at most
/// `k * (2 * len - k - 1)`.
pub proof fn lemma_linked_pairs_bound(edges: Seq<(int, int)>, list: Seq<int>, k: int)
    requires
        0 <= k <= list.len(),
    ensures
        2 * linked_pairs(edges, list, k) <= k * (2 * list.len() - k - 1),
    decreases k,
{
    if k > 0 {
        let d = list.len() as int;
        lemma_linked_pairs_bound(edges, list, k - 1);
        lemma_linked_after_bound(edges, list, k - 1, d);
        assert((k - 1) * (2 * d - (k - 1) - 1) + 2 * (d - (k - 1) - 1) == k * (2 * d - k - 1))
            by (nonlinear_arith);
    }
}

/// Clustering bounds: every local coefficient lies between zero and one, and
/// that of a node of degree less than two, or with fewer than two neighbour
/// entries, is zero.
pub proof fn lemma_local_coefficient_bounds(edges: Seq<(int, int)>, v: int)
    ensures
        local_coefficient(edges, v).0 <= local_coefficient(edges, v).1,
        local_coefficient(edges, v).1 >= 1,
        degree(edges, v) < 2 ==> local_coefficient(edges, v).0 == 0,
        entry_count(edges, v) < 2 ==> local_coefficient(edges, v).0 == 0,
{
    lemma_degree_from_entries(edges, v);
    let d = entry_count(edges, v) as int;
    if d >= 2 {
        lemma_linked_pairs_bound(edges, neighbor_list(edges, v), d);
        assert(d * (2 * d - d - 1) == d * (d - 1)) by (nonlinear_arith);
        assert(d * (d - 1) >= 2) by (nonlinear_arith)
            requires
                d >= 2,
        ;
        assert(2 * (d * (d - 1) / 2) == d * (d - 1)) by {
            lemma_pairs_even(d);
        }
    }
}

/// The product of two consecutive numbers is even.
pub proof fn lemma_pairs_even(d: int)
    requires
        d >= 0,
    ensures
        (d * (d - 1)) % 2 == 0,
        2 * (d * (d - 1) / 2) == d * (d - 1),
    decreases d,
{
    if d >= 2 {
        lemma_pairs_even(d - 2);
        assert(d * (d - 1) == (d - 2) * (d - 3) + 2 * (2 * d - 3)) by (nonlinear_arith);
    } else {
        assert(d * (d - 1) == 0) by (nonlinear_arith)
            requires
                d == 0 || d == 1,
        ;
    }
}

/// The local clustering coefficient of `v`: the share of the pairs of its
/// neighbour entries that an edge connects; zero for fewer than two entries.
/// It is counted over the neighbour entries, of which a self-loop at `v` is
/// one.
pub fn local_clustering(graph: &Network, v: usize) -> (r: Ratio)
    requires
        graph.wf(),
        v < graph.order(),
    ensures
        (r.num as nat, r.den as nat) == local_coefficient(graph.edges(), v as int),
        r.num <= r.den,
        r.den >= 1,
        degree(graph.edges(), v as int) < 2 ==> r.num == 0,
        entry_count(graph.edges(), v as int) < 2 ==> r.num == 0,
{
    let list = graph.neighbors(v);
    let d = list.len();
    proof {
        lemma_local_coefficient_bounds(graph.edges(), v as int);
    }
    if d < 2 {
        return Ratio { num: 0, den: 1 };
    }
    let ghost edges = graph.edges();
    let ghost entries = neighbor_list(edges, v as int);
    let mut count: u64 = 0;
    let mut i: usize = 0;
    while i < d
        invariant
            graph.wf(),
            edges == graph.edges(),
            entries == neighbor_list(edges, v as int),
            d == list@.len(),
            d == entries.len(),
            2 <= d <= 0xffff_ffff,
            forall|k: int| 0 <= k < d ==> #[trigger] list@[k] as int == entries[k],
            forall|k: int| 0 <= k < d ==> #[trigger] list@[k] < graph.order(),
            0 <= i <= d,
            count == linked_pairs(edges, entries, i as int),
        decreases d - i,
    {
        let mut row: u64 = 0;
        let mut j: usize = i + 1;
        while j < d
            invariant
                graph.wf(),
                edges == graph.edges(),
                d == list@.len(),
                d == entries.len(),
                d <= 0xffff_ffff,
                forall|k: int| 0 <= k < d ==> #[trigger] list@[k] as int == entries[k],
                forall|k: int| 0 <= k < d ==> #[trigger] list@[k] < graph.order(),
                0 <= i < d,
                i < j <= d,
                row == linked_after(edges, entries, i as int, j as int),
                row <= j - i - 1,
            decreases d - j,
        {
            if graph.contains_edge(list[i], list[j]) {
                row = row + 1;
            }
            j = j + 1;
        }
        proof {
            lemma_linked_pairs_bound(edges, entries, i as int);
            lemma_linked_pairs_bound(edges, entries, i + 1);
            assert((i + 1) * (2 * d - (i + 1) - 1) <= 0xffff_ffff * (2 * 0xffff_ffff))
                by (nonlinear_arith)
                requires
                    0 <= i < d <= 0xffff_ffff,
            ;
        }
        count = count + row;
        i = i + 1;
    }
    proof {
        assert(d * (d - 1) <= 0xffff_ffff * 0xffff_fffe) by (nonlinear_arith)
            requires
                2 <= d <= 0xffff_ffff,
        ;
    }
    let wide: u64 = d as u64;
    let possible: u64 = wide * (wide - 1) / 2;
    Ratio { num: count as u128, den: possible as u128 }
}

/// The local clustering coefficient of every node, by node index. Their
/// arithmetic mean is the average clustering coefficient of the graph; a node
/// with fewer than two neighbour entries enters it with zero. Each
/// coefficient is counted over the neighbour entries of its node, of which a
/// self-loop is one. A graph without nodes has none.
pub fn average_clustering(graph: &Network) -> (r: Result<Vec<Ratio>, MetricsError>)
    requires
        graph.wf(),
    ensures
        graph.order() == 0 <==> r == Err::<Vec<Ratio>, MetricsError>(MetricsError::EmptyGraph),
        graph.order() > 0 <==> r is Ok,
        r is Ok ==> r->Ok_0@.len() == graph.order(),
        r is Ok ==> forall|v: int|
            0 <= v < graph.order() ==> {
                let term = #[trigger] r->Ok_0@[v];
                &&& (term.num as nat, term.den as nat) == local_coefficient(graph.edges(), v)
                &&& term.num <= term.den
                &&& term.den >= 1
            },
{
    let n = graph.node_count();
    if n == 0 {
        return Err(MetricsError::EmptyGraph);
    }
    let mut terms: Vec<Ratio> = Vec::new();
    let mut v: usize = 0;
    while v < n
        invariant
            graph.wf(),
            n == graph.order(),
            0 <= v <= n,
            terms@.len() == v,
            forall|u: int|
                0 <= u < v ==> {
                    let term = #[trigger] terms@[u];
                    &&& (term.num as nat, term.den as nat) == local_coefficient(graph.edges(), u)
                    &&& term.num <= term.den
                    &&& term.den >= 1
                },
        decreases n - v,
    {
        let term = local_clustering(graph, v);
        terms.push(term);
        v = v + 1;
    }
    Ok(terms)
}

} // verus!
