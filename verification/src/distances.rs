//! Shortest-path distances between the nodes of a graph and their average
//! over all ordered pairs of distinct nodes of which one reaches the other.

use vstd::prelude::*;
use crate::paths::{
    distance, is_distance, lemma_distance_bound, lemma_distance_symmetric, lemma_distance_to_self,
    lemma_distance_unique, lemma_isolated_unreachable, reachable,
};
use crate::store::Network;
use crate::tally::{plus, MetricsError, Ratio, Tally};
use crate::topology::degree;

verus! {

/// The cost of one edge in a shortest-path search: every edge counts one.
pub fn edge_cost() -> (c: u64)
    ensures
        c == 1,
{
    1
}

/// The distance from `s` to `t`, if `t` is reachable from `s`.
pub open spec fn distance_to(edges: Seq<(int, int)>, s: int, t: int) -> Option<nat> {
    if reachable(edges, s, t) {
        Some(distance(edges, s, t))
    } else {
        None
    }
}

/// What the ordered pair `(s, t)` adds to the sum of distances and to the
/// number of pairs: its distance and one, if `t` is another node that `s`
/// reaches, and nothing otherwise.
pub open spec fn pair_term(edges: Seq<(int, int)>, s: int, t: int) -> (nat, nat) {
    if t != s && reachable(edges, s, t) {
        (distance(edges, s, t), 1)
    } else {
        (0, 0)
    }
}

/// The sum of the distances from `s` to the other nodes among `0 .. n` that it
/// reaches, and their number.
pub open spec fn source_tally(edges: Seq<(int, int)>, s: int, n: nat) -> (nat, nat)
    decreases n,
{
    if n == 0 {
        (0, 0)
    } else {
        plus(source_tally(edges, s, (n - 1) as nat), pair_term(edges, s, n - 1))
    }
}

/// The tallies of the sources `lo .. hi` over the targets `0 .. n`, combined.
pub open spec fn range_tally(edges: Seq<(int, int)>, lo: nat, hi: nat, n: nat) -> (nat, nat)
    decreases hi,
{
    if hi <= lo {
        (0, 0)
    } else {
        plus(range_tally(edges, lo, (hi - 1) as nat, n), source_tally(edges, hi - 1, n))
    }
}

/// The sum of the distances over all ordered pairs of distinct nodes among
/// `0 .. n` of which the first reaches the second, and the number of such
/// pairs. A pair of nodes that reach each other counts in both directions.
pub open spec fn pair_tally(edges: Seq<(int, int)>, n: nat) -> (nat, nat) {
    range_tally(edges, 0, n, n)
}

/// The sources may be split at any point and the parts tallied on their own:
/// combined, the parts give the tally of the whole range.
pub proof fn lemma_range_tally_split(edges: Seq<(int, int)>, lo: nat, mid: nat, hi: nat, n: nat)
    requires
        lo <= mid <= hi,
    ensures
        range_tally(edges, lo, hi, n) == plus(
            range_tally(edges, lo, mid, n),
            range_tally(edges, mid, hi, n),
        ),
    decreases hi,
{
    if hi > mid {
        lemma_range_tally_split(edges, lo, mid, (hi - 1) as nat, n);
    }
}

/// Both directions of a pair add the same: the term of `(s, t)` is that of
/// `(t, s)`.
pub proof fn lemma_pair_term_symmetric(edges: Seq<(int, int)>, s: int, t: int)
    ensures
        pair_term(edges, s, t) == pair_term(edges, t, s),
{
    lemma_distance_symmetric(edges, s, t);
}

/// A node without edges adds nothing, neither as a source nor as a target.
pub proof fn lemma_isolated_adds_nothing(edges: Seq<(int, int)>, v: int, n: nat)
    requires
        degree(edges, v) == 0,
    ensures
        source_tally(edges, v, n) == (0nat, 0nat),
        forall|s: int| pair_term(edges, s, v) == (0nat, 0nat),
    decreases n,
{
    if n > 0 {
        lemma_isolated_adds_nothing(edges, v, (n - 1) as nat);
        if n - 1 != v {
            lemma_isolated_unreachable(edges, v, n - 1);
        }
    }
    assert forall|s: int| pair_term(edges, s, v) == (0nat, 0nat) by {
        if s != v {
            lemma_isolated_unreachable(edges, v, s);
        }
    }
}

/// The distance from `s` to every node, by node index: `None` for a node
/// that `s` does not reach. The entry of `s` itself is zero.
pub fn distances_from(graph: &Network, s: usize) -> (out: Vec<Option<u64>>)
    requires
        graph.wf(),
        s < graph.order(),
    ensures
        out@.len() == graph.order(),
        forall|t: int|
            0 <= t < graph.order() ==> match #[trigger] out@[t] {
                Some(d) => distance_to(graph.edges(), s as int, t) == Some(d as nat) && d
                    < graph.order(),
                None => distance_to(graph.edges(), s as int, t) is None,
            },
        out@[s as int] == Some(0u64),
{
    let n = graph.node_count();
    let found = graph.shortest_paths(s);
    let mut out: Vec<Option<u64>> = Vec::new();
    let mut t: usize = 0;
    while t < n
        invariant
            0 <= t <= n,
            out@.len() == t,
            forall|k: int| 0 <= k < t ==> #[trigger] out@[k] is None,
        decreases n - t,
    {
        out.push(None);
        t = t + 1;
    }
    let ghost edges = graph.edges();
    let mut i: usize = 0;
    while i < found.len()
        invariant
            n == graph.order(),
            edges == graph.edges(),
            out@.len() == n,
            0 <= i <= found@.len(),
            forall|k: int|
                0 <= k < found@.len() ==> (#[trigger] found@[k]).0 < n && is_distance(
                    edges,
                    s as int,
                    found@[k].0 as int,
                    found@[k].1 as nat,
                ),
            forall|t: int|
                0 <= t < n ==> match #[trigger] out@[t] {
                    Some(d) => is_distance(edges, s as int, t, d as nat),
                    None => forall|k: int| 0 <= k < i ==> (#[trigger] found@[k]).0 != t,
                },
        decreases found@.len() - i,
    {
        let (t, d) = found[i];
        out.set(t, Some(d));
        i = i + 1;
    }
    proof {
        assert forall|t: int| 0 <= t < n implies match #[trigger] out@[t] {
            Some(d) => distance_to(edges, s as int, t) == Some(d as nat) && d < n,
            None => distance_to(edges, s as int, t) is None,
        } by {
            match out@[t] {
                Some(d) => {
                    lemma_distance_unique(edges, s as int, t, d as nat);
                    lemma_distance_bound(edges, n as nat, s as int, t);
                },
                None => {
                    if reachable(edges, s as int, t) {
                        let k = choose|k: int| 0 <= k < found@.len() && (#[trigger] found@[k]).0 == t;
                        assert(false);
                    }
                },
            }
        }
    }
    proof {
        lemma_distance_to_self(edges, s as int);
    }
    out
}

/// The sum of the distances from `s` to the other nodes that it reaches, and
/// their number.
pub fn distance_tally(graph: &Network, s: usize) -> (total: Tally)
    requires
        graph.wf(),
        s < graph.order(),
    ensures
        total@ == source_tally(graph.edges(), s as int, graph.order()),
        total.count <= graph.order(),
        total.sum <= graph.order() * graph.order(),
{
    let row = distances_from(graph, s);
    let n = row.len();
    let mut sum: u128 = 0;
    let mut count: u64 = 0;
    let mut t: usize = 0;
    while t < n
        invariant
            graph.wf(),
            n == graph.order(),
            row@.len() == n,
            forall|k: int|
                0 <= k < n ==> match #[trigger] row@[k] {
                    Some(d) => distance_to(graph.edges(), s as int, k) == Some(d as nat) && d < n,
                    None => distance_to(graph.edges(), s as int, k) is None,
                },
            0 <= t <= n,
            (sum as nat, count as nat) == source_tally(graph.edges(), s as int, t as nat),
            count <= t,
            sum <= t * n,
        decreases n - t,
    {
        proof {
            assert(t * n + n == (t + 1) * n) by (nonlinear_arith);
            assert((t + 1) * n <= n * n) by (nonlinear_arith)
                requires
                    t < n,
            ;
            assert(n * n <= 0xffff_ffff * 0xffff_ffff) by (nonlinear_arith)
                requires
                    n <= 0xffff_ffff,
            ;
        }
        if t != s {
            match row[t] {
                Some(d) => {
                    sum = sum + d as u128;
                    count = count + 1;
                },
                None => {},
            }
        }
        t = t + 1;
    }
    Tally { sum, count }
}

/// The sum of the distances over all ordered pairs of distinct nodes of which
/// the first reaches the second, and the number of such pairs.
pub fn pair_distance_tally(graph: &Network) -> (total: Tally)
    requires
        graph.wf(),
    ensures
        total@ == pair_tally(graph.edges(), graph.order()),
{
    let n = graph.node_count();
    let mut sum: u128 = 0;
    let mut count: u64 = 0;
    let mut s: usize = 0;
    while s < n
        invariant
            graph.wf(),
            n == graph.order(),
            0 <= s <= n,
            (sum as nat, count as nat) == range_tally(graph.edges(), 0, s as nat, n as nat),
            count <= s * n,
            sum <= s * (n * n),
        decreases n - s,
    {
        let part = distance_tally(graph, s);
        proof {
            assert(s * n + n == (s + 1) * n) by (nonlinear_arith);
            assert(s * (n * n) + n * n == (s + 1) * (n * n)) by (nonlinear_arith);
            assert((s + 1) * n <= 0xffff_ffff * 0xffff_ffff) by (nonlinear_arith)
                requires
                    s < n <= 0xffff_ffff,
            ;
            assert((s + 1) * (n * n) <= 0xffff_ffff * (0xffff_ffff * 0xffff_ffff))
                by (nonlinear_arith)
                requires
                    s < n <= 0xffff_ffff,
            ;
        }
        sum = sum + part.sum;
        count = count + part.count;
        s = s + 1;
    }
    Tally { sum, count }
}

/// The average distance: the sum of the shortest-path distances over all
/// ordered pairs of distinct nodes of which the first reaches the second,
/// over the number of such pairs. Pairs without a path are left out, and a
/// graph in which no node reaches another has no average distance.
pub fn average_distance(graph: &Network) -> (r: Result<Ratio, MetricsError>)
    requires
        graph.wf(),
    ensures
        pair_tally(graph.edges(), graph.order()).1 == 0 <==> r == Err::<Ratio, MetricsError>(
            MetricsError::EmptyGraph,
        ),
        pair_tally(graph.edges(), graph.order()).1 > 0 <==> r is Ok,
        r is Ok ==> (r->Ok_0.num as nat, r->Ok_0.den as nat) == pair_tally(
            graph.edges(),
            graph.order(),
        ),
{
    pair_distance_tally(graph).mean()
}

} // verus!
