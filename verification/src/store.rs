//! The graph store: an undirected multigraph built edge by edge from pairs of
//! integer labels, each label getting the next free node index when it is
//! first seen.

use vstd::prelude::*;
use std::collections::HashMap;
use petgraph::graph::Graph;
use petgraph::Undirected;
use crate::backend;
use crate::backend::{graph_edges, graph_order};
use crate::paths::{is_distance, lemma_distance_unique, lemma_reachable_within, reachable};
use crate::topology::{
    adjacent, degree, edges_within, entry_count, joins, lemma_degree_from_entries,
    lemma_entry_count_bound, lemma_neighbors_are_adjacent, neighbor_list, occurrences,
};

verus! {

/// The most nodes, and the most edges, that a graph can hold.
pub const CAPACITY: u64 = 0xffff_ffff;

/// `labels` with `x` noted: appended unless it is there already.
pub open spec fn noted(labels: Seq<i32>, x: i32) -> Seq<i32> {
    if labels.contains(x) {
        labels
    } else {
        labels.push(x)
    }
}

/// The place of `x` in `labels`.
pub open spec fn position(labels: Seq<i32>, x: i32) -> int {
    choose|i: int| 0 <= i < labels.len() && labels[i] == x
}

/// The distinct labels of `pairs` in the order in which they are first seen,
/// reading each pair from left to right.
pub open spec fn labels_of(pairs: Seq<(i32, i32)>) -> Seq<i32>
    decreases pairs.len(),
{
    if pairs.len() == 0 {
        Seq::empty()
    } else {
        noted(noted(labels_of(pairs.drop_last()), pairs.last().0), pairs.last().1)
    }
}

/// The edges of `pairs` over node indices: each label replaced by its place
/// among `labels`.
pub open spec fn edges_over(labels: Seq<i32>, pairs: Seq<(i32, i32)>) -> Seq<(int, int)> {
    Seq::new(pairs.len(), |i: int| (position(labels, pairs[i].0), position(labels, pairs[i].1)))
}

/// An undirected multigraph over the nodes `0 .. order()`, with the label that
/// each node was first seen under.
pub struct Network {
    graph: Graph<(), (), Undirected, u32>,
    index_of: HashMap<i32, usize>,
    labels: Vec<i32>,
}

impl Network {
    /// The edges, oldest first, each as the pair of node indices it joins.
    pub closed spec fn edges(&self) -> Seq<(int, int)> {
        graph_edges(self.graph)
    }

    /// The number of nodes.
    pub closed spec fn order(&self) -> nat {
        graph_order(self.graph)
    }

    /// The label of each node, by node index.
    pub closed spec fn labels(&self) -> Seq<i32> {
        self.labels@
    }

    /// Whether the label index agrees with the list of labels.
    pub closed spec fn indexed(&self) -> bool {
        &&& forall|x: i32| self.index_of@.contains_key(x) <==> self.labels@.contains(x)
        &&& forall|i: int|
            0 <= i < self.labels@.len() ==> self.index_of@[#[trigger] self.labels@[i]] == i
    }

    /// The invariant of a graph: one label for each node and no label twice,
    /// every edge between two of the nodes, and both counts within capacity.
    pub open spec fn wf(&self) -> bool {
        &&& self.indexed()
        &&& self.labels().len() == self.order()
        &&& self.labels().no_duplicates()
        &&& edges_within(self.edges(), self.order())
        &&& self.order() <= CAPACITY
        &&& self.edges().len() <= CAPACITY
    }

    /// A graph without nodes and edges.
    pub fn new() -> (net: Network)
        ensures
            net.wf(),
            net.order() == 0,
            net.labels() == Seq::<i32>::empty(),
            net.edges() == Seq::<(int, int)>::empty(),
    {
        Network { graph: backend::empty_graph(), index_of: HashMap::new(), labels: Vec::new() }
    }

    /// The number of nodes.
    pub fn node_count(&self) -> (n: usize)
        ensures
            n == self.order(),
    {
        backend::node_count(&self.graph)
    }

    /// The number of edges, parallel edges and self-loops counted each.
    pub fn edge_count(&self) -> (m: usize)
        ensures
            m == self.edges().len(),
    {
        backend::edge_count(&self.graph)
    }

    /// Whether the graph can take an edge between the labels `a` and `b`:
    /// with their nodes and the edge it stays within capacity.
    pub open spec fn room_for(&self, a: i32, b: i32) -> bool {
        &&& noted(noted(self.labels(), a), b).len() <= CAPACITY
        &&& self.edges().len() < CAPACITY
    }

    /// Whether the graph can take an edge between the labels `a` and `b`.
    pub fn has_room(&self, a: i32, b: i32) -> (fits: bool)
        requires
            self.wf(),
        ensures
            fits == self.room_for(a, b),
    {
        let mut fresh: u64 = 0;
        if !self.index_of.contains_key(&a) {
            fresh = fresh + 1;
        }
        if a != b && !self.index_of.contains_key(&b) {
            fresh = fresh + 1;
        }
        proof {
            let with_a = noted(self.labels@, a);
            if a != b && !self.labels@.contains(b) && with_a.contains(b) {
                let k = choose|k: int| 0 <= k < with_a.len() && with_a[k] == b;
                assert(self.labels@[k] == b);
            }
            if self.labels@.contains(b) {
                let k = choose|k: int| 0 <= k < self.labels@.len() && self.labels@[k] == b;
                assert(with_a[k] == b);
            }
            if a == b && !self.labels@.contains(a) {
                assert(with_a[with_a.len() - 1] == b);
            }
        }
        let nodes = backend::node_count(&self.graph) as u64;
        let edges = backend::edge_count(&self.graph) as u64;
        nodes + fresh <= CAPACITY && edges < CAPACITY
    }

    /// The node of the label `x`. A label that the graph has not seen gets the
    /// next free node, without edges.
    pub fn add_node(&mut self, x: i32) -> (v: usize)
        requires
            old(self).wf(),
            noted(old(self).labels(), x).len() <= CAPACITY,
        ensures
            final(self).wf(),
            final(self).labels() == noted(old(self).labels(), x),
            final(self).edges() == old(self).edges(),
            v == position(final(self).labels(), x),
            v < final(self).order(),
    {
        let known = self.index_of.get(&x);
        match known {
            Some(v) => {
                let v = *v;
                proof {
                    let p = position(self.labels@, x);
                    assert(self.index_of@[self.labels@[p]] == p);
                }
                v
            },
            None => {
                let ghost before = self.labels@;
                let ghost edges = graph_edges(self.graph);
                let v = backend::add_node(&mut self.graph);
                self.index_of.insert(x, v);
                self.labels.push(x);
                proof {
                    let after = self.labels@;
                    assert(after == before.push(x));
                    assert(after[v as int] == x);
                    assert forall|y: i32| self.index_of@.contains_key(y) <==> after.contains(
                        y,
                    ) by {
                        if before.contains(y) {
                            let k = choose|k: int| 0 <= k < before.len() && before[k] == y;
                            assert(after[k] == y);
                        }
                        if after.contains(y) && y != x {
                            let k = choose|k: int| 0 <= k < after.len() && after[k] == y;
                            assert(before[k] == y);
                        }
                    }
                    assert forall|i: int| 0 <= i < after.len() implies self.index_of@[#[trigger] after[i]]
                        == i by {
                        if i < before.len() {
                            assert(before[i] == after[i]);
                            assert(before.contains(before[i]));
                        }
                    }
                    assert forall|i: int, j: int|
                        0 <= i < after.len() && 0 <= j < after.len() && i != j implies after[i]
                        != after[j] by {
                        if i < before.len() {
                            assert(before.contains(before[i]));
                        }
                        if j < before.len() {
                            assert(before.contains(before[j]));
                        }
                    }
                    assert forall|i: int| 0 <= i < edges.len() implies 0 <= (#[trigger] edges[i]).0
                        < self.order() && 0 <= edges[i].1 < self.order() by {}
                }
                v
            },
        }
    }

    /// Adds an edge between the nodes of the labels `a` and `b`. A label that
    /// the graph has not seen gets the next free node, `a` before `b`. An edge
    /// that is there already is added once more, and `a` may be `b`.
    pub fn add_edge(&mut self, a: i32, b: i32)
        requires
            old(self).wf(),
            old(self).room_for(a, b),
        ensures
            final(self).wf(),
            final(self).labels() == noted(noted(old(self).labels(), a), b),
            final(self).edges() == old(self).edges().push(
                (position(final(self).labels(), a), position(final(self).labels(), b)),
            ),
    {
        proof {
            lemma_noted_length(old(self).labels(), a, b);
        }
        let u = self.add_node(a);
        let ghost with_a = self.labels@;
        let v = self.add_node(b);
        proof {
            lemma_noted_holds(old(self).labels(), a);
            lemma_position_kept(with_a, b, a);
        }
        let ghost edges = graph_edges(self.graph);
        backend::add_edge(&mut self.graph, u, v);
        proof {
            let grown = graph_edges(self.graph);
            assert forall|i: int| 0 <= i < grown.len() implies 0 <= (#[trigger] grown[i]).0
                < self.order() && 0 <= grown[i].1 < self.order() by {
                if i < edges.len() {
                    assert(grown[i] == edges[i]);
                }
            }
        }
    }

    /// Builds the graph of `pairs`: one node for each distinct label, numbered
    /// in the order in which the labels are first seen, and one edge for each
    /// pair, in the order of the pairs.
    pub fn build(pairs: &Vec<(i32, i32)>) -> (net: Network)
        requires
            labels_of(pairs@).len() <= CAPACITY,
            pairs@.len() <= CAPACITY,
        ensures
            net.wf(),
            net.labels() == labels_of(pairs@),
            net.order() == labels_of(pairs@).len(),
            net.edges() == edges_over(labels_of(pairs@), pairs@),
    {
        let mut net = Network::new();
        let mut i: usize = 0;
        while i < pairs.len()
            invariant
                0 <= i <= pairs@.len(),
                labels_of(pairs@).len() <= CAPACITY,
                pairs@.len() <= CAPACITY,
                net.wf(),
                net.labels() == labels_of(pairs@.take(i as int)),
                net.edges() =~= edges_over(net.labels(), pairs@.take(i as int)),
            decreases pairs@.len() - i,
        {
            let (a, b) = pairs[i];
            let ghost seen = pairs@.take(i as int);
            let ghost next = pairs@.take(i + 1);
            let ghost before = net.labels();
            proof {
                assert(next.drop_last() =~= seen);
                assert(next.last() == pairs@[i as int]);
                lemma_labels_grow(pairs@, i + 1);
            }
            net.add_edge(a, b);
            proof {
                let after = net.labels();
                let with_a = noted(before, a);
                lemma_noted_distinct(before, a);
                assert forall|k: int| 0 <= k < next.len() implies #[trigger] net.edges()[k]
                    == edges_over(after, next)[k] by {
                    if k < i {
                        lemma_labels_hold(seen, k);
                        lemma_position_kept(before, a, seen[k].0);
                        lemma_position_kept(with_a, b, seen[k].0);
                        lemma_position_kept(before, a, seen[k].1);
                        lemma_position_kept(with_a, b, seen[k].1);
                        assert(net.edges()[k] == edges_over(before, seen)[k]);
                    }
                }
            }
            i = i + 1;
        }
        proof {
            assert(pairs@.take(i as int) =~= pairs@);
        }
        net
    }

    /// The label under which the node `v` was first seen.
    pub fn label(&self, v: usize) -> (x: i32)
        requires
            self.wf(),
            v < self.order(),
        ensures
            x == self.labels()[v as int],
    {
        self.labels[v]
    }

    /// The node of the label `x`, if the graph has seen it.
    pub fn node_of(&self, x: i32) -> (found: Option<usize>)
        requires
            self.wf(),
        ensures
            found is Some <==> self.labels().contains(x),
            found is Some ==> found->0 == position(self.labels(), x),
    {
        let known = self.index_of.get(&x);
        match known {
            Some(v) => {
                let v = *v;
                proof {
                    assert(self.index_of@.contains_key(x));
                    assert(self.labels@.contains(x));
                    let p = position(self.labels@, x);
                    assert(self.index_of@[self.labels@[p]] == p);
                }
                Some(v)
            },
            None => None,
        }
    }

    /// The neighbours of `v`, one entry for each edge at `v`: a parallel edge
    /// repeats its neighbour, and a self-loop lists `v` itself, once.
    pub fn neighbors(&self, v: usize) -> (out: Vec<usize>)
        requires
            self.wf(),
            v < self.order(),
        ensures
            out@.len() == entry_count(self.edges(), v as int),
            out@.len() <= CAPACITY,
            forall|i: int|
                0 <= i < out@.len() ==> #[trigger] out@[i] as int == neighbor_list(
                    self.edges(),
                    v as int,
                )[i],
            forall|i: int| 0 <= i < out@.len() ==> #[trigger] out@[i] < self.order(),
    {
        let out = backend::neighbors(&self.graph, v);
        proof {
            lemma_entry_count_bound(self.edges(), v as int);
            assert forall|i: int| 0 <= i < out@.len() implies #[trigger] out@[i]
                < self.order() by {
                let u = neighbor_list(self.edges(), v as int)[i];
                assert(neighbor_list(self.edges(), v as int).contains(u));
                lemma_neighbors_are_adjacent(self.edges(), v as int, u);
                let k = choose|k: int|
                    0 <= k < self.edges().len() && joins(#[trigger] self.edges()[k], v as int, u);
            }
        }
        out
    }

    /// The degree of `v`: the number of edge endpoints at `v`. A parallel edge
    /// counts each time, and a self-loop counts twice: once as the neighbour
    /// entry that it is, and once more because that entry is `v` itself.
    pub fn degree(&self, v: usize) -> (d: u64)
        requires
            self.wf(),
            v < self.order(),
        ensures
            d == degree(self.edges(), v as int),
            d <= 2 * CAPACITY,
    {
        let list = self.neighbors(v);
        let ghost entries = neighbor_list(self.edges(), v as int);
        let mut loops: u64 = 0;
        let mut i: usize = 0;
        while i < list.len()
            invariant
                list@.len() == entries.len(),
                list@.len() <= CAPACITY,
                forall|k: int| 0 <= k < list@.len() ==> #[trigger] list@[k] as int == entries[k],
                0 <= i <= list@.len(),
                loops == occurrences(entries.take(i as int), v as int),
                loops <= i,
            decreases list@.len() - i,
        {
            proof {
                assert(entries.take(i + 1).drop_last() =~= entries.take(i as int));
                assert(entries.take(i + 1).last() == entries[i as int]);
            }
            if list[i] == v {
                loops = loops + 1;
            }
            i = i + 1;
        }
        proof {
            assert(entries.take(list@.len() as int) =~= entries);
            lemma_degree_from_entries(self.edges(), v as int);
        }
        list.len() as u64 + loops
    }

    /// The nodes that `s` reaches, itself among them, each once and with the
    /// least number of edges of a walk from `s` to it; in no particular order.
    pub fn shortest_paths(&self, s: usize) -> (out: Vec<(usize, u64)>)
        requires
            self.wf(),
            s < self.order(),
        ensures
            forall|i: int|
                0 <= i < out@.len() ==> (#[trigger] out@[i]).0 < self.order() && is_distance(
                    self.edges(),
                    s as int,
                    out@[i].0 as int,
                    out@[i].1 as nat,
                ),
            forall|t: int|
                0 <= t < self.order() && #[trigger] reachable(self.edges(), s as int, t)
                    ==> exists|i: int| 0 <= i < out@.len() && (#[trigger] out@[i]).0 == t,
            forall|i: int, j: int|
                0 <= i < j < out@.len() ==> (#[trigger] out@[i]).0 != (#[trigger] out@[j]).0,
    {
        let out = backend::shortest_paths(&self.graph, s);
        proof {
            assert forall|i: int| 0 <= i < out@.len() implies (#[trigger] out@[i]).0
                < self.order() by {
                let t = out@[i].0 as int;
                if t != s {
                    lemma_distance_unique(self.edges(), s as int, t, out@[i].1 as nat);
                    lemma_reachable_within(self.edges(), self.order(), s as int, t);
                }
            }
        }
        out
    }

    /// Whether some edge connects `a` and `b`.
    pub fn contains_edge(&self, a: usize, b: usize) -> (found: bool)
        requires
            self.wf(),
            a < self.order(),
            b < self.order(),
        ensures
            found == adjacent(self.edges(), a as int, b as int),
    {
        backend::contains_edge(&self.graph, a, b)
    }
}

/// Noting a label keeps the list free of duplicates.
pub proof fn lemma_noted_distinct(labels: Seq<i32>, x: i32)
    requires
        labels.no_duplicates(),
    ensures
        noted(labels, x).no_duplicates(),
{
    if !labels.contains(x) {
        let grown = labels.push(x);
        assert forall|i: int, j: int|
            0 <= i < grown.len() && 0 <= j < grown.len() && i != j implies grown[i]
            != grown[j] by {
            if i < labels.len() {
                assert(labels.contains(labels[i]));
            }
            if j < labels.len() {
                assert(labels.contains(labels[j]));
            }
        }
    }
}

/// The labels of a list of pairs hold no label twice.
pub proof fn lemma_labels_distinct(pairs: Seq<(i32, i32)>)
    ensures
        labels_of(pairs).no_duplicates(),
    decreases pairs.len(),
{
    if pairs.len() > 0 {
        let before = labels_of(pairs.drop_last());
        lemma_labels_distinct(pairs.drop_last());
        lemma_noted_distinct(before, pairs.last().0);
        lemma_noted_distinct(noted(before, pairs.last().0), pairs.last().1);
    }
}

/// Noting `x` keeps every label that is in the list.
pub proof fn lemma_noted_keeps(labels: Seq<i32>, x: i32, y: i32)
    requires
        labels.contains(y),
    ensures
        noted(labels, x).contains(y),
{
    let k = choose|k: int| 0 <= k < labels.len() && labels[k] == y;
    assert(noted(labels, x)[k] == y);
}

/// Both labels of every pair are among the labels of the list.
pub proof fn lemma_labels_hold(pairs: Seq<(i32, i32)>, k: int)
    requires
        0 <= k < pairs.len(),
    ensures
        labels_of(pairs).contains(pairs[k].0),
        labels_of(pairs).contains(pairs[k].1),
    decreases pairs.len(),
{
    let before = labels_of(pairs.drop_last());
    let a = pairs.last().0;
    let b = pairs.last().1;
    if k == pairs.len() - 1 {
        lemma_noted_holds(before, a);
        lemma_noted_keeps(noted(before, a), b, a);
        lemma_noted_holds(noted(before, a), b);
    } else {
        lemma_labels_hold(pairs.drop_last(), k);
        lemma_noted_keeps(before, a, pairs[k].0);
        lemma_noted_keeps(noted(before, a), b, pairs[k].0);
        lemma_noted_keeps(before, a, pairs[k].1);
        lemma_noted_keeps(noted(before, a), b, pairs[k].1);
    }
}

/// Every label among the labels of a list stands in one of its pairs.
pub proof fn lemma_labels_occur(pairs: Seq<(i32, i32)>, x: i32)
    requires
        labels_of(pairs).contains(x),
    ensures
        exists|k: int| 0 <= k < pairs.len() && (#[trigger] pairs[k].0 == x || pairs[k].1 == x),
    decreases pairs.len(),
{
    if pairs.len() == 0 {
        assert(labels_of(pairs) =~= Seq::<i32>::empty());
    } else {
        let init = pairs.drop_last();
        let before = labels_of(init);
        let a = pairs.last().0;
        let b = pairs.last().1;
        let last = pairs.len() - 1;
        if before.contains(x) {
            lemma_labels_occur(init, x);
            let k = choose|k: int|
                0 <= k < init.len() && (#[trigger] init[k].0 == x || init[k].1 == x);
            assert(pairs[k].0 == x || pairs[k].1 == x);
        } else {
            let after = labels_of(pairs);
            let p = choose|p: int| 0 <= p < after.len() && after[p] == x;
            if x != a && x != b {
                if p < before.len() {
                    assert(before[p] == x);
                }
                assert(false);
            }
            assert(pairs[last].0 == x || pairs[last].1 == x);
        }
    }
}

/// A longer list of pairs has at least as many labels as any shorter
/// beginning of it.
pub proof fn lemma_labels_grow(pairs: Seq<(i32, i32)>, j: int)
    requires
        0 <= j <= pairs.len(),
    ensures
        labels_of(pairs.take(j)).len() <= labels_of(pairs).len(),
    decreases pairs.len() - j,
{
    if j == pairs.len() {
        assert(pairs.take(j) =~= pairs);
    } else {
        lemma_labels_grow(pairs, j + 1);
        let next = pairs.take(j + 1);
        assert(next.drop_last() =~= pairs.take(j));
        lemma_noted_length(labels_of(pairs.take(j)), next.last().0, next.last().1);
    }
}

/// A list of pairs has at most two labels for each pair.
pub proof fn lemma_labels_count(pairs: Seq<(i32, i32)>)
    ensures
        labels_of(pairs).len() <= 2 * pairs.len(),
    decreases pairs.len(),
{
    if pairs.len() > 0 {
        lemma_labels_count(pairs.drop_last());
    }
}

/// Noting a second label never shortens the list.
pub proof fn lemma_noted_length(labels: Seq<i32>, a: i32, b: i32)
    ensures
        labels.len() <= noted(labels, a).len() <= noted(noted(labels, a), b).len(),
{
}

/// A label that was noted is in the list.
pub proof fn lemma_noted_holds(labels: Seq<i32>, x: i32)
    ensures
        noted(labels, x).contains(x),
{
    if !labels.contains(x) {
        assert(labels.push(x)[labels.len() as int] == x);
    }
}

/// Noting `x` leaves every label that is there in its place.
pub proof fn lemma_position_kept(labels: Seq<i32>, x: i32, y: i32)
    requires
        labels.no_duplicates(),
        labels.contains(y),
    ensures
        position(noted(labels, x), y) == position(labels, y),
        noted(labels, x).contains(y),
{
    let p = position(labels, y);
    let grown = noted(labels, x);
    assert(grown[p] == y);
    let q = position(grown, y);
    if q != p {
        if q < labels.len() {
            assert(labels[q] == y);
        } else {
            assert(grown[q] == x);
            assert(labels.contains(x));
        }
    }
}

} // verus!
