//! The average distance does not depend on how the nodes are numbered nor on
//! the direction in which an edge is written down.

use vstd::prelude::*;
use crate::distances::{pair_tally, pair_term, range_tally, source_tally};
use crate::paths::{
    distance, is_distance, lemma_distance_is_least, lemma_distance_unique, lemma_some_node_twice,
    lemma_walk_stays_within, reachable, step, walks, within,
};
use crate::store::{
    edges_over, labels_of, lemma_labels_distinct, lemma_labels_hold, lemma_labels_occur, position,
};
use crate::tally::plus;
use crate::topology::{edges_within, joins};

verus! {

/// The tallies `f(0), .., f(n - 1)` combined.
pub open spec fn tally_sum(f: spec_fn(int) -> (nat, nat), n: nat) -> (nat, nat)
    decreases n,
{
    if n == 0 {
        (0, 0)
    } else {
        plus(tally_sum(f, (n - 1) as nat), f(n - 1))
    }
}

/// The tallies that `f` gives for the entries of `list`, combined.
pub open spec fn tally_over(f: spec_fn(int) -> (nat, nat), list: Seq<int>) -> (nat, nat)
    decreases list.len(),
{
    if list.len() == 0 {
        (0, 0)
    } else {
        plus(tally_over(f, list.drop_last()), f(list.last()))
    }
}

/// Two functions that agree on `0 .. n` have the same combined tally there.
pub proof fn lemma_tally_sum_agrees(
    f: spec_fn(int) -> (nat, nat),
    g: spec_fn(int) -> (nat, nat),
    n: nat,
)
    requires
        forall|i: int| 0 <= i < n ==> #[trigger] f(i) == g(i),
    ensures
        tally_sum(f, n) == tally_sum(g, n),
    decreases n,
{
    if n > 0 {
        lemma_tally_sum_agrees(f, g, (n - 1) as nat);
        assert(f(n - 1) == g(n - 1));
    }
}

/// Combining over a list is combining over its places.
pub proof fn lemma_tally_over_places(
    f: spec_fn(int) -> (nat, nat),
    g: spec_fn(int) -> (nat, nat),
    list: Seq<int>,
)
    requires
        forall|i: int| 0 <= i < list.len() ==> #[trigger] g(i) == f(list[i]),
    ensures
        tally_over(f, list) == tally_sum(g, list.len()),
    decreases list.len(),
{
    if list.len() > 0 {
        let init = list.drop_last();
        assert forall|i: int| 0 <= i < init.len() implies #[trigger] g(i) == f(init[i]) by {
            assert(init[i] == list[i]);
        }
        lemma_tally_over_places(f, g, init);
        assert(g(list.len() - 1) == f(list[list.len() - 1]));
    }
}

/// An entry may be taken out of a list and combined last.
pub proof fn lemma_tally_over_remove(f: spec_fn(int) -> (nat, nat), list: Seq<int>, k: int)
    requires
        0 <= k < list.len(),
    ensures
        tally_over(f, list) == plus(tally_over(f, list.remove(k)), f(list[k])),
    decreases list.len(),
{
    if k == list.len() - 1 {
        assert(list.remove(k) =~= list.drop_last());
    } else {
        let init = list.drop_last();
        lemma_tally_over_remove(f, init, k);
        assert(list.remove(k).drop_last() =~= init.remove(k));
        assert(list.remove(k).last() == list.last());
        assert(init[k] == list[k]);
    }
}

/// Combining does not depend on the order: a list that holds each of
/// `0 .. n` once gives the combined tally of `0 .. n`.
pub proof fn lemma_tally_any_order(f: spec_fn(int) -> (nat, nat), list: Seq<int>, n: nat)
    requires
        list.len() == n,
        list.no_duplicates(),
        forall|i: int| 0 <= i < list.len() ==> 0 <= #[trigger] list[i] < n,
    ensures
        tally_over(f, list) == tally_sum(f, n),
    decreases n,
{
    if n > 0 {
        if !exists|k: int| 0 <= k < list.len() && list[k] == n - 1 {
            assert forall|i: int| 0 <= i < list.len() implies 0 <= #[trigger] list[i] < n - 1 by {
                assert(0 <= list[i] < n);
            }
            lemma_some_node_twice(list, (n - 1) as nat);
            assert(false);
        }
        let k = choose|k: int| 0 <= k < list.len() && list[k] == n - 1;
        let rest = list.remove(k);
        assert forall|i: int| 0 <= i < rest.len() implies 0 <= #[trigger] rest[i] < n - 1 by {
            if i < k {
                assert(rest[i] == list[i]);
            } else {
                assert(rest[i] == list[i + 1]);
            }
        }
        assert forall|i: int, j: int|
            0 <= i < rest.len() && 0 <= j < rest.len() && i != j implies rest[i] != rest[j] by {
            let a = if i < k { i } else { i + 1 };
            let b = if j < k { j } else { j + 1 };
            assert(rest[i] == list[a]);
            assert(rest[j] == list[b]);
        }
        lemma_tally_any_order(f, rest, (n - 1) as nat);
        lemma_tally_over_remove(f, list, k);
    }
}

/// Whether `to` renumbers the nodes `0 .. n` one to one, with `back` as the
/// way back.
pub open spec fn renumbers(to: Seq<int>, back: Seq<int>, n: nat) -> bool {
    &&& to.len() == n
    &&& back.len() == n
    &&& forall|i: int| 0 <= i < n ==> 0 <= #[trigger] to[i] < n && back[to[i]] == i
    &&& forall|j: int| 0 <= j < n ==> 0 <= #[trigger] back[j] < n && to[back[j]] == j
}

/// Whether `other` holds the edges of `edges` with every node `v` renumbered
/// to `to[v]`, each edge written in either direction.
pub open spec fn same_up_to(edges: Seq<(int, int)>, other: Seq<(int, int)>, to: Seq<int>) -> bool {
    &&& edges.len() == other.len()
    &&& forall|i: int|
        0 <= i < edges.len() ==> joins(#[trigger] other[i], to[edges[i].0], to[edges[i].1])
}

/// Renumbering back undoes renumbering.
pub proof fn lemma_same_up_to_back(
    edges: Seq<(int, int)>,
    other: Seq<(int, int)>,
    to: Seq<int>,
    back: Seq<int>,
    n: nat,
)
    requires
        edges_within(edges, n),
        renumbers(to, back, n),
        same_up_to(edges, other, to),
    ensures
        edges_within(other, n),
        renumbers(back, to, n),
        same_up_to(other, edges, back),
{
    assert forall|i: int| 0 <= i < other.len() implies 0 <= (#[trigger] other[i]).0 < n && 0
        <= other[i].1 < n && joins(edges[i], back[other[i].0], back[other[i].1]) by {
        let a = edges[i].0;
        let b = edges[i].1;
        assert(0 <= a < n && 0 <= b < n);
        assert(joins(other[i], to[a], to[b]));
        assert(back[to[a]] == a);
        assert(back[to[b]] == b);
    }
    assert forall|i: int| 0 <= i < other.len() implies joins(
        #[trigger] edges[i],
        back[other[i].0],
        back[other[i].1],
    ) by {
        assert(0 <= other[i].0 < n);
    }
}

/// A walk stays a walk of the same length when nodes are renumbered and edges
/// turned round.
pub proof fn lemma_within_renumbered(
    edges: Seq<(int, int)>,
    other: Seq<(int, int)>,
    to: Seq<int>,
    back: Seq<int>,
    n: nat,
    s: int,
    t: int,
    k: nat,
)
    requires
        edges_within(edges, n),
        renumbers(to, back, n),
        same_up_to(edges, other, to),
        0 <= s < n,
        within(edges, s, t, k),
    ensures
        0 <= t < n,
        within(other, to[s], to[t], k),
{
    let path = choose|path: Seq<int>| #[trigger] walks(edges, path, s, t) && path.len() == k + 1;
    lemma_walk_stays_within(edges, n, path, s, t);
    assert(0 <= path[path.len() - 1] < n);
    let image = Seq::new(path.len(), |i: int| to[path[i]]);
    assert forall|i: int| 0 <= i < image.len() - 1 implies #[trigger] step(other, image, i) by {
        assert(step(edges, path, i));
        let a = path[i];
        let b = path[i + 1];
        let w = choose|w: int| 0 <= w < edges.len() && joins(#[trigger] edges[w], a, b);
        assert(joins(other[w], to[edges[w].0], to[edges[w].1]));
        assert(joins(other[w], to[a], to[b]));
        assert(image[i] == to[a]);
        assert(image[i + 1] == to[b]);
    }
    assert(walks(other, image, to[s], to[t]));
}

/// Distances do not depend on the numbering of the nodes nor on the
/// direction in which the edges are written: a pair of nodes adds to the
/// tally what the renumbered pair adds in the renumbered graph.
pub proof fn lemma_pair_term_renumbered(
    edges: Seq<(int, int)>,
    other: Seq<(int, int)>,
    to: Seq<int>,
    back: Seq<int>,
    n: nat,
    s: int,
    t: int,
)
    requires
        edges_within(edges, n),
        renumbers(to, back, n),
        same_up_to(edges, other, to),
        0 <= s < n,
        0 <= t < n,
    ensures
        pair_term(other, to[s], to[t]) == pair_term(edges, s, t),
{
    lemma_same_up_to_back(edges, other, to, back, n);
    assert(back[to[s]] == s);
    assert(back[to[t]] == t);
    assert forall|k: nat| within(edges, s, t, k) <==> within(other, to[s], to[t], k) by {
        if within(edges, s, t, k) {
            lemma_within_renumbered(edges, other, to, back, n, s, t, k);
        }
        if within(other, to[s], to[t], k) {
            lemma_within_renumbered(other, edges, back, to, n, to[s], to[t], k);
        }
    }
    if reachable(edges, s, t) {
        let k = choose|k: nat| within(edges, s, t, k);
        assert(within(other, to[s], to[t], k));
        lemma_distance_is_least(edges, s, t);
        let d = distance(edges, s, t);
        assert(is_distance(other, to[s], to[t], d)) by {
            assert(within(other, to[s], to[t], d));
            assert forall|j: nat| j < d implies !within(other, to[s], to[t], j) by {
                assert(!within(edges, s, t, j));
            }
        }
        lemma_distance_unique(other, to[s], to[t], d);
    }
    if reachable(other, to[s], to[t]) {
        let k = choose|k: nat| within(other, to[s], to[t], k);
        assert(within(edges, s, t, k));
    }
}

/// The tally of a source is the combined tally of its pairs.
pub proof fn lemma_source_tally_is_sum(edges: Seq<(int, int)>, s: int, n: nat)
    ensures
        source_tally(edges, s, n) == tally_sum(|t: int| pair_term(edges, s, t), n),
    decreases n,
{
    if n > 0 {
        lemma_source_tally_is_sum(edges, s, (n - 1) as nat);
    }
}

/// The tally of all pairs is the combined tally of all sources.
pub proof fn lemma_range_tally_is_sum(edges: Seq<(int, int)>, m: nat, n: nat)
    ensures
        range_tally(edges, 0, m, n) == tally_sum(|s: int| source_tally(edges, s, n), m),
    decreases m,
{
    if m > 0 {
        lemma_range_tally_is_sum(edges, (m - 1) as nat, n);
    }
}

/// A renumbering holds each node once.
pub proof fn lemma_renumbering_is_any_order(to: Seq<int>, back: Seq<int>, n: nat)
    requires
        renumbers(to, back, n),
    ensures
        to.no_duplicates(),
        forall|i: int| 0 <= i < to.len() ==> 0 <= #[trigger] to[i] < n,
{
    assert forall|i: int, j: int|
        0 <= i < to.len() && 0 <= j < to.len() && i != j implies to[i] != to[j] by {
        assert(back[to[i]] == i);
        assert(back[to[j]] == j);
    }
}

/// The tally of a source does not depend on the numbering of the nodes nor
/// on the direction of the edges.
pub proof fn lemma_source_tally_renumbered(
    edges: Seq<(int, int)>,
    other: Seq<(int, int)>,
    to: Seq<int>,
    back: Seq<int>,
    n: nat,
    s: int,
)
    requires
        edges_within(edges, n),
        renumbers(to, back, n),
        same_up_to(edges, other, to),
        0 <= s < n,
    ensures
        source_tally(other, to[s], n) == source_tally(edges, s, n),
{
    let there = |t: int| pair_term(other, to[s], t);
    let here = |t: int| pair_term(edges, s, t);
    lemma_source_tally_is_sum(other, to[s], n);
    lemma_source_tally_is_sum(edges, s, n);
    lemma_renumbering_is_any_order(to, back, n);
    lemma_tally_any_order(there, to, n);
    assert forall|t: int| 0 <= t < to.len() implies #[trigger] here(t) == there(to[t]) by {
        lemma_pair_term_renumbered(edges, other, to, back, n, s, t);
    }
    lemma_tally_over_places(there, here, to);
}

/// The tally of all ordered pairs, and with it the average distance, does
/// not depend on the numbering of the nodes nor on the direction in which the
/// edges are written.
pub proof fn lemma_pair_tally_renumbered(
    edges: Seq<(int, int)>,
    other: Seq<(int, int)>,
    to: Seq<int>,
    back: Seq<int>,
    n: nat,
)
    requires
        edges_within(edges, n),
        renumbers(to, back, n),
        same_up_to(edges, other, to),
    ensures
        pair_tally(other, n) == pair_tally(edges, n),
{
    let there = |s: int| source_tally(other, s, n);
    let here = |s: int| source_tally(edges, s, n);
    lemma_range_tally_is_sum(other, n, n);
    lemma_range_tally_is_sum(edges, n, n);
    lemma_renumbering_is_any_order(to, back, n);
    lemma_tally_any_order(there, to, n);
    assert forall|s: int| 0 <= s < to.len() implies #[trigger] here(s) == there(to[s]) by {
        lemma_source_tally_renumbered(edges, other, to, back, n, s);
    }
    lemma_tally_over_places(there, here, to);
}

/// Whether `other` is `pairs` with some of the pairs turned round.
pub open spec fn turned(pairs: Seq<(i32, i32)>, other: Seq<(i32, i32)>) -> bool {
    &&& pairs.len() == other.len()
    &&& forall|i: int|
        0 <= i < pairs.len() ==> #[trigger] other[i] == pairs[i] || other[i] == (
            pairs[i].1,
            pairs[i].0,
        )
}

/// In a list without duplicates every entry stands at its own place.
pub proof fn lemma_position_of_entry(labels: Seq<i32>, i: int)
    requires
        labels.no_duplicates(),
        0 <= i < labels.len(),
    ensures
        position(labels, labels[i]) == i,
{
}

/// A label of a list stands at its place.
pub proof fn lemma_position_holds(labels: Seq<i32>, x: i32)
    requires
        labels.contains(x),
    ensures
        0 <= position(labels, x) < labels.len(),
        labels[position(labels, x)] == x,
{
}

/// Turning pairs round changes neither which labels there are nor how many.
pub proof fn lemma_turned_labels(pairs: Seq<(i32, i32)>, other: Seq<(i32, i32)>)
    requires
        turned(pairs, other),
    ensures
        forall|x: i32| labels_of(pairs).contains(x) <==> labels_of(other).contains(x),
        labels_of(pairs).len() == labels_of(other).len(),
{
    let here = labels_of(pairs);
    let there = labels_of(other);
    assert forall|x: i32| here.contains(x) <==> there.contains(x) by {
        if here.contains(x) {
            lemma_labels_occur(pairs, x);
            let k = choose|k: int|
                0 <= k < pairs.len() && (#[trigger] pairs[k].0 == x || pairs[k].1 == x);
            assert(other[k] == pairs[k] || other[k] == (pairs[k].1, pairs[k].0));
            lemma_labels_hold(other, k);
        }
        if there.contains(x) {
            lemma_labels_occur(other, x);
            let k = choose|k: int|
                0 <= k < other.len() && (#[trigger] other[k].0 == x || other[k].1 == x);
            assert(other[k] == pairs[k] || other[k] == (pairs[k].1, pairs[k].0));
            lemma_labels_hold(pairs, k);
        }
    }
    lemma_labels_distinct(pairs);
    lemma_labels_distinct(other);
    here.unique_seq_to_set();
    there.unique_seq_to_set();
    assert(here.to_set() =~= there.to_set());
}

/// The average distance does not depend on the direction in which the pairs
/// are written: a list of pairs and the same list with some pairs turned
/// round give graphs with the same number of nodes and the same tally of
/// distances, although their nodes may be numbered otherwise.
pub proof fn lemma_turned_pairs_same_tally(pairs: Seq<(i32, i32)>, other: Seq<(i32, i32)>)
    requires
        turned(pairs, other),
    ensures
        labels_of(other).len() == labels_of(pairs).len(),
        pair_tally(edges_over(labels_of(other), other), labels_of(other).len()) == pair_tally(
            edges_over(labels_of(pairs), pairs),
            labels_of(pairs).len(),
        ),
{
    let here = labels_of(pairs);
    let there = labels_of(other);
    let n = here.len();
    lemma_turned_labels(pairs, other);
    lemma_labels_distinct(pairs);
    lemma_labels_distinct(other);
    let to = Seq::new(n, |i: int| position(there, here[i]));
    let back = Seq::new(n, |j: int| position(here, there[j]));
    assert forall|i: int| 0 <= i < n implies 0 <= #[trigger] to[i] < n && back[to[i]] == i by {
        assert(here.contains(here[i]));
        lemma_position_holds(there, here[i]);
        lemma_position_of_entry(here, i);
    }
    assert forall|j: int| 0 <= j < n implies 0 <= #[trigger] back[j] < n && to[back[j]] == j by {
        assert(there.contains(there[j]));
        lemma_position_holds(here, there[j]);
        lemma_position_of_entry(there, j);
    }
    let edges = edges_over(here, pairs);
    let turned_edges = edges_over(there, other);
    assert forall|i: int| 0 <= i < edges.len() implies 0 <= (#[trigger] edges[i]).0 < n && 0
        <= edges[i].1 < n && joins(turned_edges[i], to[edges[i].0], to[edges[i].1]) by {
        let a = pairs[i].0;
        let b = pairs[i].1;
        lemma_labels_hold(pairs, i);
        lemma_position_holds(here, a);
        lemma_position_holds(here, b);
        assert(to[position(here, a)] == position(there, a));
        assert(to[position(here, b)] == position(there, b));
        assert(other[i] == pairs[i] || other[i] == (pairs[i].1, pairs[i].0));
    }
    assert(same_up_to(edges, turned_edges, to)) by {
        assert forall|i: int| 0 <= i < edges.len() implies joins(
            #[trigger] turned_edges[i],
            to[edges[i].0],
            to[edges[i].1],
        ) by {
            assert(0 <= edges[i].0 < n);
        }
    }
    lemma_pair_tally_renumbered(edges, turned_edges, to, back, n);
}

} // verus!
