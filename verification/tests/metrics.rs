use graph_metrics::clustering::{average_clustering, local_clustering};
use graph_metrics::degrees::{average_degree, degree_tally, degrees};
use graph_metrics::distances::{
    average_distance, distance_tally, distances_from, edge_cost, pair_distance_tally,
};
use graph_metrics::store::Network;
use graph_metrics::tally::{MetricsError, Ratio, Tally};

fn value(r: Ratio) -> f64 {
    r.num as f64 / r.den as f64
}

fn mean(terms: &Vec<Ratio>) -> f64 {
    let mut sum = 0.0;
    for t in terms {
        sum += value(*t);
    }
    sum / terms.len() as f64
}

fn close(a: f64, b: f64) -> bool {
    (a - b).abs() < 1e-9
}

#[test]
fn triangle_has_all_metrics_at_their_simplest() {
    let g = Network::build(&vec![(1, 2), (2, 3), (1, 3)]);
    assert_eq!(average_degree(&g), Ok(Ratio { num: 6, den: 3 }));
    assert!(close(value(average_degree(&g).unwrap()), 2.0));
    let terms = average_clustering(&g).unwrap();
    assert_eq!(terms, vec![Ratio { num: 1, den: 1 }; 3]);
    assert!(close(mean(&terms), 1.0));
    assert_eq!(average_distance(&g), Ok(Ratio { num: 6, den: 6 }));
    assert!(close(value(average_distance(&g).unwrap()), 1.0));
}

#[test]
fn path_of_four_nodes() {
    let g = Network::build(&vec![(1, 2), (2, 3), (3, 4)]);
    assert_eq!(average_degree(&g), Ok(Ratio { num: 6, den: 4 }));
    assert!(close(value(average_degree(&g).unwrap()), 1.5));
    let terms = average_clustering(&g).unwrap();
    assert_eq!(terms.len(), 4);
    assert!(close(mean(&terms), 0.0));
    assert_eq!(terms[0], Ratio { num: 0, den: 1 });
    assert_eq!(terms[1], Ratio { num: 0, den: 1 });
    assert_eq!(average_distance(&g), Ok(Ratio { num: 20, den: 12 }));
    let expected = (1 + 2 + 3 + 1 + 1 + 2 + 2 + 1 + 1 + 3 + 2 + 1) as f64 / 12.0;
    assert!(close(value(average_distance(&g).unwrap()), expected));
}

#[test]
fn two_separate_edges_average_within_their_components() {
    let g = Network::build(&vec![(1, 2), (3, 4)]);
    assert_eq!(average_distance(&g), Ok(Ratio { num: 4, den: 4 }));
    assert!(close(value(average_distance(&g).unwrap()), 1.0));
    assert!(close(value(average_degree(&g).unwrap()), 1.0));
    assert!(close(mean(&average_clustering(&g).unwrap()), 0.0));
}

#[test]
fn single_isolated_node_has_no_average_distance() {
    let mut g = Network::new();
    assert_eq!(g.add_node(7), 0);
    assert_eq!(g.node_count(), 1);
    assert_eq!(g.edge_count(), 0);
    assert_eq!(average_distance(&g), Err(MetricsError::EmptyGraph));
    assert_eq!(pair_distance_tally(&g), Tally { sum: 0, count: 0 });
    assert_eq!(average_degree(&g), Ok(Ratio { num: 0, den: 1 }));
    assert_eq!(average_clustering(&g), Ok(vec![Ratio { num: 0, den: 1 }]));
}

#[test]
fn graph_without_nodes_has_no_metric() {
    let g = Network::build(&Vec::new());
    assert_eq!(g.node_count(), 0);
    assert_eq!(average_degree(&g), Err(MetricsError::EmptyGraph));
    assert_eq!(average_clustering(&g), Err(MetricsError::EmptyGraph));
    assert_eq!(average_distance(&g), Err(MetricsError::EmptyGraph));
}

#[test]
fn degrees_sum_to_twice_the_edges() {
    let pairs = vec![(5, 9), (9, 2), (5, 2), (2, 7), (5, 9), (11, 7), (7, 7), (2, 2), (2, 2)];
    let g = Network::build(&pairs);
    let total = degree_tally(&g);
    assert_eq!(total.sum, 2 * pairs.len() as u128);
    assert_eq!(total.count, 5);
    let mut by_hand = 0;
    for (v, d) in degrees(&g) {
        assert_eq!(g.degree(v), d);
        by_hand += d;
    }
    assert_eq!(by_hand, 2 * g.edge_count() as u64);
    assert_eq!(degrees(&g), vec![(0, 3), (1, 3), (2, 7), (3, 4), (4, 1)]);
}

#[test]
fn self_loop_adds_two_to_the_degree_sum() {
    let g = Network::build(&vec![(1, 1), (1, 2)]);
    assert_eq!(g.neighbors(0), vec![1, 0]);
    assert_eq!(g.degree(0), 3);
    assert_eq!(g.degree(1), 1);
    assert_eq!(degree_tally(&g), Tally { sum: 4, count: 2 });
    assert_eq!(average_degree(&g), Ok(Ratio { num: 4, den: 2 }));
}

#[test]
fn single_node_with_a_self_loop_has_degree_two() {
    let g = Network::build(&vec![(1, 1)]);
    assert_eq!(g.node_count(), 1);
    assert_eq!(g.edge_count(), 1);
    assert_eq!(g.degree(0), 2);
    assert_eq!(average_degree(&g), Ok(Ratio { num: 2, den: 1 }));
    assert!(close(value(average_degree(&g).unwrap()), 2.0));
    assert_eq!(local_clustering(&g, 0), Ratio { num: 0, den: 1 });
    assert_eq!(average_distance(&g), Err(MetricsError::EmptyGraph));
}

#[test]
fn clustering_counts_a_self_loop_as_one_neighbor_entry() {
    let g = Network::build(&vec![(1, 1), (1, 2), (1, 3), (2, 3)]);
    assert_eq!(g.degree(0), 4);
    assert_eq!(g.neighbors(0), vec![2, 1, 0]);
    assert_eq!(local_clustering(&g, 0), Ratio { num: 3, den: 3 });
}

#[test]
fn parallel_edges_count_each() {
    let g = Network::build(&vec![(1, 2), (1, 2), (2, 1)]);
    assert_eq!(g.node_count(), 2);
    assert_eq!(g.edge_count(), 3);
    assert_eq!(g.degree(0), 3);
    assert_eq!(g.degree(1), 3);
    assert_eq!(average_degree(&g), Ok(Ratio { num: 6, den: 2 }));
    assert_eq!(local_clustering(&g, 0), Ratio { num: 0, den: 3 });
}

#[test]
fn local_clustering_lies_between_zero_and_one() {
    let g = Network::build(&vec![(1, 2), (1, 3), (1, 4), (2, 3), (4, 5), (5, 5), (1, 5)]);
    for v in 0..g.node_count() {
        let r = local_clustering(&g, v);
        assert!(r.den >= 1);
        assert!(r.num <= r.den);
        if g.degree(v) < 2 {
            assert_eq!(r, Ratio { num: 0, den: 1 });
        }
    }
    assert_eq!(local_clustering(&g, 0), Ratio { num: 2, den: 6 });
    assert_eq!(local_clustering(&g, 1), Ratio { num: 1, den: 1 });
    assert_eq!(local_clustering(&g, 3), Ratio { num: 1, den: 1 });
}

#[test]
fn clustering_counts_a_self_loop_between_equal_entries() {
    let g = Network::build(&vec![(1, 2), (1, 2), (2, 2)]);
    assert_eq!(g.neighbors(0), vec![1, 1]);
    assert_eq!(local_clustering(&g, 0), Ratio { num: 1, den: 1 });
    assert_eq!(g.neighbors(1), vec![1, 0, 0]);
    assert_eq!(local_clustering(&g, 1), Ratio { num: 2, den: 3 });
}

#[test]
fn distance_is_symmetric() {
    let g = Network::build(&vec![(1, 2), (2, 3), (3, 4), (4, 1), (4, 5), (6, 7)]);
    let n = g.node_count();
    let mut rows = Vec::new();
    for s in 0..n {
        rows.push(distances_from(&g, s));
    }
    for s in 0..n {
        assert_eq!(rows[s][s], Some(0));
        for t in 0..n {
            assert_eq!(rows[s][t], rows[t][s]);
        }
    }
    assert_eq!(rows[0], vec![Some(0), Some(1), Some(2), Some(1), Some(2), None, None]);
    assert_eq!(rows[5], vec![None, None, None, None, None, Some(0), Some(1)]);
    assert_eq!(pair_distance_tally(&g).count % 2, 0);
    assert_eq!(pair_distance_tally(&g), Tally { sum: 34, count: 22 });
}

#[test]
fn isolated_node_adds_nothing_to_the_distance_tally() {
    let mut g = Network::build(&vec![(1, 2), (2, 3)]);
    let before = pair_distance_tally(&g);
    let v = g.add_node(40);
    assert_eq!(g.degree(v), 0);
    assert_eq!(distance_tally(&g, v), Tally { sum: 0, count: 0 });
    assert_eq!(pair_distance_tally(&g), before);
    assert_eq!(before, Tally { sum: 8, count: 6 });
    for s in 0..v {
        assert_eq!(distances_from(&g, s)[v], None);
    }
}

#[test]
fn metrics_repeat_and_do_not_depend_on_the_order_of_the_parts() {
    let g = Network::build(&vec![(3, 1), (1, 4), (4, 3), (5, 9), (9, 2), (2, 6), (6, 5), (3, 5)]);
    let n = g.node_count();
    assert_eq!(average_degree(&g), average_degree(&g));
    assert_eq!(average_clustering(&g), average_clustering(&g));
    assert_eq!(average_distance(&g), average_distance(&g));
    let mut forward = Tally::zero();
    for s in 0..n {
        forward = forward.combine(distance_tally(&g, s)).unwrap();
    }
    let mut backward = Tally::zero();
    for s in (0..n).rev() {
        backward = distance_tally(&g, s).combine(backward).unwrap();
    }
    let mut low = Tally::zero();
    let mut high = Tally::zero();
    for s in 0..n {
        if s < 3 {
            low = low.combine(distance_tally(&g, s)).unwrap();
        } else {
            high = high.combine(distance_tally(&g, s)).unwrap();
        }
    }
    assert_eq!(forward, pair_distance_tally(&g));
    assert_eq!(backward, forward);
    assert_eq!(high.combine(low), Some(forward));
    assert_eq!(forward.mean(), average_distance(&g));
}

#[test]
fn tally_combines_and_averages() {
    let a = Tally::of(7);
    assert_eq!(a, Tally { sum: 7, count: 1 });
    let b = Tally { sum: 5, count: 3 };
    assert_eq!(a.combine(b), Some(Tally { sum: 12, count: 4 }));
    assert_eq!(b.combine(a), a.combine(b));
    assert_eq!(a.combine(Tally::zero()), Some(a));
    assert_eq!(Tally { sum: 12, count: 4 }.mean(), Ok(Ratio { num: 12, den: 4 }));
    assert_eq!(Tally { sum: 12, count: 0 }.mean(), Err(MetricsError::EmptyGraph));
    assert_eq!(Tally::zero().mean(), Err(MetricsError::EmptyGraph));
}

#[test]
fn tally_out_of_range_is_not_combined() {
    let full = Tally { sum: u128::MAX, count: 1 };
    assert_eq!(full.combine(Tally::of(1)), None);
    assert_eq!(full.combine(Tally { sum: 0, count: 1 }), Some(Tally { sum: u128::MAX, count: 2 }));
    let many = Tally { sum: 0, count: u64::MAX };
    assert_eq!(many.combine(Tally::of(0)), None);
    assert_eq!(many.combine(Tally::zero()), Some(many));
}

#[test]
fn every_edge_costs_one() {
    assert_eq!(edge_cost(), 1);
    let g = Network::build(&vec![(1, 2), (2, 3), (3, 4), (4, 5)]);
    assert_eq!(distances_from(&g, 0), vec![Some(0), Some(1), Some(2), Some(3), Some(4)]);
    assert_eq!(distance_tally(&g, 0), Tally { sum: 10, count: 4 });
    assert_eq!(distance_tally(&g, 2), Tally { sum: 6, count: 4 });
}

#[test]
fn average_distance_ignores_the_direction_of_the_pairs() {
    let pairs = vec![(1, 2), (1, 3), (3, 4), (4, 5), (5, 3), (6, 7), (7, 8), (2, 9)];
    let turned = vec![(2, 1), (1, 3), (4, 3), (4, 5), (3, 5), (7, 6), (7, 8), (9, 2)];
    let g = Network::build(&pairs);
    let h = Network::build(&turned);
    assert_eq!(g.node_count(), h.node_count());
    assert_ne!(g.label(0), h.label(0));
    assert_eq!(pair_distance_tally(&g), pair_distance_tally(&h));
    assert_eq!(average_distance(&g), average_distance(&h));
    assert_eq!(average_degree(&g), average_degree(&h));
    let a = value(average_distance(&g).unwrap());
    let b = value(average_distance(&h).unwrap());
    assert!(close(a, b));
}
