use std::collections::HashSet;

use rusthypergraph::centrality::{check_centrality_input, clique_expansion, clique_matrix, edges_by_position};
use rusthypergraph::degree::{degree_distribution_rust, degree_sequence_rust, degree_sequences_by_size};
use rusthypergraph::edge_similarity::{intersection_rust, jaccard_ratio, union_size_rust};
use rusthypergraph::hypergraph::HypergraphRust;
use rusthypergraph::line_graph::line_graph_links;

fn unweighted(edges: Vec<Vec<usize>>) -> HypergraphRust {
    HypergraphRust::new(Some(edges), false, None, None).unwrap()
}

fn set(v: &[usize]) -> HashSet<usize> {
    v.iter().copied().collect()
}

fn pearson(x: &[f64], y: &[f64]) -> f64 {
    let n = x.len() as f64;
    let mx = x.iter().sum::<f64>() / n;
    let my = y.iter().sum::<f64>() / n;
    let num: f64 = x.iter().zip(y).map(|(a, b)| (a - mx) * (b - my)).sum();
    let dx: f64 = x.iter().map(|a| (a - mx) * (a - mx)).sum::<f64>().sqrt();
    let dy: f64 = y.iter().map(|b| (b - my) * (b - my)).sum::<f64>().sqrt();
    num / (dx * dy)
}

#[test]
fn jaccard_example() {
    let a = set(&[1, 2, 3]);
    let b = set(&[2, 3, 4]);
    assert_eq!(intersection_rust(&a, &b), 2);
    assert_eq!(union_size_rust(&a, &b), 4);
    let (common, all) = jaccard_ratio(&a, &b);
    let similarity = common as f64 / all as f64;
    assert_eq!(similarity, 0.5);
    assert_eq!(1.0 - similarity, 0.5);
}

#[test]
fn intersection_of_disjoint_and_equal_sets() {
    assert_eq!(intersection_rust(&set(&[1, 2]), &set(&[3, 4])), 0);
    assert_eq!(intersection_rust(&set(&[1, 2, 3]), &set(&[3, 2, 1])), 3);
    assert_eq!(intersection_rust(&set(&[]), &set(&[1])), 0);
    assert_eq!(union_size_rust(&set(&[]), &set(&[])), 0);
}

#[test]
fn degree_sequence_and_distribution() {
    let h = unweighted(vec![vec![1, 2], vec![2, 3], vec![1, 2, 3]]);
    let seq = degree_sequence_rust(&h, None, None).unwrap().unwrap();
    assert_eq!(seq[&1], 2);
    assert_eq!(seq[&2], 3);
    assert_eq!(seq[&3], 2);
    let seq2 = degree_sequence_rust(&h, None, Some(2)).unwrap().unwrap();
    assert_eq!(seq2[&2], 2);
    assert_eq!(seq2[&1], 1);
    let dist = degree_distribution_rust(&h, None, None).unwrap().unwrap();
    assert_eq!(dist[&2], 2);
    assert_eq!(dist[&3], 1);
    assert_eq!(dist.len(), 2);
    assert!(degree_sequence_rust(&h, Some(1), Some(2)).is_err());
    assert!(degree_distribution_rust(&h, Some(1), Some(2)).is_err());
}

#[test]
fn single_size_correlation_is_one() {
    let h = unweighted(vec![vec![1, 2], vec![2, 3]]);
    let seqs = degree_sequences_by_size(&h);
    assert_eq!(seqs.len(), 1);
    let mut nodes: Vec<usize> = seqs[0].keys().copied().collect();
    nodes.sort();
    let d: Vec<f64> = nodes.iter().map(|n| seqs[0][n] as f64).collect();
    assert_eq!(d, vec![1.0, 2.0, 1.0]);
    let r = (pearson(&d, &d) * 1e8).round() / 1e8;
    assert_eq!(r, 1.0);
}

#[test]
fn correlation_sizes_run_from_two_to_the_largest() {
    let h = unweighted(vec![vec![1, 2], vec![1, 2, 3, 4]]);
    let seqs = degree_sequences_by_size(&h);
    assert_eq!(seqs.len(), 3);
    assert_eq!(seqs[0][&1], 1);
    assert_eq!(seqs[1][&1], 0);
    assert_eq!(seqs[2][&4], 1);
}

#[test]
fn triangle_centralities_are_equal() {
    let h = unweighted(vec![vec![1, 2], vec![2, 3], vec![1, 3]]);
    assert!(check_centrality_input(&h).is_ok());
    let (nodes, w) = clique_expansion(&h).unwrap();
    assert_eq!(nodes, vec![1, 2, 3]);
    assert_eq!(w, vec![vec![0, 1, 1], vec![1, 0, 1], vec![1, 1, 0]]);
    let mut x = vec![1.0f64 / 3f64.sqrt(); 3];
    for _ in 0..100 {
        let y: Vec<f64> = (0..3).map(|i| (0..3).map(|j| w[i][j] as f64 * x[j]).sum()).collect();
        let norm = y.iter().map(|v| v * v).sum::<f64>().sqrt();
        x = y.iter().map(|v| v / norm).collect();
    }
    assert!((x[0] - x[1]).abs() < 1e-9);
    assert!((x[1] - x[2]).abs() < 1e-9);
}

#[test]
fn centralities_need_uniform_connected_input() {
    let mixed = unweighted(vec![vec![1, 2], vec![1, 2, 3]]);
    assert!(check_centrality_input(&mixed).is_err());
    assert!(clique_expansion(&mixed).is_err());
    let split = unweighted(vec![vec![1, 2], vec![3, 4]]);
    assert!(check_centrality_input(&split).is_err());
}

#[test]
fn clique_matrix_counts_cooccurrence() {
    let nodes = vec![1, 2, 3, 4];
    let edges = vec![vec![1, 2, 3], vec![2, 3, 4], vec![1, 1]];
    let w = clique_matrix(&nodes, &edges).unwrap();
    assert_eq!(w[1][2], 2);
    assert_eq!(w[2][1], 2);
    assert_eq!(w[0][1], 1);
    assert_eq!(w[0][3], 0);
    assert_eq!(w[0][0], 2);
}

#[test]
fn line_graph_links_by_shared_nodes() {
    let edges = vec![vec![1, 2, 3], vec![2, 3, 4], vec![4, 5], vec![6]];
    assert_eq!(line_graph_links(&edges, 1), vec![(0, 1), (1, 2)]);
    assert_eq!(line_graph_links(&edges, 2), vec![(0, 1)]);
    assert_eq!(line_graph_links(&edges, 0).len(), 6);
}

#[test]
fn edges_by_position_reindexes_members() {
    let nodes = vec![10, 20, 30];
    let edges = vec![vec![10, 30], vec![20, 99, 10], vec![]];
    assert_eq!(edges_by_position(&nodes, &edges), vec![vec![0, 2], vec![1, 0], vec![]]);
}
