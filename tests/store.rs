use rusthypergraph::attributes::Attributes;
use rusthypergraph::hypergraph::HypergraphRust;

fn unweighted(edges: Vec<Vec<usize>>) -> HypergraphRust {
    HypergraphRust::new(Some(edges), false, None, None).unwrap()
}

fn sorted_edges(h: &HypergraphRust) -> Vec<Vec<usize>> {
    let mut e = h.get_edges(None, None, false).unwrap();
    e.sort();
    e
}

fn sorted_nodes(h: &HypergraphRust) -> Vec<usize> {
    let mut n = h.get_nodes_without_metadata();
    n.sort();
    n
}

#[test]
fn check_edge_ignores_member_order() {
    let h = unweighted(vec![vec![3, 1, 2], vec![4, 5]]);
    assert!(h.check_edge(vec![1, 2, 3]));
    assert!(h.check_edge(vec![2, 3, 1]));
    assert!(h.check_edge(vec![3, 2, 1]));
    assert!(h.check_edge(vec![5, 4]));
    assert!(!h.check_edge(vec![1, 2]));
    assert!(!h.check_edge(vec![1, 2, 3, 4]));
}

#[test]
fn edges_are_stored_in_ascending_order() {
    let h = unweighted(vec![vec![9, 3, 5]]);
    assert_eq!(h.get_edges(None, None, false).unwrap(), vec![vec![3, 5, 9]]);
}

#[test]
fn repeated_insert_counts_in_unweighted_mode() {
    let mut h = HypergraphRust::new(None, false, None, None).unwrap();
    h.add_edge(vec![1, 2], None, None).unwrap();
    assert_eq!(h.get_weight(vec![1, 2]).unwrap(), 1);
    h.add_edge(vec![2, 1], None, None).unwrap();
    assert_eq!(h.get_weight(vec![1, 2]).unwrap(), 2);
    h.add_edge(vec![1, 2], None, None).unwrap();
    assert_eq!(h.get_weight(vec![1, 2]).unwrap(), 3);
    assert_eq!(h.num_edges(None, None, false).unwrap(), 1);
}

#[test]
fn repeated_insert_replaces_in_weighted_mode() {
    let mut h = HypergraphRust::new(None, true, None, None).unwrap();
    h.add_edge(vec![1, 2], Some(5), None).unwrap();
    assert_eq!(h.get_weight(vec![2, 1]).unwrap(), 5);
    h.add_edge(vec![2, 1], Some(7), None).unwrap();
    assert_eq!(h.get_weight(vec![1, 2]).unwrap(), 7);
}

#[test]
fn weight_against_mode_is_refused() {
    let mut u = HypergraphRust::new(None, false, None, None).unwrap();
    assert!(u.add_edge(vec![1, 2], Some(3), None).is_err());
    assert!(!u.check_edge(vec![1, 2]));
    let mut w = HypergraphRust::new(None, true, None, None).unwrap();
    assert!(w.add_edge(vec![1, 2], None, None).is_err());
    assert_eq!(w.num_nodes(), 0);
}

#[test]
fn empty_edge_is_refused() {
    let mut h = HypergraphRust::new(None, false, None, None).unwrap();
    assert!(h.add_edge(vec![], None, None).is_err());
    assert_eq!(h.num_edges(None, None, false).unwrap(), 0);
}

#[test]
fn duplicate_members_are_kept() {
    let h = unweighted(vec![vec![2, 1, 1]]);
    assert_eq!(h.get_edges(None, None, false).unwrap(), vec![vec![1, 1, 2]]);
    assert_eq!(h.max_order(), 2);
    assert_eq!(h.num_nodes(), 2);
}

#[test]
fn edge_count_is_sum_over_orders() {
    let h = unweighted(vec![vec![1, 2], vec![2, 3], vec![1, 2, 3], vec![4], vec![5, 6, 7, 8]]);
    let total = h.num_edges(None, None, false).unwrap();
    let mut sum = 0;
    for o in 0..=h.max_order() {
        sum += h.num_edges(Some(o), None, false).unwrap();
    }
    assert_eq!(total, 5);
    assert_eq!(sum, total);
    assert_eq!(h.num_edges(Some(1), None, false).unwrap(), 2);
    assert_eq!(h.num_edges(None, Some(2), false).unwrap(), 2);
    assert_eq!(h.num_edges(Some(1), None, true).unwrap(), 3);
}

#[test]
fn order_and_size_together_are_refused() {
    let h = unweighted(vec![vec![1, 2]]);
    assert!(h.get_edges(Some(1), Some(2), false).is_err());
    assert!(h.num_edges(Some(1), Some(2), false).is_err());
    assert!(h.get_weights(Some(1), Some(2), false).is_err());
    assert!(h.get_incident_edges(1, Some(1), Some(2)).is_err());
    assert!(h.get_neighbors(1, Some(1), Some(2)).is_err());
}

#[test]
fn get_edges_filters_by_order_and_size() {
    let h = unweighted(vec![vec![1, 2], vec![2, 3], vec![1, 2, 3], vec![4]]);
    let mut by_order = h.get_edges(Some(1), None, false).unwrap();
    by_order.sort();
    assert_eq!(by_order, vec![vec![1, 2], vec![2, 3]]);
    let mut by_size = h.get_edges(None, Some(3), false).unwrap();
    by_size.sort();
    assert_eq!(by_size, vec![vec![1, 2, 3]]);
    let mut up_to = h.get_edges(Some(1), None, true).unwrap();
    up_to.sort();
    assert_eq!(up_to, vec![vec![1, 2], vec![2, 3], vec![4]]);
}

#[test]
fn weights_follow_get_edges_order() {
    let h = HypergraphRust::new(Some(vec![vec![1, 2], vec![2, 3, 4]]), true, Some(vec![10, 20]), None).unwrap();
    let edges = h.get_edges(None, None, false).unwrap();
    let weights = h.get_weights(None, None, false).unwrap();
    assert_eq!(edges.len(), weights.len());
    for (e, w) in edges.iter().zip(weights.iter()) {
        assert_eq!(h.get_weight(e.clone()).unwrap(), *w);
    }
    assert_eq!(h.get_weights(Some(1), None, false).unwrap(), vec![10]);
}

#[test]
fn weighted_store_without_weights_gets_ones() {
    let h = HypergraphRust::new(Some(vec![vec![1, 2], vec![2, 3]]), true, None, None).unwrap();
    assert_eq!(h.get_weight(vec![1, 2]).unwrap(), 1);
    assert_eq!(h.get_weight(vec![2, 3]).unwrap(), 1);
}

#[test]
fn remove_then_readd_restores_structure() {
    let mut h = unweighted(vec![vec![1, 2], vec![2, 3], vec![1, 2, 3], vec![3, 4]]);
    let nodes0 = sorted_nodes(&h);
    let edges0 = sorted_edges(&h);
    let mut inc0 = h.get_incident_edges(3, None, None).unwrap();
    inc0.sort();
    h.remove_edge(vec![4, 3]).unwrap();
    assert!(!h.check_node(4));
    assert!(!h.check_edge(vec![3, 4]));
    h.add_edge(vec![3, 4], None, None).unwrap();
    assert_eq!(sorted_nodes(&h), nodes0);
    assert_eq!(sorted_edges(&h), edges0);
    let mut inc1 = h.get_incident_edges(3, None, None).unwrap();
    inc1.sort();
    assert_eq!(inc1, inc0);
    for o in 0..3 {
        let mut a = h.get_edges(Some(o), None, false).unwrap();
        a.sort();
        let mut b: Vec<Vec<usize>> = edges0.iter().filter(|e| e.len() == o + 1).cloned().collect();
        b.sort();
        assert_eq!(a, b);
    }
}

#[test]
fn remove_missing_edge_fails() {
    let mut h = unweighted(vec![vec![1, 2]]);
    assert!(h.remove_edge(vec![1, 3]).is_err());
    assert_eq!(h.num_edges(None, None, false).unwrap(), 1);
}

#[test]
fn remove_edge_prunes_empty_buckets() {
    let mut h = unweighted(vec![vec![1, 2], vec![2, 3]]);
    h.remove_edge(vec![2, 1]).unwrap();
    assert_eq!(sorted_nodes(&h), vec![2, 3]);
    assert_eq!(h.num_edges(None, None, false).unwrap(), 1);
}

#[test]
fn subhypergraph_keeps_exactly_inner_edges() {
    let h = HypergraphRust::new(
        Some(vec![vec![1, 2], vec![2, 3], vec![1, 2, 3], vec![3, 4], vec![5]]),
        true,
        Some(vec![1, 2, 3, 4, 5]),
        None,
    )
    .unwrap();
    let sub = h.subhypergraph(vec![1, 2, 3]);
    assert_eq!(sorted_edges(&sub), vec![vec![1, 2], vec![1, 2, 3], vec![2, 3]]);
    assert_eq!(sorted_nodes(&sub), vec![1, 2, 3]);
    assert_eq!(sub.get_weight(vec![1, 2, 3]).unwrap(), 3);
    assert!(sub.is_weighted());
}

#[test]
fn subhypergraph_copies_counts_in_unweighted_mode() {
    let mut h = unweighted(vec![vec![1, 2]]);
    h.add_edge(vec![1, 2], None, None).unwrap();
    let sub = h.subhypergraph(vec![1, 2, 7]);
    assert_eq!(sub.get_weight(vec![1, 2]).unwrap(), 2);
    assert_eq!(sorted_nodes(&sub), vec![1, 2, 7]);
}

#[test]
fn non_uniform_example_degrees() {
    let h = unweighted(vec![vec![1, 2], vec![2, 3], vec![1, 2, 3]]);
    assert!(!h.is_uniform());
    assert_eq!(rusthypergraph::degree::degree_rust(&h, 2, None, None).unwrap(), 3);
    assert_eq!(rusthypergraph::degree::degree_rust(&h, 2, None, Some(2)).unwrap(), 2);
    assert_eq!(rusthypergraph::degree::degree_rust(&h, 2, Some(2), None).unwrap(), 1);
    assert!(rusthypergraph::degree::degree_rust(&h, 2, Some(1), Some(2)).is_err());
}

#[test]
fn uniform_and_connected() {
    let h = unweighted(vec![vec![1, 2], vec![2, 3], vec![1, 3]]);
    assert!(h.is_uniform());
    assert!(h.is_connected_rust());
    let split = unweighted(vec![vec![1, 2], vec![3, 4]]);
    assert!(split.is_uniform());
    assert!(!split.is_connected_rust());
    let empty = HypergraphRust::new(None, false, None, None).unwrap();
    assert!(empty.is_connected_rust());
    assert!(!empty.is_uniform());
}

#[test]
fn max_order_and_size() {
    let mut h = unweighted(vec![vec![1, 2], vec![1, 2, 3, 4]]);
    assert_eq!(h.max_order(), 3);
    assert_eq!(h.max_size(), 4);
    h.remove_edge(vec![1, 2, 3, 4]).unwrap();
    assert_eq!(h.max_order(), 1);
    assert_eq!(h.max_size(), 2);
}

#[test]
fn incident_edges_and_neighbors() {
    let h = unweighted(vec![vec![1, 2], vec![2, 3], vec![2, 4, 5]]);
    let mut inc = h.get_incident_edges(2, None, None).unwrap();
    inc.sort();
    assert_eq!(inc, vec![vec![1, 2], vec![2, 3], vec![2, 4, 5]]);
    assert_eq!(h.get_incident_edges(2, None, Some(3)).unwrap(), vec![vec![2, 4, 5]]);
    let mut nb = h.get_neighbors(2, None, None).unwrap();
    nb.sort();
    assert_eq!(nb, vec![1, 3, 4, 5]);
    let mut nb1 = h.get_neighbors(2, Some(1), None).unwrap();
    nb1.sort();
    assert_eq!(nb1, vec![1, 3]);
    assert_eq!(h.get_incident_edges(99, None, None).unwrap(), Vec::<Vec<usize>>::new());
}

#[test]
fn remove_node_cascades_or_keeps_edges() {
    let mut a = unweighted(vec![vec![1, 2], vec![2, 3], vec![3, 4]]);
    a.remove_node(2, false).unwrap();
    assert!(!a.check_node(2));
    assert_eq!(sorted_edges(&a), vec![vec![3, 4]]);
    let mut b = unweighted(vec![vec![1, 2], vec![2, 3], vec![3, 4]]);
    b.remove_node(2, true).unwrap();
    assert!(!b.check_node(2));
    assert_eq!(sorted_edges(&b), vec![vec![1, 2], vec![2, 3], vec![3, 4]]);
    assert!(b.remove_node(2, true).is_err());
    assert!(b.remove_node(42, false).is_err());
}

#[test]
fn remove_nodes_and_edges_in_batch() {
    let mut h = unweighted(vec![vec![1, 2], vec![2, 3], vec![3, 4], vec![5, 6]]);
    h.remove_edges(vec![vec![2, 1], vec![9, 9]]);
    assert_eq!(sorted_edges(&h), vec![vec![2, 3], vec![3, 4], vec![5, 6]]);
    h.remove_nodes(vec![5, 77], false);
    assert_eq!(sorted_edges(&h), vec![vec![2, 3], vec![3, 4]]);
    assert!(!h.check_node(5));
}

#[test]
fn add_nodes_is_idempotent() {
    let mut h = HypergraphRust::new(None, false, None, None).unwrap();
    h.add_nodes(vec![3, 1, 3]);
    h.add_node(1);
    assert_eq!(sorted_nodes(&h), vec![1, 3]);
    assert_eq!(h.num_edges(None, None, false).unwrap(), 0);
}

#[test]
fn add_edges_updates_existing_edges_in_place() {
    let mut h = unweighted(vec![vec![1, 2]]);
    h.add_edges(vec![vec![2, 1], vec![3, 4]], None, None).unwrap();
    assert_eq!(h.get_weight(vec![1, 2]).unwrap(), 1);
    assert_eq!(h.get_weight(vec![3, 4]).unwrap(), 1);
    let mut w = HypergraphRust::new(None, true, None, None).unwrap();
    w.add_edges(vec![vec![1, 2], vec![2, 1]], Some(vec![4, 9]), None).unwrap();
    assert_eq!(w.get_weight(vec![1, 2]).unwrap(), 9);
}

#[test]
fn add_edges_refuses_bad_arguments() {
    let mut h = HypergraphRust::new(None, true, None, None).unwrap();
    assert!(h.add_edges(vec![vec![1, 2]], Some(vec![1, 2]), None).is_err());
    assert!(h.add_edges(vec![vec![1, 2]], None, None).is_err());
    let mut u = HypergraphRust::new(None, false, None, None).unwrap();
    assert!(u.add_edges(vec![vec![1, 2]], Some(vec![1]), None).is_err());
    assert_eq!(u.num_nodes(), 0);
}

#[test]
fn set_and_get_weight() {
    let mut h = unweighted(vec![vec![1, 2]]);
    h.set_weight(vec![2, 1], 11).unwrap();
    assert_eq!(h.get_weight(vec![1, 2]).unwrap(), 11);
    assert!(h.set_weight(vec![1, 3], 1).is_err());
    assert!(h.get_weight(vec![1, 3]).is_err());
}

#[test]
fn update_edge_changes_weight_and_attributes() {
    let mut h = HypergraphRust::new(Some(vec![vec![1, 2]]), true, Some(vec![3]), None).unwrap();
    let mut meta = Attributes::new();
    meta.insert("color".to_string(), "red".to_string());
    h.update_edge(vec![2, 1], Some(8), Some(meta)).unwrap();
    assert_eq!(h.get_weight(vec![1, 2]).unwrap(), 8);
    assert!(h.update_edge(vec![5, 6], Some(1), None).is_err());
}

#[test]
fn node_and_edge_metadata() {
    let mut meta = Attributes::new();
    meta.insert("label".to_string(), "x".to_string());
    let h = HypergraphRust::new(Some(vec![vec![2, 1]]), false, None, Some(vec![meta])).unwrap();
    // Each edge is registered before its members, which follow in ascending order.
    assert_eq!(h.get_attr_meta(0, "type".to_string()).unwrap(), "edge");
    assert_eq!(h.get_attr_meta(0, "name".to_string()).unwrap(), "[1, 2]");
    assert_eq!(h.get_attr_meta(0, "label".to_string()).unwrap(), "x");
    assert_eq!(h.get_attr_meta(1, "type".to_string()).unwrap(), "node");
    assert_eq!(h.get_attr_meta(1, "name".to_string()).unwrap(), "1");
    assert_eq!(h.get_attr_meta(2, "name".to_string()).unwrap(), "2");
    assert!(h.get_attr_meta(1, "label".to_string()).is_err());
    assert!(h.get_attr_meta(50, "type".to_string()).is_err());
    assert!(h.get_meta(50).is_none());
}

#[test]
fn set_meta_needs_a_registered_object() {
    let mut h = unweighted(vec![vec![1, 2]]);
    let mut meta = Attributes::new();
    meta.insert("k".to_string(), "v".to_string());
    h.set_meta(1, meta.copy()).unwrap();
    assert_eq!(h.get_attr_meta(1, "k".to_string()).unwrap(), "v");
    assert!(h.get_attr_meta(1, "type".to_string()).is_err());
    assert!(h.set_meta(40, meta).is_err());
}

#[test]
fn copy_is_independent() {
    let h = unweighted(vec![vec![1, 2], vec![2, 3]]);
    let mut c = h.copy();
    c.remove_edge(vec![1, 2]).unwrap();
    assert_eq!(h.num_edges(None, None, false).unwrap(), 2);
    assert_eq!(c.num_edges(None, None, false).unwrap(), 1);
}

#[test]
fn sizes_of_edges() {
    let h = unweighted(vec![vec![1, 2], vec![1, 2, 3]]);
    let mut s = h.get_sizes();
    s.sort();
    assert_eq!(s, vec![2, 3]);
}

#[test]
fn mapping_over_nodes() {
    let h = unweighted(vec![vec![30, 10], vec![20, 10]]);
    let enc = h.get_mapping().unwrap();
    assert_eq!(enc.transform(10), Some(0));
    assert_eq!(enc.transform(20), Some(1));
    assert_eq!(enc.transform(30), Some(2));
    assert_eq!(enc.transform(40), None);
    assert_eq!(enc.inverse_transform(2), Some(30));
    assert_eq!(enc.inverse_transform(3), None);
    let empty = HypergraphRust::new(None, false, None, None).unwrap();
    assert!(empty.get_mapping().is_err());
}

#[test]
fn subhypergraph_by_orders_keeps_chosen_sizes() {
    let h = unweighted(vec![vec![1, 2], vec![2, 3], vec![1, 2, 3], vec![4], vec![5, 6]]);
    let by_order = h.subhypergraph_by_orders(Some(vec![1]), None, false).unwrap();
    assert_eq!(sorted_edges(&by_order), vec![vec![1, 2], vec![2, 3], vec![5, 6]]);
    assert_eq!(sorted_nodes(&by_order), vec![1, 2, 3, 5, 6]);
    let by_size = h.subhypergraph_by_orders(None, Some(vec![1, 3]), true).unwrap();
    assert_eq!(sorted_edges(&by_size), vec![vec![1, 2, 3], vec![4]]);
    assert_eq!(sorted_nodes(&by_size), vec![1, 2, 3, 4, 5, 6]);
    assert!(h.subhypergraph_by_orders(None, None, true).is_err());
    assert!(h.subhypergraph_by_orders(Some(vec![1]), Some(vec![2]), true).is_err());
}

#[test]
fn orders_and_size_distribution() {
    let h = unweighted(vec![vec![1, 2], vec![2, 3], vec![1, 2, 3]]);
    let mut orders = h.get_orders();
    orders.sort();
    assert_eq!(orders, vec![1, 1, 2]);
    let dist = h.distribution_sizes();
    assert_eq!(dist[&2], 2);
    assert_eq!(dist[&3], 1);
    assert_eq!(dist.len(), 2);
}

#[test]
fn edges_and_nodes_with_metadata() {
    let h = unweighted(vec![vec![1, 2], vec![2, 3]]);
    let edges = h.get_edges_metadata();
    assert_eq!(edges.len(), 2);
    for (e, meta) in &edges {
        assert_eq!(meta.get(&"type".to_string()).unwrap(), "edge");
        assert_eq!(meta.get(&"name".to_string()).unwrap(), &format!("{:?}", e));
    }
    let mut nodes: Vec<usize> = h.get_nodes_with_metadata().into_iter().map(|(n, _)| n).collect();
    nodes.sort();
    assert_eq!(nodes, vec![1, 2, 3]);
    assert_eq!(h.get_all_edges().len(), 2);
}

#[test]
fn constructor_refuses_bad_batches() {
    assert!(HypergraphRust::new(Some(vec![vec![1, 2], vec![]]), false, None, None).is_err());
    assert!(HypergraphRust::new(Some(vec![vec![1, 2]]), true, Some(vec![1, 2]), None).is_err());
    let h = HypergraphRust::new(Some(vec![vec![1, 2]]), false, Some(vec![5, 6]), None).unwrap();
    assert_eq!(h.get_weight(vec![1, 2]).unwrap(), 1);
    assert!(!h.is_weighted());
}

#[test]
fn subhypergraph_copies_attributes() {
    let mut meta = Attributes::new();
    meta.insert("label".to_string(), "kept".to_string());
    let mut h = HypergraphRust::new(Some(vec![vec![1, 2], vec![2, 3]]), false, None, Some(vec![meta.copy(), Attributes::new()])).unwrap();
    let mut node_meta = Attributes::new();
    node_meta.insert("color".to_string(), "green".to_string());
    // Node 1 has identity 1: the first edge is registered before its members.
    h.set_meta(1, node_meta).unwrap();
    let sub = h.subhypergraph(vec![1, 2]);
    let edges = sub.get_edges_metadata();
    assert_eq!(edges.len(), 1);
    assert_eq!(edges[0].0, vec![1, 2]);
    assert_eq!(edges[0].1.get(&"label".to_string()).unwrap(), "kept");
    assert_eq!(edges[0].1.get(&"type".to_string()).unwrap(), "edge");
    assert_eq!(sub.get_attr_meta(0, "color".to_string()).unwrap(), "green");
}

#[test]
fn incident_edges_come_back_sorted() {
    let h = unweighted(vec![vec![5, 2], vec![2, 3, 4], vec![1, 2], vec![2, 3]]);
    assert_eq!(
        h.get_incident_edges(2, None, None).unwrap(),
        vec![vec![1, 2], vec![2, 3], vec![2, 3, 4], vec![2, 5]]
    );
}

#[test]
fn remove_nodes_drops_edges_holding_them() {
    let mut h = unweighted(vec![vec![1, 2], vec![2, 3], vec![3, 4], vec![4, 5], vec![6, 7]]);
    h.remove_nodes(vec![2, 5, 99], false);
    assert_eq!(sorted_edges(&h), vec![vec![3, 4], vec![6, 7]]);
    let mut k = unweighted(vec![vec![1, 2], vec![2, 3]]);
    k.remove_nodes(vec![2], true);
    assert_eq!(sorted_edges(&k), vec![vec![1, 2], vec![2, 3]]);
}

#[test]
fn constructor_counts_repeated_edges() {
    let h = unweighted(vec![vec![1, 2], vec![2, 1], vec![1, 2], vec![3, 4]]);
    assert_eq!(h.get_weight(vec![1, 2]).unwrap(), 3);
    assert_eq!(h.get_weight(vec![3, 4]).unwrap(), 1);
    assert_eq!(h.num_edges(None, None, false).unwrap(), 2);
    let w = HypergraphRust::new(Some(vec![vec![1, 2], vec![2, 1]]), true, Some(vec![4, 9]), None).unwrap();
    assert_eq!(w.get_weight(vec![1, 2]).unwrap(), 9);
}

#[test]
fn metadata_for_some_edges_only() {
    let mut meta = Attributes::new();
    meta.insert("label".to_string(), "first".to_string());
    let h = HypergraphRust::new(Some(vec![vec![1, 2], vec![3, 4]]), false, None, Some(vec![meta])).unwrap();
    let mut edges = h.get_edges_metadata();
    edges.sort_by(|a, b| a.0.cmp(&b.0));
    assert_eq!(edges[0].1.get(&"label".to_string()).unwrap(), "first");
    assert!(edges[1].1.get(&"label".to_string()).is_none());
    let mut b = unweighted(vec![]);
    b.add_edges(vec![vec![5, 6], vec![6, 7]], None, Some(vec![])).unwrap();
    assert_eq!(b.num_edges(None, None, false).unwrap(), 2);
}

#[test]
fn registry_cost_is_available() {
    let h = unweighted(vec![vec![1, 2], vec![1, 2, 3]]);
    assert_eq!(h.registry_cost_checked(), Some(5 + 7));
}
