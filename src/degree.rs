//! Degrees of nodes: one node's degree, the degree of every node, and how
//! many nodes have each degree.

use std::collections::HashMap;
use vstd::prelude::*;
use crate::hypergraph::{views, wanted_size, HypergraphRust};

verus! {

broadcast use vstd::std_specs::hash::group_hash_axioms;

/// The degree of node `n`: how many edges of the size asked for are in its bucket.
pub open spec fn degree_of(h: HypergraphRust, n: usize, want: Option<nat>) -> nat {
    h.incident_of_size(n, want).len()
}

/// The degree of `node`, counting only edges of the order or size asked for.
/// Asking for both an order and a size is an error.
pub fn degree_rust(hypergraph: &HypergraphRust, node: usize, order: Option<usize>, size: Option<usize>) -> (r: Result<u64, String>)
    requires
        hypergraph.wf(),
    ensures
        r is Err <==> order is Some && size is Some,
        r matches Ok(d) ==> d == degree_of(*hypergraph, node, wanted_size(order, size)),
{
    match hypergraph.get_incident_edges(node, order, size) {
        Ok(edges) => {
            proof {
                views(edges@).unique_seq_to_set();
            }
            Ok(edges.len() as u64)
        },
        Err(e) => Err(e),
    }
}

/// The degree of every live node, counting only edges of the order or size
/// asked for. Asking for both an order and a size is an error.
pub fn degree_sequence_rust(hypergraph: &HypergraphRust, order: Option<usize>, size: Option<usize>) -> (r: Result<Option<HashMap<usize, u64>>, String>)
    requires
        hypergraph.wf(),
    ensures
        r is Err <==> order is Some && size is Some,
        r is Ok ==> r->Ok_0 is Some,
        r matches Ok(Some(m)) ==> {
            &&& m@.dom() == hypergraph.nodes()
            &&& forall|n: usize| #[trigger] m@.contains_key(n) ==> m@[n] == degree_of(*hypergraph, n, wanted_size(order, size))
        },
{
    if order.is_some() && size.is_some() {
        return Err(String::from_str("Order and size cannot be both specified."));
    }
    let nodes = hypergraph.get_nodes_without_metadata();
    let mut seq: HashMap<usize, u64> = HashMap::new();
    let mut i: usize = 0;
    while i < nodes.len()
        invariant
            hypergraph.wf(),
            !(order is Some && size is Some),
            i <= nodes@.len(),
            seq@.dom() == nodes@.subrange(0, i as int).to_set(),
            forall|n: usize| #[trigger] seq@.contains_key(n) ==> seq@[n] == degree_of(*hypergraph, n, wanted_size(order, size)),
        decreases nodes@.len() - i,
    {
        let d = match degree_rust(hypergraph, nodes[i], order, size) {
            Ok(d) => d,
            Err(e) => return Err(e),
        };
        seq.insert(nodes[i], d);
        proof {
            assert(nodes@.subrange(0, i + 1) =~= nodes@.subrange(0, i as int).push(nodes@[i as int]));
            nodes@.subrange(0, i as int).lemma_push_to_set_commute(nodes@[i as int]);
            assert(seq@.dom() =~= nodes@.subrange(0, i + 1).to_set());
        }
        i = i + 1;
    }
    assert(nodes@.subrange(0, i as int) =~= nodes@);
    Ok(Some(seq))
}

/// Whether a node has degree `d`.
pub open spec fn deg_pred(h: HypergraphRust, want: Option<nat>, d: nat) -> spec_fn(usize) -> bool {
    |n: usize| degree_of(h, n, want) == d
}

/// The live nodes whose degree is `d`.
pub open spec fn nodes_of_degree(h: HypergraphRust, want: Option<nat>, d: nat) -> Set<usize> {
    h.nodes().filter(|n: usize| degree_of(h, n, want) == d)
}

/// For each degree that some live node has, how many live nodes have it,
/// counting only edges of the order or size asked for. Asking for both an
/// order and a size is an error.
pub fn degree_distribution_rust(hypergraph: &HypergraphRust, order: Option<usize>, size: Option<usize>) -> (r: Result<Option<HashMap<u64, i32>>, String>)
    requires
        hypergraph.wf(),
        hypergraph.nodes().len() <= i32::MAX,
    ensures
        r is Err <==> order is Some && size is Some,
        r is Ok ==> r->Ok_0 is Some,
        r matches Ok(Some(m)) ==> forall|d: u64| #[trigger] m@.contains_key(d) == (nodes_of_degree(*hypergraph, wanted_size(order, size), d as nat).len() > 0)
            && (m@.contains_key(d) ==> m@[d] == nodes_of_degree(*hypergraph, wanted_size(order, size), d as nat).len()),
{
    if order.is_some() && size.is_some() {
        return Err(String::from_str("Order and size cannot be both specified."));
    }
    let ghost w = wanted_size(order, size);
    let nodes = hypergraph.get_nodes_without_metadata();
    proof {
        nodes@.unique_seq_to_set();
    }
    let mut dist: HashMap<u64, i32> = HashMap::new();
    let mut i: usize = 0;
    while i < nodes.len()
        invariant
            hypergraph.wf(),
            !(order is Some && size is Some),
            w == wanted_size(order, size),
            i <= nodes@.len(),
            nodes@.len() <= i32::MAX,
            forall|d: u64| #[trigger] dist@.contains_key(d) == (nodes@.subrange(0, i as int).filter(deg_pred(*hypergraph, w, d as nat)).len() > 0),
            forall|d: u64| #[trigger] dist@.contains_key(d) ==> dist@[d] == nodes@.subrange(0, i as int).filter(deg_pred(*hypergraph, w, d as nat)).len(),
        decreases nodes@.len() - i,
    {
        let d = match degree_rust(hypergraph, nodes[i], order, size) {
            Ok(d) => d,
            Err(e) => return Err(e),
        };
        let ghost pre = nodes@.subrange(0, i as int);
        proof {
            pre.lemma_filter_len(deg_pred(*hypergraph, w, d as nat));
        }
        let c: i32 = match dist.get(&d) {
            Some(c) => *c,
            None => 0,
        };
        dist.insert(d, c + 1);
        proof {
            let x = nodes@[i as int];
            assert(nodes@.subrange(0, i + 1) =~= pre.push(x));
            assert forall|e: u64| #[trigger] nodes@.subrange(0, i + 1).filter(deg_pred(*hypergraph, w, e as nat))
                == if e == d { pre.filter(deg_pred(*hypergraph, w, e as nat)).push(x) } else { pre.filter(deg_pred(*hypergraph, w, e as nat)) } by {
                pre.lemma_filter_push(x, deg_pred(*hypergraph, w, e as nat));
            }
        }
        i = i + 1;
    }
    proof {
        assert(nodes@.subrange(0, i as int) =~= nodes@);
        assert forall|d: u64| #[trigger] dist@.contains_key(d) == (nodes_of_degree(*hypergraph, w, d as nat).len() > 0)
            && (dist@.contains_key(d) ==> dist@[d] == nodes_of_degree(*hypergraph, w, d as nat).len()) by {
            let p = deg_pred(*hypergraph, w, d as nat);
            crate::hypergraph::lemma_filter_set(nodes@, p);
            nodes@.filter(p).unique_seq_to_set();
            assert(nodes_of_degree(*hypergraph, w, d as nat) =~= nodes@.to_set().filter(p));
        }
    }
    Ok(Some(dist))
}

/// The degree sequence of each edge size from 2 to the largest size, in
/// that order: entry `k` counts, for every live node, the edges of size `k + 2`.
pub fn degree_sequences_by_size(hypergraph: &HypergraphRust) -> (r: Vec<HashMap<usize, u64>>)
    requires
        hypergraph.wf(),
    ensures
        forall|s: Seq<usize>| #[trigger] hypergraph.edges().contains(s) ==> s.len() <= r@.len() + 1,
        r@.len() == 0 || exists|s: Seq<usize>| #[trigger] hypergraph.edges().contains(s) && s.len() == r@.len() + 1,
        forall|k: int| 0 <= k < r@.len() ==> (#[trigger] r@[k])@.dom() == hypergraph.nodes(),
        forall|k: int, n: usize| 0 <= k < r@.len() && #[trigger] r@[k]@.contains_key(n)
            ==> r@[k]@[n] == degree_of(*hypergraph, n, Some((k + 2) as nat)),
{
    let max_size = hypergraph.max_size();
    let count = max_size - 1;
    let mut seqs: Vec<HashMap<usize, u64>> = Vec::new();
    let mut k: usize = 0;
    while k < count
        invariant
            hypergraph.wf(),
            count + 1 == max_size,
            k <= count,
            seqs@.len() == k,
            forall|k: int| 0 <= k < seqs@.len() ==> (#[trigger] seqs@[k])@.dom() == hypergraph.nodes(),
            forall|k: int, n: usize| 0 <= k < seqs@.len() && #[trigger] seqs@[k]@.contains_key(n)
                ==> seqs@[k]@[n] == degree_of(*hypergraph, n, Some((k + 2) as nat)),
        decreases count - k,
    {
        match degree_sequence_rust(hypergraph, None, Some(k + 2)) {
            Ok(Some(m)) => {
                seqs.push(m);
            },
            _ => {
                proof {
                    assert(false);
                }
            },
        }
        k = k + 1;
    }
    seqs
}

} // verus!
