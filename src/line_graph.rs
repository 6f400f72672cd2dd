//! The line graph of a hypergraph: one vertex per edge, and a link between
//! two edges that share enough nodes.

use std::collections::HashSet;
use vstd::prelude::*;
use crate::edge_similarity::intersection_rust;

verus! {

broadcast use vstd::std_specs::hash::group_hash_axioms;

/// The nodes of a member list, as a set.
pub fn node_set(v: &Vec<usize>) -> (r: HashSet<usize>)
    ensures
        r@ == v@.to_set(),
{
    let mut r: HashSet<usize> = HashSet::new();
    let mut i: usize = 0;
    while i < v.len()
        invariant
            i <= v@.len(),
            r@ == v@.subrange(0, i as int).to_set(),
        decreases v@.len() - i,
    {
        r.insert(v[i]);
        proof {
            assert(v@.subrange(0, i + 1) =~= v@.subrange(0, i as int).push(v@[i as int]));
            v@.subrange(0, i as int).lemma_push_to_set_commute(v@[i as int]);
        }
        i = i + 1;
    }
    assert(v@.subrange(0, i as int) =~= v@);
    r
}

/// Whether edges `a` and `b` share at least `s` nodes.
pub open spec fn linked_edges(a: Seq<usize>, b: Seq<usize>, s: nat) -> bool {
    a.to_set().intersect(b.to_set()).len() >= s
}

/// The links of the line graph of `edges`: each pair of positions `(i, j)`,
/// `i < j`, whose edges share at least `s` nodes, in increasing order of `i`
/// then `j`.
pub fn line_graph_links(edges: &Vec<Vec<usize>>, s: usize) -> (r: Vec<(usize, usize)>)
    ensures
        r@.no_duplicates(),
        forall|i: usize, j: usize| #[trigger] r@.contains((i, j)) <==> i < j < edges@.len()
            && linked_edges(edges@[i as int]@, edges@[j as int]@, s as nat),
{
    let n = edges.len();
    let mut sets: Vec<HashSet<usize>> = Vec::with_capacity(n);
    let mut i: usize = 0;
    while i < n
        invariant
            n == edges@.len(),
            i <= n,
            sets@.len() == i,
            forall|q: int| 0 <= q < i ==> (#[trigger] sets@[q])@ == edges@[q]@.to_set(),
        decreases n - i,
    {
        sets.push(node_set(&edges[i]));
        i = i + 1;
    }
    let mut links: Vec<(usize, usize)> = Vec::new();
    let mut i: usize = 0;
    while i < n
        invariant
            n == edges@.len(),
            sets@.len() == n,
            forall|q: int| 0 <= q < n ==> (#[trigger] sets@[q])@ == edges@[q]@.to_set(),
            i <= n,
            links@.no_duplicates(),
            forall|a: usize, b: usize| #[trigger] links@.contains((a, b)) <==> a < i && a < b < n
                && linked_edges(edges@[a as int]@, edges@[b as int]@, s as nat),
        decreases n - i,
    {
        let mut j: usize = i + 1;
        while j < n
            invariant
                n == edges@.len(),
                sets@.len() == n,
                forall|q: int| 0 <= q < n ==> (#[trigger] sets@[q])@ == edges@[q]@.to_set(),
                i < n,
                i + 1 <= j <= n,
                links@.no_duplicates(),
                forall|a: usize, b: usize| #[trigger] links@.contains((a, b)) <==> (a < i && a < b < n
                    && linked_edges(edges@[a as int]@, edges@[b as int]@, s as nat)) || (a == i && i < b < j
                    && linked_edges(edges@[a as int]@, edges@[b as int]@, s as nat)),
            decreases n - j,
        {
            let common = intersection_rust(&sets[i], &sets[j]);
            if common >= s {
                let ghost l0 = links@;
                proof {
                    if l0.contains((i, j)) {
                    }
                }
                links.push((i, j));
                proof {
                    assert forall|a: usize, b: usize| #[trigger] links@.contains((a, b)) <==> (a < i && a < b < n
                        && linked_edges(edges@[a as int]@, edges@[b as int]@, s as nat)) || (a == i && i < b < j + 1
                        && linked_edges(edges@[a as int]@, edges@[b as int]@, s as nat)) by {
                        if links@.contains((a, b)) && (a, b) != (i, j) {
                            let q = links@.index_of((a, b));
                            assert(l0[q] == (a, b));
                        }
                        if l0.contains((a, b)) {
                            let q = l0.index_of((a, b));
                            assert(links@[q] == (a, b));
                        }
                        if (a, b) == (i, j) {
                            assert(links@[links@.len() - 1] == (a, b));
                        }
                    }
                }
            }
            j = j + 1;
        }
        i = i + 1;
    }
    links
}

} // verus!
