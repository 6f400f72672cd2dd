//! The integer side of the eigenvector centralities: the precondition on the
//! store, and the clique expansion that power iteration runs on.

use vstd::prelude::*;
use crate::hypergraph::{views, HypergraphRust};

verus! {

/// What the pair at positions `p` and `q` of edge `e` adds to cell `(x, y)`:
/// one for `(e[p], e[q])` and one for `(e[q], e[p])`.
pub open spec fn hit(e: Seq<usize>, p: int, q: int, x: usize, y: usize) -> nat {
    (if e[p] == x && e[q] == y { 1nat } else { 0nat }) + (if e[q] == x && e[p] == y { 1nat } else { 0nat })
}

/// What the pairs `(p, q)`, `p < q < q_end`, of edge `e` add to cell `(x, y)`.
pub open spec fn row_sum(e: Seq<usize>, p: int, q_end: int, x: usize, y: usize) -> nat
    decreases q_end - p,
{
    if q_end <= p + 1 {
        0
    } else {
        row_sum(e, p, q_end - 1, x, y) + hit(e, p, q_end - 1, x, y)
    }
}

/// What the pairs of edge `e` whose first position is below `p_end` add to cell `(x, y)`.
pub open spec fn edge_sum(e: Seq<usize>, p_end: int, x: usize, y: usize) -> nat
    decreases p_end,
{
    if p_end <= 0 {
        0
    } else {
        edge_sum(e, p_end - 1, x, y) + row_sum(e, p_end - 1, e.len() as int, x, y)
    }
}

/// The clique-expansion weight of nodes `x` and `y` over the first `k`
/// edges: how often they occur together in an edge, counted both ways.
pub open spec fn clique_weight(es: Seq<Seq<usize>>, k: int, x: usize, y: usize) -> nat
    decreases k,
{
    if k <= 0 {
        0
    } else {
        clique_weight(es, k - 1, x, y) + edge_sum(es[k - 1], es[k - 1].len() as int, x, y)
    }
}

proof fn lemma_row_mono(e: Seq<usize>, p: int, a: int, b: int, x: usize, y: usize)
    requires
        a <= b,
    ensures
        row_sum(e, p, a, x, y) <= row_sum(e, p, b, x, y),
    decreases b - a,
{
    if a < b {
        lemma_row_mono(e, p, a, b - 1, x, y);
    }
}

proof fn lemma_edge_mono(e: Seq<usize>, a: int, b: int, x: usize, y: usize)
    requires
        a <= b,
    ensures
        edge_sum(e, a, x, y) <= edge_sum(e, b, x, y),
    decreases b - a,
{
    if a < b {
        lemma_edge_mono(e, a, b - 1, x, y);
    }
}

proof fn lemma_weight_mono(es: Seq<Seq<usize>>, a: int, b: int, x: usize, y: usize)
    requires
        a <= b,
    ensures
        clique_weight(es, a, x, y) <= clique_weight(es, b, x, y),
    decreases b - a,
{
    if a < b {
        lemma_weight_mono(es, a, b - 1, x, y);
    }
}

/// Position of `x` in `nodes`.
fn position(nodes: &Vec<usize>, x: usize) -> (r: Option<usize>)
    ensures
        match r {
            Some(i) => i < nodes@.len() && nodes@[i as int] == x,
            None => !nodes@.contains(x),
        },
{
    let mut i: usize = 0;
    while i < nodes.len()
        invariant
            i <= nodes@.len(),
            forall|j: int| 0 <= j < i ==> nodes@[j] != x,
        decreases nodes@.len() - i,
    {
        if nodes[i] == x {
            return Some(i);
        }
        i = i + 1;
    }
    None
}

/// Whether every cell's count fits in a `u64`.
pub open spec fn clique_fits(es: Seq<Seq<usize>>, nodes: Seq<usize>) -> bool {
    forall|a: int, b: int| 0 <= a < nodes.len() && 0 <= b < nodes.len() ==> #[trigger] clique_weight(es, es.len() as int, nodes[a], nodes[b]) <= u64::MAX
}

/// The clique-expansion matrix of `edges` over `nodes`: cell `(a, b)` counts
/// how often `nodes[a]` and `nodes[b]` occur together in an edge, both ways.
/// None when some count does not fit in a `u64`.
pub fn clique_matrix(nodes: &Vec<usize>, edges: &Vec<Vec<usize>>) -> (r: Option<Vec<Vec<u64>>>)
    requires
        nodes@.no_duplicates(),
    ensures
        r is None <==> !clique_fits(views(edges@), nodes@),
        r matches Some(m) ==> {
            &&& m@.len() == nodes@.len()
            &&& forall|a: int| 0 <= a < nodes@.len() ==> (#[trigger] m@[a])@.len() == nodes@.len()
            &&& forall|a: int, b: int| 0 <= a < nodes@.len() && 0 <= b < nodes@.len() ==> #[trigger] m@[a]@[b]
                == clique_weight(views(edges@), edges@.len() as int, nodes@[a], nodes@[b])
        },
{
    let n = nodes.len();
    let ghost es = views(edges@);
    let mut w: Vec<Vec<u64>> = Vec::with_capacity(n);
    let mut i: usize = 0;
    while i < n
        invariant
            n == nodes@.len(),
            i <= n,
            w@.len() == i,
            forall|a: int| 0 <= a < i ==> (#[trigger] w@[a])@.len() == n && forall|b: int| 0 <= b < n ==> w@[a]@[b] == 0,
        decreases n - i,
    {
        let mut row: Vec<u64> = Vec::with_capacity(n);
        let mut j: usize = 0;
        while j < n
            invariant
                j <= n,
                row@.len() == j,
                forall|b: int| 0 <= b < j ==> row@[b] == 0,
            decreases n - j,
        {
            row.push(0);
            j = j + 1;
        }
        w.push(row);
        i = i + 1;
    }
    let mut k: usize = 0;
    while k < edges.len()
        invariant
            n == nodes@.len(),
            es == views(edges@),
            nodes@.no_duplicates(),
            k <= edges@.len(),
            w@.len() == n,
            forall|a: int| 0 <= a < n ==> (#[trigger] w@[a])@.len() == n,
            forall|a: int, b: int| 0 <= a < n && 0 <= b < n ==> #[trigger] w@[a]@[b] == clique_weight(es, k as int, nodes@[a], nodes@[b]),
        decreases edges@.len() - k,
    {
        let ghost e = es[k as int];
        let len = edges[k].len();
        let mut p: usize = 0;
        while p < len
            invariant
                n == nodes@.len(),
                es == views(edges@),
                e == es[k as int],
                len == e.len(),
                nodes@.no_duplicates(),
                k < edges@.len(),
                p <= len,
                w@.len() == n,
                forall|a: int| 0 <= a < n ==> (#[trigger] w@[a])@.len() == n,
                forall|a: int, b: int| 0 <= a < n && 0 <= b < n ==> #[trigger] w@[a]@[b] == clique_weight(es, k as int, nodes@[a], nodes@[b])
                    + edge_sum(e, p as int, nodes@[a], nodes@[b]),
            decreases len - p,
        {
            let mut q: usize = p + 1;
            while q < len
                invariant
                    n == nodes@.len(),
                    es == views(edges@),
                    e == es[k as int],
                    len == e.len(),
                    nodes@.no_duplicates(),
                        k < edges@.len(),
                    p < len,
                    p + 1 <= q <= len,
                    w@.len() == n,
                    forall|a: int| 0 <= a < n ==> (#[trigger] w@[a])@.len() == n,
                    forall|a: int, b: int| 0 <= a < n && 0 <= b < n ==> #[trigger] w@[a]@[b] == clique_weight(es, k as int, nodes@[a], nodes@[b])
                        + edge_sum(e, p as int, nodes@[a], nodes@[b]) + row_sum(e, p as int, q as int, nodes@[a], nodes@[b]),
                decreases len - q,
            {
                let u = edges[k][p];
                let v = edges[k][q];
                let ghost before = w@;
                match (position(nodes, u), position(nodes, v)) {
                    (Some(a), Some(b)) => {
                        proof {
                            assert forall|x: int, y: int| 0 <= x < n && 0 <= y < n implies #[trigger] before[x]@[y] + hit(e, p as int, q as int, nodes@[x], nodes@[y])
                                <= clique_weight(es, es.len() as int, nodes@[x], nodes@[y]) by {
                                lemma_row_mono(e, p as int, q + 1, len as int, nodes@[x], nodes@[y]);
                                lemma_edge_mono(e, p + 1, len as int, nodes@[x], nodes@[y]);
                                lemma_weight_mono(es, k + 1, es.len() as int, nodes@[x], nodes@[y]);
                            }
                            assert(before[a as int]@[b as int] + hit(e, p as int, q as int, nodes@[a as int], nodes@[b as int])
                                <= clique_weight(es, es.len() as int, nodes@[a as int], nodes@[b as int]));
                            assert(before[b as int]@[a as int] + hit(e, p as int, q as int, nodes@[b as int], nodes@[a as int])
                                <= clique_weight(es, es.len() as int, nodes@[b as int], nodes@[a as int]));
                        }
                        let room = if a != b {
                            w[a][b] < u64::MAX && w[b][a] < u64::MAX
                        } else {
                            w[a][a] < u64::MAX - 1
                        };
                        if !room {
                            proof {
                                if a != b {
                                    if before[a as int]@[b as int] == u64::MAX {
                                        assert(hit(e, p as int, q as int, nodes@[a as int], nodes@[b as int]) >= 1);
                                        assert(clique_weight(es, es.len() as int, nodes@[a as int], nodes@[b as int]) > u64::MAX);
                                    } else {
                                        assert(hit(e, p as int, q as int, nodes@[b as int], nodes@[a as int]) >= 1);
                                        assert(clique_weight(es, es.len() as int, nodes@[b as int], nodes@[a as int]) > u64::MAX);
                                    }
                                } else {
                                    assert(hit(e, p as int, q as int, nodes@[a as int], nodes@[a as int]) == 2);
                                    assert(clique_weight(es, es.len() as int, nodes@[a as int], nodes@[a as int]) > u64::MAX);
                                }
                            }
                            return None;
                        }
                        let mut row: Vec<u64> = Vec::new();
                        std::mem::swap(&mut row, &mut w[a]);
                        let c = row[b];
                        row.set(b, c + 1);
                        std::mem::swap(&mut row, &mut w[a]);
                        if a != b {
                            let mut row2: Vec<u64> = Vec::new();
                            std::mem::swap(&mut row2, &mut w[b]);
                            let c2 = row2[a];
                            row2.set(a, c2 + 1);
                            std::mem::swap(&mut row2, &mut w[b]);
                        } else {
                            let mut row2: Vec<u64> = Vec::new();
                            std::mem::swap(&mut row2, &mut w[a]);
                            let c2 = row2[a];
                            row2.set(a, c2 + 1);
                            std::mem::swap(&mut row2, &mut w[a]);
                        }
                        proof {
                            assert forall|x: int, y: int| 0 <= x < n && 0 <= y < n implies #[trigger] w@[x]@[y] == before[x]@[y] + hit(e, p as int, q as int, nodes@[x], nodes@[y]) by {
                                if nodes@[x] == u && x != a as int {
                                    assert(nodes@[a as int] == u);
                                }
                                if nodes@[y] == v && y != b as int {
                                    assert(nodes@[b as int] == v);
                                }
                                if nodes@[x] == v && x != b as int {
                                    assert(nodes@[b as int] == v);
                                }
                                if nodes@[y] == u && y != a as int {
                                    assert(nodes@[a as int] == u);
                                }
                            }
                        }
                    },
                    _ => {
                        proof {
                            assert forall|x: int, y: int| 0 <= x < n && 0 <= y < n implies hit(e, p as int, q as int, nodes@[x], nodes@[y]) == 0 by {
                                assert(nodes@.contains(nodes@[x]));
                                assert(nodes@.contains(nodes@[y]));
                            }
                        }
                    },
                }
                q = q + 1;
            }
            p = p + 1;
        }
        proof {
            assert forall|a: int, b: int| 0 <= a < n && 0 <= b < n implies #[trigger] w@[a]@[b] == clique_weight(es, k + 1, nodes@[a], nodes@[b]) by {
                assert(edge_sum(e, len as int, nodes@[a], nodes@[b]) == edge_sum(e, p as int, nodes@[a], nodes@[b]));
            }
        }
        k = k + 1;
    }
    proof {
        assert forall|a: int, b: int| 0 <= a < n && 0 <= b < n implies #[trigger] clique_weight(es, es.len() as int, nodes@[a], nodes@[b]) <= u64::MAX by {
            assert(w@[a]@[b] == clique_weight(es, k as int, nodes@[a], nodes@[b]));
        }
    }
    Some(w)
}

/// Whether the centralities can run on `h`: it must be uniform and connected.
pub fn check_centrality_input(hypergraph: &HypergraphRust) -> (r: Result<(), String>)
    requires
        hypergraph.wf(),
    ensures
        !hypergraph.uniform() ==> r is Err,
        r is Ok ==> hypergraph.uniform() && (hypergraph.nodes() == Set::<usize>::empty() || exists|start: usize| #[trigger] hypergraph.nodes().contains(start)
            && Set::new(|b: usize| hypergraph.reachable(start, b)) == hypergraph.nodes()),
        hypergraph.uniform() && r is Err ==> exists|start: usize| #[trigger] hypergraph.nodes().contains(start)
            && Set::new(|b: usize| hypergraph.reachable(start, b)) != hypergraph.nodes(),
{
    if !hypergraph.is_uniform() {
        return Err(String::from_str("The hypergraph is not uniform."));
    }
    let connected = hypergraph.is_connected_rust();
    if !connected {
        return Err(String::from_str("The hypergraph is not connected."));
    }
    Ok(())
}

/// The clique expansion of a uniform, connected store: its live nodes in
/// ascending order, and the matrix whose cell `(a, b)` counts how often the
/// `a`-th and `b`-th nodes occur together in an edge. Fails as
/// [`check_centrality_input`] does, or when a count does not fit in a `u64`.
pub fn clique_expansion(hypergraph: &HypergraphRust) -> (r: Result<(Vec<usize>, Vec<Vec<u64>>), String>)
    requires
        hypergraph.wf(),
    ensures
        !hypergraph.uniform() ==> r is Err,
        hypergraph.uniform() && r is Err ==> (exists|start: usize| #[trigger] hypergraph.nodes().contains(start)
            && Set::new(|b: usize| hypergraph.reachable(start, b)) != hypergraph.nodes())
            || exists|x: usize, y: usize| hypergraph.nodes().contains(x) && hypergraph.nodes().contains(y)
                && #[trigger] clique_weight(hypergraph.matching_seq(None, false), hypergraph.matching_seq(None, false).len() as int, x, y) > u64::MAX,
        r matches Ok((nodes, w)) ==> {
            &&& crate::edge::is_sorted(nodes@)
            &&& nodes@.no_duplicates()
            &&& nodes@.to_set() == hypergraph.nodes()
            &&& w@.len() == nodes@.len()
            &&& forall|a: int| 0 <= a < nodes@.len() ==> (#[trigger] w@[a])@.len() == nodes@.len()
            &&& forall|a: int, b: int| 0 <= a < nodes@.len() && 0 <= b < nodes@.len() ==> #[trigger] w@[a]@[b]
                == clique_weight(hypergraph.matching_seq(None, false), hypergraph.matching_seq(None, false).len() as int, nodes@[a], nodes@[b])
        },
{
    match check_centrality_input(hypergraph) {
        Ok(()) => {},
        Err(e) => return Err(e),
    }
    let listed = hypergraph.get_nodes_without_metadata();
    let nodes = crate::edge::sorted_edge(&listed);
    proof {
        broadcast use vstd::seq_lib::group_to_multiset_ensures;
        crate::edge::lemma_canonical(listed@);
        listed@.lemma_multiset_has_no_duplicates();
        assert forall|x: usize| nodes@.contains(x) == listed@.contains(x) by {
            assert(nodes@.to_multiset().count(x) == listed@.to_multiset().count(x));
        }
        nodes@.lemma_multiset_has_no_duplicates_conv();
        assert(nodes@.to_set() =~= listed@.to_set());
    }
    let edges = match hypergraph.get_edges(None, None, false) {
        Ok(edges) => edges,
        Err(e) => return Err(e),
    };
    match clique_matrix(&nodes, &edges) {
        Some(w) => Ok((nodes, w)),
        None => {
            proof {
                let (a, b) = choose|a: int, b: int| 0 <= a < nodes@.len() && 0 <= b < nodes@.len()
                    && !(clique_weight(views(edges@), views(edges@).len() as int, nodes@[a], nodes@[b]) <= u64::MAX);
                assert(nodes@.to_set().contains(nodes@[a]));
                assert(nodes@.to_set().contains(nodes@[b]));
                assert(clique_weight(hypergraph.matching_seq(None, false), hypergraph.matching_seq(None, false).len() as int, nodes@[a], nodes@[b]) > u64::MAX);
            }
            Err(String::from_str("A co-occurrence count does not fit in 64 bits."))
        },
    }
}

/// The members of `e` that occur in `nodes`, each replaced by its position there.
pub open spec fn positions(nodes: Seq<usize>, e: Seq<usize>) -> Seq<usize> {
    e.filter(|x: usize| nodes.contains(x)).map_values(|x: usize| nodes.index_of(x) as usize)
}

/// Each edge with every member that occurs in `nodes` replaced by its
/// position there (members that do not occur are left out).
pub fn edges_by_position(nodes: &Vec<usize>, edges: &Vec<Vec<usize>>) -> (r: Vec<Vec<usize>>)
    requires
        nodes@.no_duplicates(),
    ensures
        r@.len() == edges@.len(),
        forall|k: int| 0 <= k < edges@.len() ==> (#[trigger] r@[k])@ == positions(nodes@, edges@[k]@),
{
    let mut r: Vec<Vec<usize>> = Vec::with_capacity(edges.len());
    let mut k: usize = 0;
    while k < edges.len()
        invariant
            nodes@.no_duplicates(),
            k <= edges@.len(),
            r@.len() == k,
            forall|q: int| 0 <= q < k ==> (#[trigger] r@[q])@ == positions(nodes@, edges@[q]@),
        decreases edges@.len() - k,
    {
        let ghost e = edges@[k as int]@;
        let ghost p = |x: usize| nodes@.contains(x);
        let mut row: Vec<usize> = Vec::new();
        let mut t: usize = 0;
        while t < edges[k].len()
            invariant
                e == edges@[k as int]@,
                k < edges@.len(),
                nodes@.no_duplicates(),
                p == |x: usize| nodes@.contains(x),
                t <= e.len(),
                row@ == positions(nodes@, e.subrange(0, t as int)),
            decreases e.len() - t,
        {
            let x = edges[k][t];
            let ghost f = |y: usize| nodes@.index_of(y) as usize;
            let ghost pre = e.subrange(0, t as int);
            proof {
                assert(e.subrange(0, t + 1) =~= pre.push(x));
                pre.lemma_filter_push(x, p);
            }
            match position(nodes, x) {
                Some(i) => {
                    proof {
                        assert(nodes@.contains(x));
                        crate::hypergraph::lemma_index_of_unique(nodes@, i as int, x);
                    }
                    row.push(i);
                    assert(row@ =~= positions(nodes@, e.subrange(0, t + 1)));
                },
                None => {
                    assert(row@ =~= positions(nodes@, e.subrange(0, t + 1)));
                },
            }
            t = t + 1;
        }
        assert(e.subrange(0, e.len() as int) =~= e);
        r.push(row);
        k = k + 1;
    }
    r
}

} // verus!
