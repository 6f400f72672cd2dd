//! Laws that relate the store's operations to one another.

use vstd::prelude::*;
use crate::edge::{canonical, lemma_canonical_of_permutation};
use crate::entity::EntityView;
use crate::hypergraph::{add_to_buckets, edge_added, edge_removed, remove_from_buckets, HypergraphRust};

verus! {

/// Whether an edge is live does not depend on the order in which its members
/// are listed: `check_edge` answers the same for any rearrangement.
pub proof fn law_check_edge_order_free(h: HypergraphRust, e: Seq<usize>, f: Seq<usize>)
    requires
        e.to_multiset() == f.to_multiset(),
    ensures
        h.edges().contains(canonical(e)) == h.edges().contains(canonical(f)),
{
    lemma_canonical_of_permutation(e, f);
}

/// Adding the same edge again raises its weight by exactly one in unweighted
/// mode (while the count fits in a `u64`, as `add_edge` requires); in weighted
/// mode the new weight replaces the old one.
pub proof fn law_repeated_insert(
    h0: HypergraphRust,
    h1: HypergraphRust,
    h2: HypergraphRust,
    e: Seq<usize>,
    w1: Option<u64>,
    w2: Option<u64>,
    m1: Map<Seq<char>, Seq<char>>,
    m2: Map<Seq<char>, Seq<char>>,
)
    requires
        edge_added(h0, h1, e, w1, m1),
        edge_added(h1, h2, e, w2, m2),
        !h0.weighted_mode() ==> h1.weights()[canonical(e)] < u64::MAX,
    ensures
        h2.edges().contains(canonical(e)),
        !h0.weighted_mode() ==> h2.weights()[canonical(e)] == h1.weights()[canonical(e)] + 1,
        h0.weighted_mode() ==> h2.weights()[canonical(e)] == w2->Some_0,
{
}

/// The number of live edges of order below `k`, summed order by order.
pub open spec fn order_sum(h: HypergraphRust, k: nat) -> nat
    decreases k,
{
    if k == 0 {
        0
    } else {
        order_sum(h, (k - 1) as nat) + h.matching(Some(k), false).len()
    }
}

/// The number of live edges equals the sum, over every order up to the
/// largest, of the number of live edges of that order.
pub proof fn law_edge_count_by_order(h: HypergraphRust, m: nat)
    requires
        h.wf(),
        forall|s: Seq<usize>| #[trigger] h.edges().contains(s) ==> s.len() <= m,
    ensures
        h.matching(None, false).len() == order_sum(h, m),
{
    h.lemma_wf_facts();
    lemma_order_sum_prefix(h, m);
    assert(h.matching(Some(m), true) =~= h.matching(None, false));
}

proof fn lemma_order_sum_prefix(h: HypergraphRust, k: nat)
    requires
        h.wf(),
    ensures
        h.matching(Some(k), true).len() == order_sum(h, k),
    decreases k,
{
    h.lemma_wf_facts();
    if k == 0 {
        assert(h.matching(Some(0), true) =~= Set::empty());
    } else {
        lemma_order_sum_prefix(h, (k - 1) as nat);
        let below = h.matching(Some((k - 1) as nat), true);
        let at = h.matching(Some(k), false);
        assert(h.matching(Some(k), true) =~= below + at);
        assert(below.disjoint(at));
        vstd::set_lib::lemma_set_disjoint_lens(below, at);
    }
}

/// Removing a live edge and adding it again with the same members gives back
/// the same nodes, the same edges of every order, and the same edges in every
/// node's bucket; only the edge's identity in the registry is new. This holds
/// for a consistent store.
pub proof fn law_remove_then_add(
    h0: HypergraphRust,
    h1: HypergraphRust,
    h2: HypergraphRust,
    e: Seq<usize>,
    w: Option<u64>,
    m: Map<Seq<char>, Seq<char>>,
)
    requires
        h0.wf(),
        h1.wf(),
        h2.wf(),
        h0.consistent(),
        h0.edges().contains(canonical(e)),
        edge_removed(h0, h1, e),
        edge_added(h1, h2, e, w, m),
    ensures
        h2.nodes() == h0.nodes(),
        h2.edges() == h0.edges(),
        forall|o: nat| #[trigger] h2.edges_by_order(o) == h0.edges_by_order(o),
        forall|n: usize| #[trigger] h2.incident(n) == h0.incident(n),
{
    let s = canonical(e);
    h0.lemma_wf_facts();
    h1.lemma_wf_facts();
    h2.lemma_wf_facts();
    let id0 = choose|i: usize| #[trigger] h0.meta().objects().contains_key(i) && h0.meta().objects()[i] == EntityView::Edge(s);
    assert(h0.edge_id(id0, s));
    assert(h1.adjacency() == remove_from_buckets(h0.adjacency(), s, id0));
    assert(h1.meta().objects() == h0.meta().objects().remove(id0));
    assert(!h1.meta().registered(EntityView::Edge(s))) by {
        if h1.meta().registered(EntityView::Edge(s)) {
            let j = choose|j: usize| #[trigger] h1.meta().objects().contains_key(j) && h1.meta().objects()[j] == EntityView::Edge(s);
            assert(h0.meta().objects().contains_key(j));
        }
    }
    let id2 = choose|id: usize| {
        &&& #[trigger] h2.edge_id(id, s)
        &&& h2.adjacency() == add_to_buckets(h1.adjacency(), s, id)
        &&& h1.meta().registered(EntityView::Edge(s)) ==> h1.edge_id(id, s)
        &&& !h1.meta().registered(EntityView::Edge(s)) ==> id == h1.meta().next_id()
            && h2.meta().attrs().contains_key(id) && h2.meta().attrs()[id] == crate::meta_handler::initial_attrs(
                EntityView::Edge(s),
                Some(seq!['e', 'd', 'g', 'e']),
                m,
            )
    };
    assert(id2 == h0.meta().next_id());
    assert(!h0.meta().objects().contains_key(id2));
    assert(h2.edges() =~= h0.edges());
    assert forall|o: nat| #[trigger] h2.edges_by_order(o) == h0.edges_by_order(o) by {
        assert(h2.edges_by_order(o) =~= h0.edges_by_order(o));
    }
    assert forall|n: usize| #[trigger] s.contains(n) implies h0.adjacency().contains_key(n) && h0.adjacency()[n].contains(id0) by {
    }
    assert(h2.nodes() =~= h0.nodes());
    assert forall|n: usize| #[trigger] h2.incident(n) == h0.incident(n) by {
        assert forall|t: Seq<usize>| h2.incident(n).contains(t) == #[trigger] h0.incident(n).contains(t) by {
            if h2.incident(n).contains(t) {
                let id = choose|id: usize| #[trigger] h2.edge_id(id, t) && h2.adjacency()[n].contains(id);
                if id == id2 {
                    assert(t == s);
                    assert(h0.edge_id(id0, t));
                } else {
                    assert(h1.adjacency()[n].contains(id));
                    assert(h1.meta().objects().contains_key(id));
                    assert(h0.meta().objects()[id] == h2.meta().objects()[id]);
                    assert(h0.edge_id(id, t));
                    assert(h0.adjacency()[n].contains(id));
                }
            }
            if h0.incident(n).contains(t) {
                let id = choose|id: usize| #[trigger] h0.edge_id(id, t) && h0.adjacency()[n].contains(id);
                if id == id0 {
                    assert(t == s);
                    assert(h2.adjacency()[n].contains(id2));
                } else {
                    assert(h0.meta().objects()[id]->Edge_0.contains(n));
                    assert(h1.meta().objects().contains_key(id));
                    assert(h1.adjacency()[n].contains(id));
                    assert(h2.meta().objects()[id] == h1.meta().objects()[id]);
                    assert(h2.edge_id(id, t));
                }
            }
        }
        assert(h2.incident(n) =~= h0.incident(n));
    }
}

} // verus!
