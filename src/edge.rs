//! Canonical (ascending) member lists of edges.

use vstd::prelude::*;
use vstd::relations::{sorted_by, total_ordering};

verus! {

/// The order that canonical member lists follow.
pub open spec fn node_leq() -> spec_fn(usize, usize) -> bool {
    |a: usize, b: usize| a <= b
}

/// Whether a member list is in ascending order.
pub open spec fn is_sorted(s: Seq<usize>) -> bool {
    sorted_by(s, node_leq())
}

/// The canonical form of a member list: its members in ascending order.
pub open spec fn canonical(s: Seq<usize>) -> Seq<usize> {
    s.sort_by(node_leq())
}

pub proof fn lemma_node_leq_total()
    ensures
        total_ordering(node_leq()),
{
}

/// The canonical form is sorted and holds the same members.
pub proof fn lemma_canonical(s: Seq<usize>)
    ensures
        is_sorted(canonical(s)),
        canonical(s).to_multiset() == s.to_multiset(),
        canonical(s).len() == s.len(),
{
    lemma_node_leq_total();
    s.lemma_sort_by_ensures(node_leq());
    broadcast use vstd::seq_lib::group_to_multiset_ensures;

    assert(canonical(s).to_multiset().len() == s.to_multiset().len());
}

/// Two lists with the same members have the same canonical form.
pub proof fn lemma_canonical_of_permutation(s: Seq<usize>, t: Seq<usize>)
    requires
        s.to_multiset() == t.to_multiset(),
    ensures
        canonical(s) == canonical(t),
{
    lemma_node_leq_total();
    s.lemma_sort_by_ensures(node_leq());
    t.lemma_sort_by_ensures(node_leq());
    vstd::seq_lib::lemma_sorted_unique(canonical(s), canonical(t), node_leq());
}

/// A sorted list is its own canonical form.
pub proof fn lemma_canonical_of_sorted(s: Seq<usize>)
    requires
        is_sorted(s),
    ensures
        canonical(s) == s,
{
    lemma_node_leq_total();
    s.lemma_sort_by_ensures(node_leq());
    vstd::seq_lib::lemma_sorted_unique(canonical(s), s, node_leq());
}

/// An edge and its canonical form have the same members.
pub proof fn lemma_canonical_contains(s: Seq<usize>, n: usize)
    ensures
        canonical(s).contains(n) == s.contains(n),
{
    broadcast use vstd::seq_lib::group_to_multiset_ensures;
    lemma_canonical(s);
    assert(canonical(s).to_multiset().count(n) == s.to_multiset().count(n));
}

/// Relies on `slice::sort_unstable`: afterwards the slice holds the same
/// elements, in ascending order.
#[verifier::external_body]
fn sort_unstable_nodes(v: &mut Vec<usize>)
    ensures
        final(v)@.to_multiset() == old(v)@.to_multiset(),
        is_sorted(final(v)@),
{
    v.sort_unstable();
}

/// The canonical form of the member list `edge`.
pub fn sorted_edge(edge: &Vec<usize>) -> (r: Vec<usize>)
    ensures
        r@ == canonical(edge@),
        is_sorted(r@),
        r@.len() == edge@.len(),
{
    let mut r = crate::entity::copy_nodes(edge);
    sort_unstable_nodes(&mut r);
    proof {
        lemma_canonical_of_permutation(r@, edge@);
        lemma_canonical_of_sorted(r@);
        lemma_canonical(edge@);
    }
    r
}

} // verus!
