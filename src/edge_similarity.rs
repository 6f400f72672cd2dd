//! Overlap of node sets: intersection size and the Jaccard ratio.

use std::collections::HashSet;
use vstd::prelude::*;
use vstd::std_specs::iter::IteratorSpec;

verus! {

broadcast use vstd::std_specs::hash::group_hash_axioms;

/// The number of elements common to `a` and `b`.
pub fn intersection_rust(a: &HashSet<usize>, b: &HashSet<usize>) -> (r: usize)
    ensures
        r == a@.intersect(b@).len(),
{
    let n = a.len();
    let mut count: usize = 0;
    let ghost p = |y: usize| b@.contains(y);
    let ghost q = vstd::std_specs::hash::spec_hash_keys_iter(a).remaining().unref();
    for x in it: a.iter()
        invariant
            n == a@.len(),
            q == it.seq().unref(),
            count <= it.index(),
            p == |y: usize| b@.contains(y),
            it.seq().unref().to_set() == a@,
            it.seq().no_duplicates(),
            it.seq().len() == a@.len(),
            count == it.seq().unref().subrange(0, it.index() as int).filter(p).len(),
    {
        proof {
            let q = it.seq().unref();
            let i = it.index() as int;
            assert(*x == q[i]);
            assert(q.subrange(0, i + 1) =~= q.subrange(0, i).push(q[i]));
            q.subrange(0, i).lemma_filter_push(q[i], p);
            q.subrange(0, i).lemma_filter_len(p);
        }
        if b.contains(x) {
            count = count + 1;
        }
    }
    proof {
        crate::hypergraph::lemma_filter_set(q, p);
        assert(q.to_set().filter(p) =~= a@.intersect(b@));
        q.filter(p).unique_seq_to_set();
        assert(q.subrange(0, q.len() as int) =~= q);
    }
    count
}

/// Establishes that the contents of a hash set form a finite set.
fn view_is_finite(a: &HashSet<usize>)
    ensures
        a@.finite(),
{
    let it = a.iter();
    proof {
        let q = vstd::std_specs::hash::spec_hash_keys_iter(a).remaining().unref();
        assert(q.to_set() == a@);
    }
}

/// The number of elements in `a` or `b`.
pub fn union_size_rust(a: &HashSet<usize>, b: &HashSet<usize>) -> (r: usize)
    requires
        a@.len() + b@.len() <= usize::MAX,
    ensures
        r == a@.union(b@).len(),
{
    let common = intersection_rust(a, b);
    view_is_finite(a);
    view_is_finite(b);
    proof {
        vstd::set_lib::lemma_set_intersect_union_lens(a@, b@);
    }
    a.len() + b.len() - common
}

/// The Jaccard similarity of `a` and `b` as a ratio: the size of their
/// intersection over the size of their union.
pub fn jaccard_ratio(a: &HashSet<usize>, b: &HashSet<usize>) -> (r: (usize, usize))
    requires
        a@.len() + b@.len() <= usize::MAX,
    ensures
        r.0 == a@.intersect(b@).len(),
        r.1 == a@.union(b@).len(),
        r.0 <= r.1,
{
    let common = intersection_rust(a, b);
    let all = union_size_rust(a, b);
    view_is_finite(a);
    view_is_finite(b);
    proof {
        vstd::set_lib::lemma_len_subset(a@.intersect(b@), a@.union(b@));
    }
    (common, all)
}

} // verus!
