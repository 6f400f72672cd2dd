//! Dense re-indexing of node identifiers: the sorted nodes get 0, 1, 2, ...

use std::collections::HashMap;
use vstd::prelude::*;
use crate::edge::{canonical, sorted_edge};

verus! {

broadcast use vstd::std_specs::hash::group_hash_axioms;

/// `m` after each `s[i]`, for `i` below `k` in increasing order, is mapped to `i`.
pub open spec fn indexed(m: Map<usize, usize>, s: Seq<usize>, k: int) -> Map<usize, usize>
    decreases k,
{
    if k <= 0 {
        m
    } else {
        indexed(m, s, k - 1).insert(s[k - 1], (k - 1) as usize)
    }
}

/// A mapping from node identifiers to dense indices.
#[derive(Clone, Debug)]
pub struct LabelEncoder {
    mapping: HashMap<usize, usize>,
    /// Every node that has an index, each once.
    labels: Vec<usize>,
}

impl LabelEncoder {
    /// The index of each node that has one.
    pub closed spec fn mapping_view(&self) -> Map<usize, usize> {
        self.mapping@
    }

    /// The nodes listed are exactly those with an index, each once.
    pub closed spec fn wf(&self) -> bool {
        &&& self.labels@.to_set() == self.mapping@.dom()
        &&& self.labels@.no_duplicates()
    }

    /// An encoder with no nodes.
    pub fn new() -> (r: LabelEncoder)
        ensures
            r.wf(),
            r.mapping_view() == Map::<usize, usize>::empty(),
    {
        let r = LabelEncoder { mapping: HashMap::new(), labels: Vec::new() };
        assert(r.labels@.to_set() =~= Set::<usize>::empty());
        r
    }

    /// Gives the nodes of `nodes`, sorted, the indices 0, 1, 2, ... in order
    /// (a repeated node keeps the last of its indices).
    pub fn fit(&mut self, nodes: Vec<usize>)
        requires
            old(self).wf(),
        ensures
            final(self).wf(),
            final(self).mapping_view() == indexed(old(self).mapping_view(), canonical(nodes@), nodes@.len() as int),
    {
        let sorted = sorted_edge(&nodes);
        let mut i: usize = 0;
        while i < sorted.len()
            invariant
                self.wf(),
                i <= sorted@.len(),
                sorted@ == canonical(nodes@),
                sorted@.len() == nodes@.len(),
                self.mapping@ == indexed(old(self).mapping@, sorted@, i as int),
            decreases sorted@.len() - i,
        {
            let n = sorted[i];
            if !self.mapping.contains_key(&n) {
                let ghost l0 = self.labels@;
                proof {
                    if l0.contains(n) {
                        assert(l0.to_set().contains(n));
                    }
                }
                self.labels.push(n);
                proof {
                    l0.lemma_push_to_set_commute(n);
                }
            }
            self.mapping.insert(n, i);
            proof {
                assert(self.labels@.to_set() =~= self.mapping@.dom());
            }
            i = i + 1;
        }
    }

    /// The index of `node`, if it has one.
    pub fn transform(&self, node: usize) -> (r: Option<usize>)
        ensures
            r == if self.mapping_view().contains_key(node) {
                Some(self.mapping_view()[node])
            } else {
                None::<usize>
            },
    {
        match self.mapping.get(&node) {
            Some(i) => Some(*i),
            None => None,
        }
    }

    /// A node whose index is `index`, if there is one.
    pub fn inverse_transform(&self, index: usize) -> (r: Option<usize>)
        requires
            self.wf(),
        ensures
            match r {
                Some(n) => self.mapping_view().contains_key(n) && self.mapping_view()[n] == index,
                None => forall|n: usize| #[trigger] self.mapping_view().contains_key(n) ==> self.mapping_view()[n] != index,
            },
    {
        let mut k: usize = 0;
        while k < self.labels.len()
            invariant
                self.wf(),
                k <= self.labels@.len(),
                forall|j: int| 0 <= j < k ==> self.mapping@[#[trigger] self.labels@[j]] != index,
            decreases self.labels@.len() - k,
        {
            let n = self.labels[k];
            proof {
                assert(self.labels@.to_set().contains(n));
            }
            match self.mapping.get(&n) {
                Some(i) => {
                    if *i == index {
                        return Some(n);
                    }
                },
                None => {},
            }
            k = k + 1;
        }
        proof {
            assert forall|n: usize| #[trigger] self.mapping_view().contains_key(n) implies self.mapping_view()[n] != index by {
                assert(self.labels@.to_set().contains(n));
                let j = self.labels@.index_of(n);
            }
        }
        None
    }

    /// A copy of the whole mapping.
    pub fn get_mapping(&self) -> (r: HashMap<usize, usize>)
        ensures
            r@ == self.mapping_view(),
    {
        self.mapping.clone()
    }
}

} // verus!
