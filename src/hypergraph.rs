//! The hypergraph store: nodes, edges with weights, adjacency buckets, and the
//! registry that gives every node and edge an identity and attributes.

use std::collections::{HashMap, HashSet};
use vstd::prelude::*;
use crate::attributes::Attributes;
use crate::edge::{canonical, is_sorted, sorted_edge};
use crate::entity::{Entity, EntityView};
use crate::meta_handler::MetaHandler;

verus! {

/// If `x` occurs once in `s`, at `i`, then `i` is its index.
pub proof fn lemma_index_of_unique<A>(s: Seq<A>, i: int, x: A)
    requires
        s.no_duplicates(),
        0 <= i < s.len(),
        s[i] == x,
    ensures
        s.index_of(x) == i,
{
    assert(s.contains(x));
}

/// The attributes that a node is registered with: its kind and its name.
pub open spec fn node_attrs(node: usize) -> Map<Seq<char>, Seq<char>> {
    Map::empty().insert(seq!['t', 'y', 'p', 'e'], seq!['n', 'o', 'd', 'e']).insert(
        seq!['n', 'a', 'm', 'e'],
        crate::entity::decimal(node as nat),
    )
}

/// A registry that only gained objects keeps every identity it had.
pub proof fn lemma_registry_grows(a: MetaHandler, b: MetaHandler)
    requires
        a.wf(),
        forall|i: usize| #[trigger] a.objects().contains_key(i) ==> b.objects().contains_key(i) && b.objects()[i] == a.objects()[i],
    ensures
        forall|e: EntityView| a.registered(e) ==> #[trigger] b.registered(e),
        forall|i: usize, e: EntityView| #[trigger] a.is_id_of(i, e) ==> b.is_id_of(i, e),
{
    assert forall|e: EntityView| a.registered(e) implies #[trigger] b.registered(e) by {
        let i = choose|i: usize| #[trigger] a.objects().contains_key(i) && a.objects()[i] == e;
        assert(b.objects().contains_key(i));
    }
}

/// The bucket of `n`, or the empty set when `n` has none.
pub open spec fn bucket_or_empty(adj: Map<usize, Set<usize>>, n: usize) -> Set<usize> {
    if adj.contains_key(n) {
        adj[n]
    } else {
        Set::empty()
    }
}

/// The buckets after edge identity `id` is added to the bucket of each member of `s`.
pub open spec fn add_to_buckets(adj: Map<usize, Set<usize>>, s: Seq<usize>, id: usize) -> Map<usize, Set<usize>> {
    Map::new(
        |n: usize| adj.contains_key(n) || s.contains(n),
        |n: usize| if s.contains(n) {
            bucket_or_empty(adj, n).insert(id)
        } else {
            adj[n]
        },
    )
}

/// `b` is registry `a` with, at most, new objects: the edge `s` and members of `s`.
pub open spec fn registry_extends(a: MetaHandler, b: MetaHandler, s: Seq<usize>) -> bool {
    &&& b.next_id() >= a.next_id()
    &&& forall|i: usize| #[trigger] a.objects().contains_key(i) ==> b.objects().contains_key(i)
        && b.objects()[i] == a.objects()[i]
    &&& forall|i: usize| #[trigger] b.objects().contains_key(i) && !a.objects().contains_key(i) ==> i >= a.next_id()
        && (b.objects()[i] == EntityView::Edge(s) || (b.objects()[i] is Node && s.contains(b.objects()[i]->Node_0)))
    &&& forall|i: usize| i < a.next_id() ==> (#[trigger] b.attrs().contains_key(i) == a.attrs().contains_key(i))
        && (a.attrs().contains_key(i) ==> b.attrs()[i] == a.attrs()[i])
}

/// The attributes of registered object `e`, if it has any.
pub open spec fn attrs_of(m: MetaHandler, e: EntityView) -> Option<Map<Seq<char>, Seq<char>>> {
    if m.registered(e) {
        let id = choose|id: usize| #[trigger] m.objects().contains_key(id) && m.objects()[id] == e;
        if m.attrs().contains_key(id) {
            Some(m.attrs()[id])
        } else {
            None
        }
    } else {
        None
    }
}

/// The attributes of `e` through its identity `id`.
pub proof fn lemma_attrs_of_id(m: MetaHandler, e: EntityView, id: usize)
    requires
        m.wf(),
        m.is_id_of(id, e),
    ensures
        attrs_of(m, e) == if m.attrs().contains_key(id) {
            Some(m.attrs()[id])
        } else {
            None::<Map<Seq<char>, Seq<char>>>
        },
{
    assert(m.registered(e));
    let c = choose|c: usize| #[trigger] m.objects().contains_key(c) && m.objects()[c] == e;
    assert(c == id);
}

/// An object registered before an extension keeps its attributes.
pub proof fn lemma_attrs_of_extends(a: MetaHandler, b: MetaHandler, s: Seq<usize>, e: EntityView)
    requires
        a.wf(),
        b.wf(),
        registry_extends(a, b, s),
        a.registered(e),
    ensures
        attrs_of(b, e) == attrs_of(a, e),
{
    let id = choose|id: usize| #[trigger] a.objects().contains_key(id) && a.objects()[id] == e;
    assert(a.objects().contains_key(id));
    assert(b.is_id_of(id, e));
    lemma_attrs_of_id(a, e, id);
    lemma_attrs_of_id(b, e, id);
    assert(b.attrs().contains_key(id) == a.attrs().contains_key(id));
}

/// Replacing the attributes of one identity leaves other objects' attributes alone.
pub proof fn lemma_attrs_of_set(a: MetaHandler, b: MetaHandler, sid: usize, x: Map<Seq<char>, Seq<char>>, e: EntityView)
    requires
        a.wf(),
        b.wf(),
        b.objects() == a.objects(),
        b.attrs() == a.attrs().insert(sid, x),
    ensures
        a.is_id_of(sid, e) ==> attrs_of(b, e) == Some(x),
        !a.is_id_of(sid, e) ==> attrs_of(b, e) == attrs_of(a, e),
{
    if a.registered(e) {
        let id = choose|id: usize| #[trigger] a.objects().contains_key(id) && a.objects()[id] == e;
        assert(b.is_id_of(id, e));
        lemma_attrs_of_id(a, e, id);
        lemma_attrs_of_id(b, e, id);
        if a.is_id_of(sid, e) {
            assert(sid == id);
        }
    } else {
        assert(!b.registered(e)) by {
            if b.registered(e) {
                let id = choose|id: usize| #[trigger] b.objects().contains_key(id) && b.objects()[id] == e;
                assert(a.is_id_of(id, e));
            }
        }
    }
}

/// Registry extension is transitive.
pub proof fn lemma_extends_trans(a: MetaHandler, b: MetaHandler, c: MetaHandler, s: Seq<usize>)
    requires
        registry_extends(a, b, s),
        registry_extends(b, c, s),
    ensures
        registry_extends(a, c, s),
{
    assert forall|i: usize| #[trigger] c.objects().contains_key(i) && !a.objects().contains_key(i) implies i
        >= a.next_id() && (c.objects()[i] == EntityView::Edge(s) || (c.objects()[i] is Node && s.contains(
        c.objects()[i]->Node_0,
    ))) by {
        if b.objects().contains_key(i) {
            assert(c.objects()[i] == b.objects()[i]);
        }
    }
    assert forall|i: usize| i < a.next_id() implies (#[trigger] c.attrs().contains_key(i) == a.attrs().contains_key(i))
        && (a.attrs().contains_key(i) ==> c.attrs()[i] == a.attrs()[i]) by {
        assert(b.attrs().contains_key(i) == a.attrs().contains_key(i));
    }
}

/// Whether `add_edge` refuses its arguments: a weight given against the
/// store's mode, or no members.
pub open spec fn add_edge_refused(weighted: bool, edge: Seq<usize>, weight: Option<u64>) -> bool {
    weighted != (weight is Some) || edge.len() == 0
}

/// The weight that edge `s` has after it is added: the given weight in
/// weighted mode, else one more than its count so far.
pub open spec fn added_weight(weighted: bool, w: Map<Seq<usize>, u64>, s: Seq<usize>, weight: Option<u64>) -> u64 {
    if weighted {
        weight->Some_0
    } else if w.contains_key(s) {
        (w[s] + 1) as u64
    } else {
        1
    }
}

/// The buckets after edge identity `id` leaves the bucket of `node`; a
/// bucket left empty is dropped.
pub open spec fn unlink_bucket(adj: Map<usize, Set<usize>>, node: usize, id: usize) -> Map<usize, Set<usize>> {
    if adj.contains_key(node) {
        if adj[node].remove(id) == Set::<usize>::empty() {
            adj.remove(node)
        } else {
            adj.insert(node, adj[node].remove(id))
        }
    } else {
        adj
    }
}

/// The buckets after edge identity `id` leaves the bucket of each member of
/// `s`; buckets left empty are dropped.
pub open spec fn remove_from_buckets(adj: Map<usize, Set<usize>>, s: Seq<usize>, id: usize) -> Map<usize, Set<usize>> {
    Map::new(
        |n: usize| adj.contains_key(n) && !(s.contains(n) && adj[n].remove(id) == Set::<usize>::empty()),
        |n: usize| if s.contains(n) {
            adj[n].remove(id)
        } else {
            adj[n]
        },
    )
}

/// The members of `v` other than `x`, in order.
fn without(v: &Vec<usize>, x: usize) -> (r: Vec<usize>)
    requires
        v@.no_duplicates(),
    ensures
        r@.to_set() == v@.to_set().remove(x),
        r@.no_duplicates(),
{
    let mut r: Vec<usize> = Vec::new();
    let mut i: usize = 0;
    while i < v.len()
        invariant
            i <= v@.len(),
            r@.to_set() == v@.subrange(0, i as int).to_set().remove(x),
            r@.no_duplicates(),
            v@.no_duplicates(),
        decreases v@.len() - i,
    {
        let ghost r0 = r@;
        if v[i] != x {
            proof {
                if r0.contains(v@[i as int]) {
                    assert(r0.to_set().contains(v@[i as int]));
                    let j = choose|j: int| 0 <= j < i && v@.subrange(0, i as int)[j] == v@[i as int];
                    assert(v@[j] == v@[i as int]);
                }
            }
            r.push(v[i]);
            proof {
                r0.lemma_push_to_set_commute(v@[i as int]);
            }
        }
        proof {
            assert(v@.subrange(0, i + 1) =~= v@.subrange(0, i as int).push(v@[i as int]));
            v@.subrange(0, i as int).lemma_push_to_set_commute(v@[i as int]);
            assert(r@.to_set() =~= v@.subrange(0, i + 1).to_set().remove(x));
        }
        i = i + 1;
    }
    assert(v@.subrange(0, v@.len() as int) =~= v@);
    r
}

/// The member lists of a list of edges.
pub open spec fn views(v: Seq<Vec<usize>>) -> Seq<Seq<usize>> {
    v.map_values(|e: Vec<usize>| e@)
}

/// The edge size that an `order` or a `size` asks for (order plus one), if any.
pub open spec fn wanted_size(order: Option<usize>, size: Option<usize>) -> Option<nat> {
    match order {
        Some(o) => Some((o + 1) as nat),
        None => match size {
            Some(s) => Some(s as nat),
            None => None,
        },
    }
}

/// Whether member list `s` has the size asked for.
pub open spec fn size_ok(want: Option<nat>, s: Seq<usize>) -> bool {
    match want {
        Some(k) => s.len() == k,
        None => true,
    }
}

/// Whether an edge of `len` members is one that `order` / `size` / `up_to` asks for.
fn edge_matches(v: &Vec<usize>, order: Option<usize>, size: Option<usize>, up_to: bool) -> (r: bool)
    requires
        !(order is Some && size is Some),
    ensures
        r == size_pred(wanted_size(order, size), up_to)(v@),
{
    let len = v.len();
    let want: Option<usize> = match order {
        Some(o) => if o < usize::MAX { Some(o + 1) } else { None },
        None => size,
    };
    match want {
        Some(k) => if up_to { len <= k } else { len == k },
        None => order.is_none() || up_to,
    }
}

/// The predicate on member lists that a wanted size and `up_to` stand for.
pub open spec fn size_pred(want: Option<nat>, up_to: bool) -> spec_fn(Seq<usize>) -> bool {
    |s: Seq<usize>| match want {
        Some(k) => if up_to { s.len() <= k } else { s.len() == k },
        None => true,
    }
}

/// The edge sizes that a list of orders (each plus one) or of sizes asks for.
pub open spec fn wanted_sizes(orders: Option<Vec<usize>>, sizes: Option<Vec<usize>>) -> Set<nat> {
    match orders {
        Some(o) => Set::new(|k: nat| exists|q: int| 0 <= q < o@.len() && o@[q] + 1 == k),
        None => match sizes {
            Some(z) => Set::new(|k: nat| exists|q: int| 0 <= q < z@.len() && z@[q] == k),
            None => Set::empty(),
        },
    }
}

/// Filtering by a predicate that holds everywhere keeps the list.
pub proof fn lemma_filter_all<A>(q: Seq<A>, p: spec_fn(A) -> bool)
    requires
        forall|x: A| #[trigger] p(x),
    ensures
        q.filter(p) == q,
    decreases q.len(),
{
    if q.len() > 0 {
        let d = q.drop_last();
        lemma_filter_all(d, p);
        assert(q =~= d.push(q.last()));
        d.lemma_filter_push(q.last(), p);
    } else {
        assert(q.filter(p) =~= q) by {
            reveal(Seq::filter);
        }
    }
}

/// Filtering a list without repeats keeps no repeats, and its set is the
/// filtered set.
pub proof fn lemma_filter_set<A>(q: Seq<A>, p: spec_fn(A) -> bool)
    requires
        q.no_duplicates(),
    ensures
        q.filter(p).no_duplicates(),
        q.filter(p).to_set() == q.to_set().filter(p),
    decreases q.len(),
{
    broadcast use vstd::seq_lib::group_filter_ensures;
    assert forall|x: A| #[trigger] q.filter(p).contains(x) == (q.contains(x) && p(x)) by {
        if q.filter(p).contains(x) {
            q.lemma_filter_contains_rev(p, x);
            let i = choose|i: int| 0 <= i < q.filter(p).len() && q.filter(p)[i] == x;
            q.lemma_filter_pred(p, i);
        }
        if q.contains(x) && p(x) {
            let i = q.index_of(x);
            q.lemma_filter_contains(p, i);
        }
    }
    assert(q.filter(p).to_set() =~= q.to_set().filter(p));
    if q.len() > 0 {
        let d = q.drop_last();
        assert(d.no_duplicates());
        lemma_filter_set(d, p);
        assert(!d.contains(q.last()));
        if d.filter(p).contains(q.last()) {
            d.lemma_filter_contains_rev(p, q.last());
        }
        assert(q =~= d.push(q.last()));
        d.lemma_filter_push(q.last(), p);
    }
}

/// `new` is `old` after the edge with members `edge` was added with `weight`
/// and `metadata`: the edge's weight as [`added_weight`] says, its identity in
/// the bucket of each member, and the registry extended by the edge and its
/// members only.
pub open spec fn edge_added(
    old: HypergraphRust,
    new: HypergraphRust,
    edge: Seq<usize>,
    weight: Option<u64>,
    metadata: Map<Seq<char>, Seq<char>>,
) -> bool {
    let s = canonical(edge);
    &&& new.weighted_mode() == old.weighted_mode()
    &&& new.weights() == old.weights().insert(s, added_weight(old.weighted_mode(), old.weights(), s, weight))
    &&& registry_extends(old.meta(), new.meta(), s)
    &&& new.meta().next_id() <= old.meta().next_id() + edge.len() + 1
    &&& exists|id: usize| {
        &&& #[trigger] new.edge_id(id, s)
        &&& new.adjacency() == add_to_buckets(old.adjacency(), s, id)
        &&& old.meta().registered(EntityView::Edge(s)) ==> old.edge_id(id, s)
        &&& !old.meta().registered(EntityView::Edge(s)) ==> id == old.meta().next_id()
            && new.meta().attrs().contains_key(id) && new.meta().attrs()[id] == crate::meta_handler::initial_attrs(
                EntityView::Edge(s),
                Some(seq!['e', 'd', 'g', 'e']),
                metadata,
            )
    }
}

/// `new` is `old` after the live edge with members `edge` was removed: its
/// weight, its identity from its members' buckets (empty buckets dropped),
/// and its registry entry are gone.
pub open spec fn edge_removed(old: HypergraphRust, new: HypergraphRust, edge: Seq<usize>) -> bool {
    let s = canonical(edge);
    &&& new.weighted_mode() == old.weighted_mode()
    &&& new.weights() == old.weights().remove(s)
    &&& new.meta().next_id() == old.meta().next_id()
    &&& forall|id: usize| #[trigger] old.edge_id(id, s) ==> {
        &&& new.adjacency() == remove_from_buckets(old.adjacency(), s, id)
        &&& new.meta().objects() == old.meta().objects().remove(id)
        &&& new.meta().attrs() == old.meta().attrs().remove(id)
    }
}

/// The edges whose identities are among the first `k` of `ids`.
pub open spec fn edges_of_ids(h: HypergraphRust, ids: Seq<usize>, k: int) -> Set<Seq<usize>> {
    Set::new(|t: Seq<usize>| exists|q: int| 0 <= q < k && h.edge_id(ids[q], t))
}

/// What a batch of edges may cost the registry: for each edge, one
/// identity for the edge and at most two per member.
pub open spec fn batch_cost(es: Seq<Seq<usize>>) -> nat
    decreases es.len(),
{
    if es.len() == 0 {
        0
    } else {
        batch_cost(es.drop_first()) + 2 * es[0].len() + 1
    }
}

/// The cost of a whole batch is at least that of any suffix plus the edge before it.
pub proof fn lemma_batch_cost_grows(es: Seq<Seq<usize>>, k: int)
    requires
        0 <= k < es.len(),
    ensures
        batch_cost(es) >= batch_cost(es.subrange(k, es.len() as int)),
    decreases k,
{
    if k > 0 {
        lemma_batch_cost_grows(es, k - 1);
        let t = es.subrange(k - 1, es.len() as int);
        assert(t.drop_first() =~= es.subrange(k, es.len() as int));
    } else {
        assert(es.subrange(0, es.len() as int) =~= es);
    }
}

pub proof fn lemma_batch_cost_split(es: Seq<Seq<usize>>)
    requires
        es.len() > 0,
    ensures
        batch_cost(es) == batch_cost(es.drop_first()) + 2 * es[0].len() + 1,
{
}

/// The weight given to `s` by the last of the first `k` edges of a batch
/// whose canonical form is `s`.
pub open spec fn last_weight(es: Seq<Seq<usize>>, ws: Seq<u64>, k: int, s: Seq<usize>) -> Option<u64>
    decreases k,
{
    if k <= 0 {
        None
    } else if canonical(es[k - 1]) == s {
        Some(ws[k - 1])
    } else {
        last_weight(es, ws, k - 1, s)
    }
}

/// The given weights, or none.
pub open spec fn weight_list(w: Option<Vec<u64>>) -> Seq<u64> {
    match w {
        Some(v) => v@,
        None => Seq::empty(),
    }
}

/// Whether `a` comes before `b`, or equals it, in lexicographic order.
pub open spec fn lex_le(a: Seq<usize>, b: Seq<usize>) -> bool
    decreases a.len(),
{
    if a.len() == 0 {
        true
    } else if b.len() == 0 {
        false
    } else if a[0] != b[0] {
        a[0] < b[0]
    } else {
        lex_le(a.drop_first(), b.drop_first())
    }
}

/// Relies on `slice::sort_unstable` with `Ord` for `Vec<usize>`, which
/// compares lexicographically: afterwards the list holds the same member
/// lists, in ascending order.
#[verifier::external_body]
fn sort_unstable_edges(v: &mut Vec<Vec<usize>>)
    ensures
        views(final(v)@).to_multiset() == views(old(v)@).to_multiset(),
        forall|i: int, j: int| 0 <= i < j < final(v)@.len() ==> lex_le(#[trigger] final(v)@[i]@, #[trigger] final(v)@[j]@),
{
    v.sort_unstable();
}

/// Two lists with the same elements have the same set, and repeat none
/// together.
pub proof fn lemma_same_multiset<A>(a: Seq<A>, b: Seq<A>)
    requires
        a.to_multiset() == b.to_multiset(),
    ensures
        a.to_set() == b.to_set(),
        a.no_duplicates() ==> b.no_duplicates(),
{
    a.to_multiset_ensures();
    b.to_multiset_ensures();
    assert forall|x: A| a.contains(x) == b.contains(x) by {
        assert(a.to_multiset().count(x) == b.to_multiset().count(x));
        if a.contains(x) {
            assert(a.to_multiset().count(x) > 0);
            assert(b.to_multiset().count(x) > 0);
        }
        if b.contains(x) {
            assert(b.to_multiset().count(x) > 0);
            assert(a.to_multiset().count(x) > 0);
        }
    }
    assert(a.to_set() =~= b.to_set());
    if a.no_duplicates() {
        a.lemma_multiset_has_no_duplicates();
        b.lemma_multiset_has_no_duplicates_conv();
    }
}

/// The member lists that hold at least one of `nodes`.
pub open spec fn holding_any(nodes: Seq<usize>) -> Set<Seq<usize>> {
    Set::new(|s: Seq<usize>| exists|m: usize| nodes.contains(m) && #[trigger] s.contains(m))
}

/// The first components of a list of nodes with their attributes.
pub open spec fn firsts(r: Seq<(usize, Attributes)>) -> Seq<usize> {
    r.map_values(|e: (usize, Attributes)| e.0)
}

/// The given weights, or `n` ones when none are given.
pub open spec fn weights_or_ones(w: Option<Vec<u64>>, n: nat) -> Seq<u64> {
    match w {
        Some(v) => v@,
        None => Seq::new(n, |i: int| 1u64),
    }
}

/// How many of the first `k` edges of a batch have canonical form `s`.
pub open spec fn occurrences(es: Seq<Seq<usize>>, k: int, s: Seq<usize>) -> nat
    decreases k,
{
    if k <= 0 {
        0
    } else {
        occurrences(es, k - 1, s) + if canonical(es[k - 1]) == s { 1nat } else { 0nat }
    }
}

pub proof fn lemma_occurrences_bound(es: Seq<Seq<usize>>, k: int, s: Seq<usize>)
    requires
        k >= 0,
    ensures
        occurrences(es, k, s) <= k,
    decreases k,
{
    if k > 0 {
        lemma_occurrences_bound(es, k - 1, s);
    }
}

/// The nodes that occur in the first `k` edges of a batch.
pub open spec fn members(es: Seq<Seq<usize>>, k: int) -> Set<usize> {
    Set::new(|n: usize| exists|q: int| 0 <= q < k && #[trigger] es[q].contains(n))
}

/// The metadata map of edge `k` of a batch, if one is given.
fn meta_at(metadata: &Option<Vec<Attributes>>, k: usize) -> (r: Option<Attributes>)
    ensures
        match metadata {
            Some(m) => if k < m@.len() {
                r matches Some(a) && a@ == m@[k as int]@
            } else {
                r is None
            },
            None => r is None,
        },
{
    match metadata {
        Some(m) => if k < m.len() {
            Some(m[k].copy())
        } else {
            None
        },
        None => None,
    }
}

/// In a consistent store, the edges in a node's bucket are the live edges that hold it.
pub proof fn lemma_incident_consistent(h: HypergraphRust, n: usize)
    requires
        h.wf(),
        h.consistent(),
    ensures
        h.incident(n) == h.edges().filter(|s: Seq<usize>| s.contains(n)),
{
    h.lemma_wf_facts();
    assert forall|s: Seq<usize>| #[trigger] h.incident(n).contains(s) == h.edges().filter(|s: Seq<usize>| s.contains(n)).contains(s) by {
        if h.incident(n).contains(s) {
            let id = choose|id: usize| #[trigger] h.edge_id(id, s) && h.adjacency()[n].contains(id);
        }
        if h.edges().contains(s) && s.contains(n) {
            let id = choose|id: usize| #[trigger] h.meta().objects().contains_key(id) && h.meta().objects()[id] == EntityView::Edge(s);
            assert(h.edge_id(id, s));
        }
    }
    assert(h.incident(n) =~= h.edges().filter(|s: Seq<usize>| s.contains(n)));
}

/// In a consistent store every member of a live edge is a live node.
pub proof fn lemma_members_live(h: HypergraphRust, s: Seq<usize>, n: usize)
    requires
        h.wf(),
        h.consistent(),
        h.edges().contains(s),
        s.contains(n),
    ensures
        h.nodes().contains(n),
{
    h.lemma_wf_facts();
    let id = choose|id: usize| #[trigger] h.meta().objects().contains_key(id) && h.meta().objects()[id] == EntityView::Edge(s);
    assert(h.edge_id(id, s));
}

/// Removing an edge keeps every other edge in its members' buckets.
pub proof fn lemma_remove_keeps_consistent_except(h0: HypergraphRust, h1: HypergraphRust, e: Seq<usize>, x: usize)
    requires
        h0.wf(),
        h1.wf(),
        h0.edges().contains(canonical(e)),
        h0.consistent_except(x),
        edge_removed(h0, h1, e),
    ensures
        h1.consistent_except(x),
{
    let s = canonical(e);
    h0.lemma_wf_facts();
    let id0 = choose|id: usize| #[trigger] h0.meta().objects().contains_key(id) && h0.meta().objects()[id] == EntityView::Edge(s);
    assert(h0.edge_id(id0, s));
    assert forall|y: usize, t: Seq<usize>, n: usize| #![trigger h1.edge_id(y, t), t.contains(n)]
        h1.edge_id(y, t) && t.contains(n) && n != x implies h1.adjacency().contains_key(n) && h1.adjacency()[n].contains(y) by {
        assert(h0.edge_id(y, t));
        assert(y != id0);
        assert(h0.adjacency()[n].contains(y));
        assert(h0.adjacency()[n].remove(id0).contains(y));
    }
}

/// Adding a node keeps a consistent store consistent.
pub proof fn lemma_add_node_keeps_consistent(h0: HypergraphRust, h1: HypergraphRust, node: usize)
    requires
        h0.wf(),
        h1.wf(),
        h0.consistent(),
        h1.weights() == h0.weights(),
        h1.adjacency() == if h0.nodes().contains(node) {
            h0.adjacency()
        } else {
            h0.adjacency().insert(node, Set::empty())
        },
        registry_extends(h0.meta(), h1.meta(), seq![node]),
    ensures
        h1.consistent(),
{
    h0.lemma_wf_facts();
    h1.lemma_wf_facts();
    assert forall|y: usize, t: Seq<usize>, n: usize| #![trigger h1.edge_id(y, t), t.contains(n)]
        h1.edge_id(y, t) && t.contains(n) implies h1.adjacency().contains_key(n) && h1.adjacency()[n].contains(y) by {
        assert(h1.edges().contains(t));
        assert(h0.edges().contains(t));
        let y0 = choose|y0: usize| #[trigger] h0.meta().objects().contains_key(y0) && h0.meta().objects()[y0] == EntityView::Edge(t);
        assert(h1.meta().objects().contains_key(y0));
        assert(y == y0);
        assert(h0.edge_id(y, t));
    }
}

/// Adding an edge keeps a consistent store consistent, and makes its members live.
pub proof fn lemma_add_keeps_consistent(h0: HypergraphRust, h1: HypergraphRust, e: Seq<usize>, w: Option<u64>, m: Map<Seq<char>, Seq<char>>)
    requires
        h0.wf(),
        h1.wf(),
        h0.consistent(),
        edge_added(h0, h1, e, w, m),
    ensures
        h1.consistent(),
        h1.nodes() == h0.nodes() + canonical(e).to_set(),
{
    let s = canonical(e);
    h0.lemma_wf_facts();
    h1.lemma_wf_facts();
    let id = choose|id: usize| {
        &&& #[trigger] h1.edge_id(id, s)
        &&& h1.adjacency() == add_to_buckets(h0.adjacency(), s, id)
        &&& h0.meta().registered(EntityView::Edge(s)) ==> h0.edge_id(id, s)
        &&& !h0.meta().registered(EntityView::Edge(s)) ==> id == h0.meta().next_id()
            && h1.meta().attrs().contains_key(id) && h1.meta().attrs()[id] == crate::meta_handler::initial_attrs(
                EntityView::Edge(s),
                Some(seq!['e', 'd', 'g', 'e']),
                m,
            )
    };
    assert forall|x: usize, t: Seq<usize>, n: usize| #![trigger h1.edge_id(x, t), t.contains(n)]
        h1.edge_id(x, t) && t.contains(n) implies h1.adjacency().contains_key(n) && h1.adjacency()[n].contains(x) by {
        if t == s {
            assert(x == id);
        } else {
            assert(h0.meta().objects().contains_key(x));
            assert(h0.edge_id(x, t));
        }
    }
    assert(h1.nodes() =~= h0.nodes() + s.to_set());
}

/// A list of `n` ones.
fn ones(n: usize) -> (r: Vec<u64>)
    ensures
        r@.len() == n,
        forall|i: int| 0 <= i < n ==> r@[i] == 1,
{
    let mut r: Vec<u64> = Vec::with_capacity(n);
    let mut i: usize = 0;
    while i < n
        invariant
            i <= n,
            r@.len() == i,
            forall|j: int| 0 <= j < i ==> r@[j] == 1,
        decreases n - i,
    {
        r.push(1);
        i = i + 1;
    }
    r
}

/// A hypergraph. Each edge is stored by its canonical member list with a
/// weight; in unweighted mode the weight counts how often the edge was added.
#[derive(Clone, Debug)]
pub struct HypergraphRust {
    /// Identities and attributes of nodes and edges.
    attr: MetaHandler,
    /// Whether edges carry weights given by the caller.
    weighted: bool,
    /// The live edges, each once, with their weights.
    edge_list: Vec<(Vec<usize>, u64)>,
    /// The live nodes, each once, with the identities of the edges that hold them.
    adj: Vec<(usize, Vec<usize>)>,
}

impl HypergraphRust {
    /// The member lists of the live edges, in storage order.
    pub closed spec fn edge_seq(&self) -> Seq<Seq<usize>> {
        self.edge_list@.map_values(|e: (Vec<usize>, u64)| e.0@)
    }

    /// The weight of each live edge.
    pub closed spec fn weights(&self) -> Map<Seq<usize>, u64> {
        Map::new(
            |s: Seq<usize>| self.edge_seq().contains(s),
            |s: Seq<usize>| self.edge_list@[self.edge_seq().index_of(s)].1,
        )
    }

    /// The live nodes, in storage order.
    pub closed spec fn node_seq(&self) -> Seq<usize> {
        self.adj@.map_values(|a: (usize, Vec<usize>)| a.0)
    }

    /// The adjacency buckets: for each live node, identities of edges that hold it.
    pub closed spec fn adjacency(&self) -> Map<usize, Set<usize>> {
        Map::new(
            |n: usize| self.node_seq().contains(n),
            |n: usize| self.adj@[self.node_seq().index_of(n)].1@.to_set(),
        )
    }

    /// The registry of nodes and edges.
    pub closed spec fn meta(&self) -> MetaHandler {
        self.attr
    }

    /// Whether the store was made weighted.
    pub closed spec fn weighted_mode(&self) -> bool {
        self.weighted
    }

    /// The set of live edges.
    pub open spec fn edges(&self) -> Set<Seq<usize>> {
        self.weights().dom()
    }

    /// The set of live nodes.
    pub open spec fn nodes(&self) -> Set<usize> {
        self.adjacency().dom()
    }

    /// The live edges of order `o` (size `o + 1`).
    pub open spec fn edges_by_order(&self, o: nat) -> Set<Seq<usize>> {
        self.edges().filter(|s: Seq<usize>| s.len() == o + 1)
    }

    /// Whether `id` is the identity of the live edge `s`.
    pub open spec fn edge_id(&self, id: usize, s: Seq<usize>) -> bool {
        self.meta().is_id_of(id, EntityView::Edge(s))
    }

    /// The member lists of the edges in node `n`'s bucket.
    pub open spec fn incident(&self, n: usize) -> Set<Seq<usize>> {
        Set::new(|s: Seq<usize>| self.adjacency().contains_key(n) && exists|id: usize| #[trigger] self.edge_id(id, s) && self.adjacency()[n].contains(id))
    }

    /// The edges in node `n`'s bucket whose size is the one asked for.
    pub open spec fn incident_of_size(&self, n: usize, want: Option<nat>) -> Set<Seq<usize>> {
        self.incident(n).filter(|s: Seq<usize>| size_ok(want, s))
    }

    /// Every member of every live edge is a live node whose bucket holds the
    /// edge. Removing a node while keeping its edges gives up this property.
    pub open spec fn consistent(&self) -> bool {
        forall|id: usize, s: Seq<usize>, n: usize| #![trigger self.edge_id(id, s), s.contains(n)]
            self.edge_id(id, s) && s.contains(n) ==> self.adjacency().contains_key(n) && self.adjacency()[n].contains(id)
    }

    /// Like [`consistent`](Self::consistent), for members other than `x`.
    pub open spec fn consistent_except(&self, x: usize) -> bool {
        forall|id: usize, s: Seq<usize>, n: usize| #![trigger self.edge_id(id, s), s.contains(n)]
            self.edge_id(id, s) && s.contains(n) && n != x ==> self.adjacency().contains_key(n) && self.adjacency()[n].contains(id)
    }

    /// The store's invariant: edges are canonical and registered exactly while
    /// live, and each bucket holds only identities of live edges that hold its node.
    pub closed spec fn wf(&self) -> bool {
        &&& self.attr.wf()
        &&& self.edge_seq().no_duplicates()
        &&& self.node_seq().no_duplicates()
        &&& forall|i: int| 0 <= i < self.edge_seq().len() ==> #[trigger] self.edge_seq()[i].len() >= 1
            && is_sorted(self.edge_seq()[i])
        &&& forall|s: Seq<usize>| #[trigger] self.edge_seq().contains(s) ==> self.attr.registered(EntityView::Edge(s))
        &&& forall|id: usize| #[trigger] self.attr.objects().contains_key(id) && self.attr.objects()[id] is Edge
            ==> self.edge_seq().contains(self.attr.objects()[id]->Edge_0)
        &&& forall|i: int, id: usize| 0 <= i < self.adj@.len() && #[trigger] self.adj@[i].1@.contains(id)
            ==> self.attr.objects().contains_key(id) && self.attr.objects()[id] is Edge
                && self.attr.objects()[id]->Edge_0.contains(self.adj@[i].0)
        &&& forall|i: int| 0 <= i < self.adj@.len() ==> self.attr.registered(EntityView::Node(#[trigger] self.adj@[i].0))
        &&& forall|i: int| 0 <= i < self.adj@.len() ==> (#[trigger] self.adj@[i]).1@.no_duplicates()
    }

    /// Room in the registry for `k` more objects.
    pub open spec fn has_room(&self, k: nat) -> bool {
        self.meta().next_id() + k < usize::MAX
    }

    /// Position of the canonical member list `s` among the live edges.
    fn find_edge(&self, s: &Vec<usize>) -> (r: Option<usize>)
        ensures
            match r {
                Some(i) => i < self.edge_list@.len() && self.edge_seq()[i as int] == s@,
                None => !self.edge_seq().contains(s@),
            },
    {
        let mut i: usize = 0;
        while i < self.edge_list.len()
            invariant
                i <= self.edge_list@.len(),
                forall|j: int| 0 <= j < i ==> self.edge_seq()[j] != s@,
            decreases self.edge_list@.len() - i,
        {
            if crate::entity::same_nodes(&self.edge_list[i].0, s) {
                return Some(i);
            }
            i = i + 1;
        }
        None
    }

    /// Position of node `n` among the live nodes.
    fn find_node(&self, n: usize) -> (r: Option<usize>)
        ensures
            match r {
                Some(i) => i < self.adj@.len() && self.node_seq()[i as int] == n,
                None => !self.node_seq().contains(n),
            },
    {
        let mut i: usize = 0;
        while i < self.adj.len()
            invariant
                i <= self.adj@.len(),
                forall|j: int| 0 <= j < i ==> self.node_seq()[j] != n,
            decreases self.adj@.len() - i,
        {
            if self.adj[i].0 == n {
                return Some(i);
            }
            i = i + 1;
        }
        None
    }

    /// An empty store, weighted or not.
    pub fn empty(weighted: bool) -> (r: HypergraphRust)
        ensures
            r.wf(),
            r.weighted_mode() == weighted,
            r.edges() == Set::<Seq<usize>>::empty(),
            r.nodes() == Set::<usize>::empty(),
            r.meta().next_id() == 0,
    {
        let r = HypergraphRust {
            attr: MetaHandler::new(),
            weighted,
            edge_list: Vec::new(),
            adj: Vec::new(),
        };
        assert(r.edges() =~= Set::<Seq<usize>>::empty());
        assert(r.nodes() =~= Set::<usize>::empty());
        r
    }

    /// Whether the edge with members `edge`, in any order, is live.
    pub fn check_edge(&self, edge: Vec<usize>) -> (r: bool)
        ensures
            r == self.edges().contains(canonical(edge@)),
    {
        let s = sorted_edge(&edge);
        self.find_edge(&s).is_some()
    }

    /// Whether node `node` is live.
    pub fn check_node(&self, node: usize) -> (r: bool)
        ensures
            r == self.nodes().contains(node),
    {
        self.find_node(node).is_some()
    }

    /// Whether edges carry weights given by the caller.
    pub fn is_weighted(&self) -> (r: bool)
        ensures
            r == self.weighted_mode(),
    {
        self.weighted
    }

    /// The number of live nodes.
    pub fn num_nodes(&self) -> (r: usize)
        requires
            self.wf(),
        ensures
            r == self.nodes().len(),
    {
        proof {
            self.node_seq().unique_seq_to_set();
            assert(self.nodes() =~= self.node_seq().to_set());
        }
        self.adj.len()
    }

    /// Registers node `node` with its kind and name, unless it is registered.
    fn register_node(&mut self, node: usize)
        requires
            old(self).wf(),
            old(self).has_room(1),
        ensures
            final(self).wf(),
            final(self).edge_list == old(self).edge_list,
            final(self).adj == old(self).adj,
            final(self).weighted == old(self).weighted,
            final(self).attr.registered(EntityView::Node(node)),
            old(self).attr.registered(EntityView::Node(node)) ==> final(self).attr == old(self).attr,
            !old(self).attr.registered(EntityView::Node(node)) ==> {
                &&& final(self).attr.next_id() == old(self).attr.next_id() + 1
                &&& final(self).attr.objects() == old(self).attr.objects().insert(
                    old(self).attr.next_id() as usize,
                    EntityView::Node(node),
                )
                &&& final(self).attr.attrs() == old(self).attr.attrs().insert(
                    old(self).attr.next_id() as usize,
                    node_attrs(node),
                )
            },
    {
        if self.attr.get_id_by_object(&Entity::Node(node)).is_none() {
            let mut attributes = Attributes::new();
            let k1 = String::from_str("type");
            let v1 = String::from_str("node");
            let k2 = String::from_str("name");
            let v2 = crate::entity::usize_text(node);
            let ghost (k1v, v1v, k2v, v2v) = (k1@, v1@, k2@, v2@);
            attributes.insert(k1, v1);
            attributes.insert(k2, v2);
            assert(attributes@ == Map::<Seq<char>, Seq<char>>::empty().insert(k1v, v1v).insert(k2v, v2v));
            let ghost before = self.attr;
            let ghost av = attributes@;
            proof {
                reveal_strlit("type");
                reveal_strlit("name");
                reveal_strlit("node");
                assert(k1v =~= seq!['t', 'y', 'p', 'e']);
                assert(v1v =~= seq!['n', 'o', 'd', 'e']);
                assert(k2v =~= seq!['n', 'a', 'm', 'e']);
                assert(av =~= node_attrs(node));
            }
            let kind = String::from_str("node");
            let id = self.attr.add_obj(Entity::Node(node), Some(kind), Some(attributes));
            proof {
                assert(self.attr.attrs()[id] =~= node_attrs(node));
                assert(self.attr.is_id_of(id, EntityView::Node(node)));
                lemma_registry_grows(before, self.attr);
            }
        }
    }

    /// Adds node `node` with an empty bucket, unless it is live, and registers
    /// it unless it is registered. Adding a node twice changes nothing more.
    pub fn add_node(&mut self, node: usize)
        requires
            old(self).wf(),
            old(self).has_room(1),
        ensures
            final(self).wf(),
            final(self).weighted_mode() == old(self).weighted_mode(),
            final(self).weights() == old(self).weights(),
            final(self).adjacency() == if old(self).nodes().contains(node) {
                old(self).adjacency()
            } else {
                old(self).adjacency().insert(node, Set::empty())
            },
            final(self).meta().registered(EntityView::Node(node)),
            final(self).meta().next_id() <= old(self).meta().next_id() + 1,
            forall|id: usize, e: EntityView| #[trigger] old(self).meta().is_id_of(id, e) ==> final(self).meta().is_id_of(id, e),
            registry_extends(old(self).meta(), final(self).meta(), seq![node]),
    {
        self.register_node(node);
        assert(registry_extends(old(self).meta(), self.meta(), seq![node])) by {
            assert(seq![node].contains(node)) by {
                assert(seq![node][0] == node);
            }
        }
        if self.find_node(node).is_none() {
            let ghost before = *self;
            self.adj.push((node, Vec::new()));
            proof {
                assert(self.node_seq() =~= before.node_seq().push(node));
                assert forall|n: usize| #[trigger] before.node_seq().contains(n) implies
                    self.node_seq().index_of(n) == before.node_seq().index_of(n) by {
                    let k = before.node_seq().index_of(n);
                    lemma_index_of_unique(self.node_seq(), k, n);
                }
                lemma_index_of_unique(self.node_seq(), before.node_seq().len() as int, node);
                assert(self.adj@[before.node_seq().len() as int].1@.to_set() =~= Set::<usize>::empty());
                assert forall|n: usize| #[trigger] self.node_seq().contains(n) == (before.node_seq().contains(n) || n == node) by {
                    if before.node_seq().contains(n) {
                        let k = before.node_seq().index_of(n);
                        assert(self.node_seq()[k] == n);
                    }
                    if n == node {
                        assert(self.node_seq()[before.node_seq().len() as int] == node);
                    }
                }
                assert(self.adjacency() =~= old(self).adjacency().insert(node, Set::empty()));
                assert(self.weights() =~= old(self).weights());
            }
        } else {
            assert(self.adjacency() =~= old(self).adjacency());
            assert(self.weights() =~= old(self).weights());
        }
    }

    /// Adds each node of `nodes` as [`add_node`](Self::add_node) does.
    pub fn add_nodes(&mut self, nodes: Vec<usize>)
        requires
            old(self).wf(),
            old(self).has_room(nodes@.len()),
        ensures
            final(self).wf(),
            final(self).weighted_mode() == old(self).weighted_mode(),
            final(self).weights() == old(self).weights(),
            final(self).nodes() == old(self).nodes() + nodes@.to_set(),
    {
        let mut i: usize = 0;
        while i < nodes.len()
            invariant
                self.wf(),
                i <= nodes@.len(),
                self.meta().next_id() <= old(self).meta().next_id() + i,
                old(self).has_room(nodes@.len()),
                self.weighted_mode() == old(self).weighted_mode(),
                self.weights() == old(self).weights(),
                self.nodes() == old(self).nodes() + nodes@.subrange(0, i as int).to_set(),
            decreases nodes@.len() - i,
        {
            let ghost prev = self.nodes();
            self.add_node(nodes[i]);
            proof {
                assert(self.nodes() =~= prev.insert(nodes@[i as int]));
                nodes@.subrange(0, i as int).lemma_push_to_set_commute(nodes@[i as int]);
                assert(nodes@.subrange(0, i + 1) =~= nodes@.subrange(0, i as int).push(nodes@[i as int]));
                assert(self.nodes() =~= old(self).nodes() + nodes@.subrange(0, i + 1).to_set());
            }
            i = i + 1;
        }
        assert(nodes@.subrange(0, nodes@.len() as int) =~= nodes@);
    }

    /// Adds edge identity `id` to the bucket of `node`, making the node live
    /// and registered if it was not.
    fn link_node(&mut self, node: usize, id: usize, Ghost(s): Ghost<Seq<usize>>)
        requires
            old(self).wf(),
            old(self).has_room(1),
            old(self).attr.is_id_of(id, EntityView::Edge(s)),
            s.contains(node),
        ensures
            final(self).wf(),
            final(self).edge_list == old(self).edge_list,
            final(self).weighted == old(self).weighted,
            final(self).adjacency() == old(self).adjacency().insert(
                node,
                bucket_or_empty(old(self).adjacency(), node).insert(id),
            ),
            registry_extends(old(self).attr, final(self).attr, s),
            final(self).attr.next_id() <= old(self).attr.next_id() + 1,
            final(self).attr.registered(EntityView::Node(node)),
    {
        self.register_node(node);
        let ghost mid = *self;
        assert(self.attr.is_id_of(id, EntityView::Edge(s)));
        match self.find_node(node) {
            Some(j) => {
                let mut present = false;
                let mut k: usize = 0;
                while k < self.adj[j].1.len()
                    invariant
                        j < self.adj@.len(),
                        k <= self.adj@[j as int].1@.len(),
                        present == self.adj@[j as int].1@.subrange(0, k as int).to_set().contains(id),
                    decreases self.adj@[j as int].1@.len() - k,
                {
                    if self.adj[j].1[k] == id {
                        present = true;
                    }
                    proof {
                        let b = self.adj@[j as int].1@;
                        assert(b.subrange(0, k + 1) =~= b.subrange(0, k as int).push(b[k as int]));
                        b.subrange(0, k as int).lemma_push_to_set_commute(b[k as int]);
                    }
                    k = k + 1;
                }
                assert(self.adj@[j as int].1@.subrange(0, k as int) =~= self.adj@[j as int].1@);
                if !present {
                    let mut bucket: Vec<usize> = Vec::new();
                    std::mem::swap(&mut bucket, &mut self.adj[j].1);
                    let ghost b0 = bucket@;
                    bucket.push(id);
                    proof {
                        b0.lemma_push_to_set_commute(id);
                    }
                    self.adj.set(j, (node, bucket));
                }
                proof {
                    assert(self.node_seq() =~= mid.node_seq());
                    assert forall|i: int, x: usize| 0 <= i < self.adj@.len() && #[trigger] self.adj@[i].1@.contains(x)
                        implies self.attr.objects().contains_key(x) && self.attr.objects()[x] is Edge
                            && self.attr.objects()[x]->Edge_0.contains(self.adj@[i].0) by {
                        if x != id {
                            assert(mid.adj@[i].1@.contains(x));
                        }
                    }
                    assert forall|i: int| 0 <= i < self.adj@.len() implies self.attr.registered(
                        EntityView::Node(#[trigger] self.adj@[i].0),
                    ) by {
                        assert(self.adj@[i].0 == mid.adj@[i].0);
                    }
                    lemma_index_of_unique(self.node_seq(), j as int, node);
                    assert(self.adj@[j as int].1@.to_set() =~= mid.adj@[j as int].1@.to_set().insert(id));
                    assert(self.adjacency() =~= mid.adjacency().insert(
                        node,
                        bucket_or_empty(mid.adjacency(), node).insert(id),
                    ));
                }
            },
            None => {
                let mut bucket: Vec<usize> = Vec::new();
                bucket.push(id);
                self.adj.push((node, bucket));
                proof {
                    let l = mid.node_seq().len() as int;
                    assert forall|i: int, x: usize| 0 <= i < self.adj@.len() && #[trigger] self.adj@[i].1@.contains(x)
                        implies self.attr.objects().contains_key(x) && self.attr.objects()[x] is Edge
                            && self.attr.objects()[x]->Edge_0.contains(self.adj@[i].0) by {
                        if i < l {
                            assert(mid.adj@[i].1@.contains(x));
                        } else {
                            assert(self.adj@[i].1@ =~= seq![id]);
                        }
                    }
                    assert forall|i: int| 0 <= i < self.adj@.len() implies self.attr.registered(
                        EntityView::Node(#[trigger] self.adj@[i].0),
                    ) by {
                        if i < l {
                            assert(self.adj@[i].0 == mid.adj@[i].0);
                        }
                    }
                    assert(self.node_seq() =~= mid.node_seq().push(node));
                    assert forall|n: usize| #[trigger] mid.node_seq().contains(n) implies
                        self.node_seq().index_of(n) == mid.node_seq().index_of(n) by {
                        let k = mid.node_seq().index_of(n);
                        lemma_index_of_unique(self.node_seq(), k, n);
                    }
                    lemma_index_of_unique(self.node_seq(), l, node);
                    assert(self.adj@[l].1@ =~= Seq::<usize>::empty().push(id));
                    Seq::<usize>::empty().lemma_push_to_set_commute(id);
                    assert(Seq::<usize>::empty().to_set() =~= Set::<usize>::empty());
                    assert(self.adj@[l].1@.to_set() =~= Set::<usize>::empty().insert(id));
                    assert forall|n: usize| #[trigger] self.node_seq().contains(n) == (mid.node_seq().contains(n) || n == node) by {
                        if mid.node_seq().contains(n) {
                            let k = mid.node_seq().index_of(n);
                            assert(self.node_seq()[k] == n);
                        }
                        if n == node {
                            assert(self.node_seq()[l] == node);
                        }
                    }
                    assert(self.adjacency() =~= mid.adjacency().insert(
                        node,
                        bucket_or_empty(mid.adjacency(), node).insert(id),
                    ));
                }
            },
        }
    }

    /// Records the weight of the canonical edge `s`: the given weight in
    /// weighted mode, one more occurrence otherwise.
    fn store_weight(&mut self, s: &Vec<usize>, weight: Option<u64>)
        requires
            old(self).wf(),
            is_sorted(s@),
            s@.len() >= 1,
            old(self).weighted == weight is Some,
            !old(self).weighted && old(self).edges().contains(s@) ==> old(self).weights()[s@] < u64::MAX,
        ensures
            final(self).attr == old(self).attr,
            final(self).adj == old(self).adj,
            final(self).weighted == old(self).weighted,
            final(self).edge_seq() == if old(self).edge_seq().contains(s@) {
                old(self).edge_seq()
            } else {
                old(self).edge_seq().push(s@)
            },
            final(self).weights() == old(self).weights().insert(
                s@,
                added_weight(old(self).weighted, old(self).weights(), s@, weight),
            ),
    {
        let ghost before = *self;
        match self.find_edge(s) {
            Some(i) => {
                let w = if self.weighted {
                    match weight {
                        Some(w) => w,
                        None => 1,
                    }
                } else {
                    proof {
                        lemma_index_of_unique(self.edge_seq(), i as int, s@);
                    }
                    self.edge_list[i].1 + 1
                };
                let nodes = crate::entity::copy_nodes(s);
                self.edge_list.set(i, (nodes, w));
                proof {
                    assert(self.edge_seq() =~= before.edge_seq());
                    lemma_index_of_unique(self.edge_seq(), i as int, s@);
                    assert forall|t: Seq<usize>| #[trigger] before.edge_seq().contains(t) && t != s@ implies
                        self.edge_seq().index_of(t) != i by {}
                    assert(self.weights() =~= before.weights().insert(
                        s@,
                        added_weight(before.weighted, before.weights(), s@, weight),
                    ));
                }
            },
            None => {
                let w = match weight {
                    Some(w) => w,
                    None => 1,
                };
                let nodes = crate::entity::copy_nodes(s);
                self.edge_list.push((nodes, w));
                proof {
                    let l = before.edge_seq().len() as int;
                    assert(self.edge_seq() =~= before.edge_seq().push(s@));
                    assert forall|t: Seq<usize>| #[trigger] before.edge_seq().contains(t) implies
                        self.edge_seq().index_of(t) == before.edge_seq().index_of(t) by {
                        let k = before.edge_seq().index_of(t);
                        lemma_index_of_unique(self.edge_seq(), k, t);
                    }
                    lemma_index_of_unique(self.edge_seq(), l, s@);
                    assert forall|t: Seq<usize>| #[trigger] self.edge_seq().contains(t) == (before.edge_seq().contains(t) || t == s@) by {
                        if before.edge_seq().contains(t) {
                            let k = before.edge_seq().index_of(t);
                            assert(self.edge_seq()[k] == t);
                        }
                        if t == s@ {
                            assert(self.edge_seq()[l] == t);
                        }
                    }
                    assert(self.weights() =~= before.weights().insert(
                        s@,
                        added_weight(before.weighted, before.weights(), s@, weight),
                    ));
                }
            },
        }
    }

    /// Adds the edge with members `edge`, stored in canonical (ascending)
    /// order. In weighted mode `weight` must be given and becomes the edge's
    /// weight; otherwise it must be absent and the edge's count of occurrences
    /// grows by one. The edge is registered as an `"edge"` with `metadata`
    /// unless it already is, and each member becomes a live, registered node
    /// whose bucket holds the edge's identity.
    pub fn add_edge(&mut self, edge: Vec<usize>, weight: Option<u64>, metadata: Option<Attributes>) -> (r: Result<(), String>)
        requires
            old(self).wf(),
            old(self).has_room(edge@.len() + 1),
            !old(self).weighted_mode() && old(self).edges().contains(canonical(edge@))
                ==> old(self).weights()[canonical(edge@)] < u64::MAX,
        ensures
            final(self).wf(),
            final(self).weighted_mode() == old(self).weighted_mode(),
            r is Err <==> add_edge_refused(old(self).weighted_mode(), edge@, weight),
            r is Err ==> *final(self) == *old(self),
            r is Ok ==> edge_added(*old(self), *final(self), edge@, weight, crate::meta_handler::opt_attrs(metadata)),
    {
        if self.weighted && weight.is_none() {
            return Err(String::from_str("Weights must be provided for a weighted hypergraph."));
        }
        if !self.weighted && weight.is_some() {
            return Err(String::from_str("Weights should not be provided for an unweighted hypergraph."));
        }
        if edge.len() == 0 {
            return Err(String::from_str("An edge needs at least one node."));
        }
        let s = sorted_edge(&edge);
        let ghost sv = s@;
        proof {
            crate::edge::lemma_canonical(edge@);
        }
        self.store_weight(&s, weight);
        let ghost stored = *self;
        let kind = String::from_str("edge");
        proof {
            reveal_strlit("edge");
            assert(kind@ =~= seq!['e', 'd', 'g', 'e']);
        }
        let id = self.attr.add_obj(Entity::Edge(crate::entity::copy_nodes(&s)), Some(kind), metadata);
        proof {
            lemma_registry_grows(stored.attr, self.attr);
            assert(registry_extends(old(self).attr, self.attr, sv));
            assert forall|t: Seq<usize>| #[trigger] self.edge_seq().contains(t) implies self.attr.registered(
                EntityView::Edge(t),
            ) by {
                if t != sv {
                    assert(old(self).edge_seq().contains(t));
                    assert(old(self).attr.registered(EntityView::Edge(t)));
                } else {
                    assert(self.attr.objects().contains_key(id));
                }
            }
            assert forall|x: usize| #[trigger] self.attr.objects().contains_key(x) && self.attr.objects()[x] is Edge
                implies self.edge_seq().contains(self.attr.objects()[x]->Edge_0) by {
                if old(self).attr.objects().contains_key(x) {
                    assert(old(self).edge_seq().contains(self.attr.objects()[x]->Edge_0));
                    if !old(self).edge_seq().contains(sv) {
                        let k = old(self).edge_seq().index_of(self.attr.objects()[x]->Edge_0);
                        assert(self.edge_seq()[k] == self.attr.objects()[x]->Edge_0);
                    }
                } else {
                    assert(self.attr.objects()[x] == EntityView::Edge(sv));
                    if !old(self).edge_seq().contains(sv) {
                        assert(self.edge_seq()[old(self).edge_seq().len() as int] == sv);
                    }
                }
            }
            assert forall|i: int| 0 <= i < self.edge_seq().len() implies #[trigger] self.edge_seq()[i].len() >= 1
                && is_sorted(self.edge_seq()[i]) by {
                if i < old(self).edge_seq().len() {
                    assert(self.edge_seq()[i] == old(self).edge_seq()[i]);
                }
            }
            assert(self.wf());
            assert(self.adjacency() =~= add_to_buckets(old(self).adjacency(), sv.subrange(0, 0), id));
        }
        let mut k: usize = 0;
        while k < s.len()
            invariant
                self.wf(),
                sv == s@,
                sv == canonical(edge@),
                sv.len() == edge@.len(),
                k <= sv.len(),
                self.weighted == old(self).weighted,
                self.weights() == stored.weights(),
                self.attr.is_id_of(id, EntityView::Edge(sv)),
                self.adjacency() == add_to_buckets(old(self).adjacency(), sv.subrange(0, k as int), id),
                registry_extends(old(self).attr, self.attr, sv),
                self.attr.next_id() <= old(self).attr.next_id() + 1 + k,
                old(self).has_room(edge@.len() + 1),
                old(self).attr.registered(EntityView::Edge(sv)) ==> old(self).attr.is_id_of(id, EntityView::Edge(sv)),
                !old(self).attr.registered(EntityView::Edge(sv)) ==> id == old(self).attr.next_id()
                    && self.attr.attrs().contains_key(id) && self.attr.attrs()[id] == crate::meta_handler::initial_attrs(
                        EntityView::Edge(sv),
                        Some(seq!['e', 'd', 'g', 'e']),
                        crate::meta_handler::opt_attrs(metadata),
                    ),
            decreases sv.len() - k,
        {
            let ghost before = *self;
            assert(id < before.attr.next_id());
            self.link_node(s[k], id, Ghost(sv));
            proof {
                assert(self.attr.attrs().contains_key(id) == before.attr.attrs().contains_key(id));
                let a0 = old(self).adjacency();
                let sk = sv.subrange(0, k as int);
                let sk1 = sv.subrange(0, k + 1);
                let node = sv[k as int];
                assert forall|n: usize| #[trigger] sk1.contains(n) == (sk.contains(n) || n == node) by {
                    if sk.contains(n) {
                        let j = choose|j: int| 0 <= j < sk.len() && sk[j] == n;
                        assert(sk1[j] == n);
                    }
                    if n == node {
                        assert(sk1[k as int] == n);
                    }
                    if sk1.contains(n) {
                        let j = choose|j: int| 0 <= j < sk1.len() && sk1[j] == n;
                        if j < k {
                            assert(sk[j] == n);
                        }
                    }
                }
                if sk.contains(node) {
                    assert(bucket_or_empty(before.adjacency(), node).insert(id) =~= bucket_or_empty(a0, node).insert(id));
                }
                lemma_extends_trans(old(self).attr, before.attr, self.attr, sv);
                assert(sv.subrange(0, k + 1) =~= sv.subrange(0, k as int).push(sv[k as int]));
                assert(self.adjacency() =~= add_to_buckets(old(self).adjacency(), sv.subrange(0, k + 1), id));
                assert(self.weights() =~= before.weights());
            }
            k = k + 1;
        }
        proof {
            assert(sv.subrange(0, sv.len() as int) =~= sv);
            assert(self.edge_id(id, sv));
        }
        Ok(())
    }

    /// Takes edge identity `id` out of the bucket of `node`, and drops the
    /// node's bucket when it becomes empty.
    fn unlink_node(&mut self, node: usize, id: usize)
        requires
            old(self).wf(),
        ensures
            final(self).wf(),
            final(self).edge_list == old(self).edge_list,
            final(self).attr == old(self).attr,
            final(self).weighted == old(self).weighted,
            final(self).adjacency() == unlink_bucket(old(self).adjacency(), node, id),
    {
        let ghost before = *self;
        match self.find_node(node) {
            Some(j) => {
                let bucket = without(&self.adj[j].1, id);
                proof {
                    lemma_index_of_unique(self.node_seq(), j as int, node);
                }
                if bucket.len() == 0 {
                    self.adj.remove(j);
                    proof {
                        assert(bucket@.to_set() =~= Set::<usize>::empty());
                        assert(self.node_seq() =~= before.node_seq().remove(j as int));
                        assert forall|n: usize| #[trigger] self.node_seq().contains(n) == (before.node_seq().contains(n) && n != node) by {
                            if before.node_seq().contains(n) && n != node {
                                let k = before.node_seq().index_of(n);
                                if k < j {
                                    assert(self.node_seq()[k] == n);
                                } else {
                                    assert(self.node_seq()[k - 1] == n);
                                }
                            }
                            if self.node_seq().contains(n) {
                                let k = self.node_seq().index_of(n);
                                if k < j {
                                    assert(before.node_seq()[k] == n);
                                } else {
                                    assert(before.node_seq()[k + 1] == n);
                                }
                            }
                        }
                        assert forall|n: usize| #[trigger] self.node_seq().contains(n) implies
                            self.adj@[self.node_seq().index_of(n)].1@.to_set() == before.adjacency()[n] by {
                            let k = before.node_seq().index_of(n);
                            if k < j {
                                lemma_index_of_unique(self.node_seq(), k, n);
                            } else {
                                lemma_index_of_unique(self.node_seq(), k - 1, n);
                            }
                        }
                        assert(self.adjacency() =~= unlink_bucket(before.adjacency(), node, id));
                        assert forall|i: int, x: usize| 0 <= i < self.adj@.len() && #[trigger] self.adj@[i].1@.contains(x)
                            implies self.attr.objects().contains_key(x) && self.attr.objects()[x] is Edge
                                && self.attr.objects()[x]->Edge_0.contains(self.adj@[i].0) by {
                            if i < j {
                                assert(before.adj@[i].1@.contains(x));
                            } else {
                                assert(self.adj@[i] == before.adj@[i + 1]);
                                assert(before.adj@[i + 1].1@.contains(x));
                            }
                        }
                        assert forall|i: int| 0 <= i < self.adj@.len() implies self.attr.registered(
                            EntityView::Node(#[trigger] self.adj@[i].0),
                        ) by {
                            if i < j {
                                assert(self.adj@[i].0 == before.adj@[i].0);
                            } else {
                                assert(self.adj@[i].0 == before.adj@[i + 1].0);
                            }
                        }
                    }
                } else {
                    self.adj.set(j, (node, bucket));
                    proof {
                        assert(self.node_seq() =~= before.node_seq());
                        lemma_index_of_unique(self.node_seq(), j as int, node);
                        assert(bucket@.to_set().contains(bucket@[0]));
                        assert(before.adjacency()[node].remove(id) != Set::<usize>::empty());
                        assert(self.adjacency() =~= unlink_bucket(before.adjacency(), node, id));
                        assert forall|i: int, x: usize| 0 <= i < self.adj@.len() && #[trigger] self.adj@[i].1@.contains(x)
                            implies self.attr.objects().contains_key(x) && self.attr.objects()[x] is Edge
                                && self.attr.objects()[x]->Edge_0.contains(self.adj@[i].0) by {
                            if i == j {
                                assert(bucket@.to_set().contains(x));
                                assert(before.adj@[i].1@.to_set().contains(x));
                            }
                            assert(before.adj@[i].1@.contains(x));
                        }
                        assert forall|i: int| 0 <= i < self.adj@.len() implies self.attr.registered(
                            EntityView::Node(#[trigger] self.adj@[i].0),
                        ) by {
                            assert(self.adj@[i].0 == before.adj@[i].0);
                        }
                    }
                }
            },
            None => {
                assert(self.adjacency() =~= unlink_bucket(before.adjacency(), node, id));
            },
        }
    }

    /// Removes the edge with members `edge` (in any order): its weight, its
    /// identity from the buckets of its members (dropping buckets that become
    /// empty), and its registry entry. Fails when the edge is not live.
    pub fn remove_edge(&mut self, edge: Vec<usize>) -> (r: Result<(), String>)
        requires
            old(self).wf(),
        ensures
            final(self).wf(),
            final(self).weighted_mode() == old(self).weighted_mode(),
            r is Ok <==> old(self).edges().contains(canonical(edge@)),
            r is Err ==> *final(self) == *old(self),
            r is Ok ==> edge_removed(*old(self), *final(self), edge@),
    {
        let s = sorted_edge(&edge);
        let ghost sv = s@;
        let key = Entity::Edge(crate::entity::copy_nodes(&s));
        let id = match self.attr.get_id_by_object(&key) {
            Some(id) => id,
            None => {
                proof {
                    if self.edge_seq().contains(sv) {
                        assert(self.attr.registered(EntityView::Edge(sv)));
                    }
                }
                return Err(String::from_str("Edge not found in hypergraph"));
            },
        };
        proof {
            assert(self.edge_seq().contains(sv));
            assert(self.adjacency() =~= remove_from_buckets(old(self).adjacency(), sv.subrange(0, 0), id));
        }
        let mut k: usize = 0;
        while k < s.len()
            invariant
                self.wf(),
                sv == s@,
                sv == canonical(edge@),
                k <= sv.len(),
                self.attr == old(self).attr,
                self.edge_list == old(self).edge_list,
                self.weighted == old(self).weighted,
                self.attr.is_id_of(id, EntityView::Edge(sv)),
                self.adjacency() == remove_from_buckets(old(self).adjacency(), sv.subrange(0, k as int), id),
            decreases sv.len() - k,
        {
            let ghost before = *self;
            self.unlink_node(s[k], id);
            proof {
                let a0 = old(self).adjacency();
                let sk = sv.subrange(0, k as int);
                let sk1 = sv.subrange(0, k + 1);
                let node = sv[k as int];
                assert forall|n: usize| #[trigger] sk1.contains(n) == (sk.contains(n) || n == node) by {
                    if sk.contains(n) {
                        let j = choose|j: int| 0 <= j < sk.len() && sk[j] == n;
                        assert(sk1[j] == n);
                    }
                    if n == node {
                        assert(sk1[k as int] == n);
                    }
                    if sk1.contains(n) {
                        let j = choose|j: int| 0 <= j < sk1.len() && sk1[j] == n;
                        if j < k {
                            assert(sk[j] == n);
                        }
                    }
                }
                if sk.contains(node) && before.adjacency().contains_key(node) {
                    assert(before.adjacency()[node].remove(id) =~= before.adjacency()[node]);
                }
                assert(self.adjacency() =~= remove_from_buckets(a0, sk1, id));
            }
            k = k + 1;
        }
        proof {
            assert(sv.subrange(0, sv.len() as int) =~= sv);
        }
        let ghost unlinked = *self;
        let i = match self.find_edge(&s) {
            Some(i) => i,
            None => return Err(String::from_str("Edge not found in hypergraph")),
        };
        self.edge_list.remove(i);
        let removed = self.attr.remove_object(&key);
        proof {
            lemma_index_of_unique(unlinked.edge_seq(), i as int, sv);
            assert(self.edge_seq() =~= unlinked.edge_seq().remove(i as int));
            assert forall|t: Seq<usize>| #[trigger] self.edge_seq().contains(t) == (unlinked.edge_seq().contains(t) && t != sv) by {
                if unlinked.edge_seq().contains(t) && t != sv {
                    let k = unlinked.edge_seq().index_of(t);
                    if k < i {
                        assert(self.edge_seq()[k] == t);
                    } else {
                        assert(self.edge_seq()[k - 1] == t);
                    }
                }
                if self.edge_seq().contains(t) {
                    let k = self.edge_seq().index_of(t);
                    if k < i {
                        assert(unlinked.edge_seq()[k] == t);
                    } else {
                        assert(unlinked.edge_seq()[k + 1] == t);
                    }
                }
            }
            assert forall|t: Seq<usize>| #[trigger] self.edge_seq().contains(t) implies
                self.edge_list@[self.edge_seq().index_of(t)].1 == unlinked.weights()[t] by {
                let k = unlinked.edge_seq().index_of(t);
                if k < i {
                    lemma_index_of_unique(self.edge_seq(), k, t);
                } else {
                    lemma_index_of_unique(self.edge_seq(), k - 1, t);
                }
            }
            assert(self.weights() =~= old(self).weights().remove(sv));
            assert forall|x: usize| #[trigger] old(self).edge_id(x, sv) implies x == id by {}
            assert forall|n: usize, x: usize| self.adjacency().contains_key(n) && #[trigger] self.adjacency()[n].contains(x)
                implies x != id by {
                if x == id {
                    let j = self.node_seq().index_of(n);
                    assert(self.adj@[j].1@.contains(x));
                    assert(sv.contains(n));
                }
            }
            assert forall|ii: int, x: usize| 0 <= ii < self.adj@.len() && #[trigger] self.adj@[ii].1@.contains(x)
                implies self.attr.objects().contains_key(x) && self.attr.objects()[x] is Edge
                    && self.attr.objects()[x]->Edge_0.contains(self.adj@[ii].0) by {
                assert(unlinked.attr.objects().contains_key(x));
                let n = self.adj@[ii].0;
                assert(self.node_seq()[ii] == n);
                lemma_index_of_unique(self.node_seq(), ii, n);
                assert(self.adjacency()[n].contains(x));
            }
            assert forall|t: Seq<usize>| #[trigger] self.edge_seq().contains(t) implies self.attr.registered(
                EntityView::Edge(t),
            ) by {
                assert(unlinked.attr.registered(EntityView::Edge(t)));
                let x = choose|x: usize| #[trigger] unlinked.attr.objects().contains_key(x) && unlinked.attr.objects()[x] == EntityView::Edge(t);
                assert(self.attr.objects().contains_key(x));
            }
            assert forall|ii: int| 0 <= ii < self.adj@.len() implies self.attr.registered(
                EntityView::Node(#[trigger] self.adj@[ii].0),
            ) by {
                let n = self.adj@[ii].0;
                assert(unlinked.attr.registered(EntityView::Node(n)));
                let x = choose|x: usize| #[trigger] unlinked.attr.objects().contains_key(x) && unlinked.attr.objects()[x] == EntityView::Node(n);
                assert(self.attr.objects().contains_key(x));
            }
            assert forall|i: int| 0 <= i < self.edge_seq().len() implies #[trigger] self.edge_seq()[i].len() >= 1
                && is_sorted(self.edge_seq()[i]) by {
                assert(unlinked.edge_seq().contains(self.edge_seq()[i]));
                let k = unlinked.edge_seq().index_of(self.edge_seq()[i]);
            }
        }
        Ok(())
    }

    /// The edges that hold `node` (through its bucket), keeping those of the
    /// order or size asked for. Asking for both an order and a size is an error.
    pub fn get_incident_edges(&self, node: usize, order: Option<usize>, size: Option<usize>) -> (r: Result<Vec<Vec<usize>>, String>)
        requires
            self.wf(),
        ensures
            r is Err <==> order is Some && size is Some,
            r matches Ok(v) ==> {
                &&& views(v@).no_duplicates()
                &&& views(v@).to_set() == self.incident_of_size(node, wanted_size(order, size))
                &&& forall|i: int, j: int| 0 <= i < j < v@.len() ==> lex_le(#[trigger] v@[i]@, #[trigger] v@[j]@)
            },
    {
        if order.is_some() && size.is_some() {
            return Err(String::from_str("Order and size cannot be both specified."));
        }
        let want: Option<usize> = match order {
            Some(o) => if o < usize::MAX { Some(o + 1) } else { None },
            None => size,
        };
        let ghost w = wanted_size(order, size);
        let mut result: Vec<Vec<usize>> = Vec::new();
        match self.find_node(node) {
            None => {
                assert(views(result@).to_set() =~= self.incident_of_size(node, w));
            },
            Some(j) => {
                let ghost b = self.adj@[j as int].1@;
                proof {
                    lemma_index_of_unique(self.node_seq(), j as int, node);
                }
                let mut k: usize = 0;
                while k < self.adj[j].1.len()
                    invariant
                        self.wf(),
                        j < self.adj@.len(),
                        b == self.adj@[j as int].1@,
                        k <= b.len(),
                        order is Some ==> want == if order->Some_0 < usize::MAX {
                            Some((order->Some_0 + 1) as usize)
                        } else {
                            None::<usize>
                        },
                        order is None ==> want == size,
                        w == wanted_size(order, size),
                        views(result@).no_duplicates(),
                        forall|x: Seq<usize>| #[trigger] views(result@).contains(x) ==> size_ok(w, x) && exists|t: int|
                            0 <= t < k && self.attr.objects().contains_key(b[t]) && self.attr.objects()[b[t]] == EntityView::Edge(x),
                        forall|t: int| 0 <= t < k && self.attr.objects().contains_key(#[trigger] b[t]) && self.attr.objects()[b[t]] is Edge
                            && size_ok(w, self.attr.objects()[b[t]]->Edge_0) ==> views(result@).contains(self.attr.objects()[b[t]]->Edge_0),
                    decreases b.len() - k,
                {
                    let id = self.adj[j].1[k];
                    let ghost r0 = result@;
                    match self.attr.get_object_by_id(id) {
                        Some(Entity::Edge(v)) => {
                            let len = v.len();
                            let keep = match want {
                                Some(n) => len == n,
                                None => order.is_none(),
                            };
                            assert(keep == size_ok(w, v@));
                            if keep {
                                proof {
                                    if views(r0).contains(v@) {
                                        let t = choose|t: int| 0 <= t < k && self.attr.objects().contains_key(b[t]) && self.attr.objects()[b[t]] == EntityView::Edge(v@);
                                        assert(b[t] == b[k as int]);
                                    }
                                }
                                result.push(crate::entity::copy_nodes(v));
                                proof {
                                    assert(views(result@) =~= views(r0).push(v@));
                                    assert forall|x: Seq<usize>| #[trigger] views(result@).contains(x) implies size_ok(w, x) && exists|t: int|
                                        0 <= t < k + 1 && self.attr.objects().contains_key(b[t]) && self.attr.objects()[b[t]] == EntityView::Edge(x) by {
                                        if x != v@ {
                                            assert(views(r0).contains(x));
                                        }
                                    }
                                    assert forall|t: int| 0 <= t < k + 1 && self.attr.objects().contains_key(#[trigger] b[t]) && self.attr.objects()[b[t]] is Edge
                                        && size_ok(w, self.attr.objects()[b[t]]->Edge_0) implies views(result@).contains(self.attr.objects()[b[t]]->Edge_0) by {
                                        if t < k {
                                            let x = self.attr.objects()[b[t]]->Edge_0;
                                            assert(views(r0).contains(x));
                                            let q = choose|q: int| 0 <= q < views(r0).len() && views(r0)[q] == x;
                                            assert(views(result@)[q] == x);
                                        } else {
                                            assert(b[t] == id);
                                            assert(self.attr.objects()[b[t]]->Edge_0 == v@);
                                            assert(views(result@)[r0.len() as int] == v@);
                                        }
                                    }
                                }
                            } else {
                                assert forall|t: int| 0 <= t < k + 1 && self.attr.objects().contains_key(#[trigger] b[t]) && self.attr.objects()[b[t]] is Edge
                                    && size_ok(w, self.attr.objects()[b[t]]->Edge_0) implies views(result@).contains(self.attr.objects()[b[t]]->Edge_0) by {
                                    if t < k {
                                        assert(views(r0).contains(self.attr.objects()[b[t]]->Edge_0));
                                    }
                                }
                            }
                        },
                        _ => {},
                    }
                    k = k + 1;
                }
                proof {
                    assert forall|x: Seq<usize>| #[trigger] views(result@).to_set().contains(x) == self.incident_of_size(node, w).contains(x) by {
                        if views(result@).contains(x) {
                            let t = choose|t: int| 0 <= t < k && self.attr.objects().contains_key(b[t]) && self.attr.objects()[b[t]] == EntityView::Edge(x);
                            assert(b.to_set().contains(b[t]));
                            assert(self.edge_id(b[t], x));
                        }
                        if self.incident_of_size(node, w).contains(x) {
                            let id = choose|id: usize| #[trigger] self.edge_id(id, x) && self.adjacency()[node].contains(id);
                            assert(b.to_set().contains(id));
                            let t = choose|t: int| 0 <= t < b.len() && b[t] == id;
                        }
                    }
                    assert(views(result@).to_set() =~= self.incident_of_size(node, w));
                }
            },
        }
        let ghost unsorted = views(result@);
        sort_unstable_edges(&mut result);
        proof {
            lemma_same_multiset(unsorted, views(result@));
        }
        Ok(result)
    }

    /// The live edges with the size asked for, in storage order.
    pub closed spec fn matching_seq(&self, want: Option<nat>, up_to: bool) -> Seq<Seq<usize>> {
        self.edge_seq().filter(size_pred(want, up_to))
    }

    /// The live edges with the size asked for.
    pub open spec fn matching(&self, want: Option<nat>, up_to: bool) -> Set<Seq<usize>> {
        self.edges().filter(size_pred(want, up_to))
    }

    proof fn lemma_matching(&self, want: Option<nat>, up_to: bool)
        requires
            self.wf(),
        ensures
            self.matching_seq(want, up_to).no_duplicates(),
            self.matching_seq(want, up_to).to_set() == self.matching(want, up_to),
            self.matching_seq(want, up_to).len() == self.matching(want, up_to).len(),
            forall|s: Seq<usize>| #[trigger] self.matching_seq(want, up_to).contains(s) ==> self.edges().contains(s),
    {
        broadcast use vstd::seq_lib::group_filter_ensures;
        lemma_filter_set(self.edge_seq(), size_pred(want, up_to));
        assert(self.edges() =~= self.edge_seq().to_set());
        assert forall|s: Seq<usize>| #[trigger] self.matching_seq(want, up_to).contains(s) implies self.edges().contains(s) by {
            self.edge_seq().lemma_filter_contains_rev(size_pred(want, up_to), s);
        }
        assert(self.matching_seq(want, up_to).to_set() =~= self.matching(want, up_to));
        self.matching_seq(want, up_to).unique_seq_to_set();
    }

    /// The live edges, as member lists. With an order or a size, only edges of
    /// that size; with `up_to`, edges of that size or smaller. Asking for both
    /// an order and a size is an error.
    pub fn get_edges(&self, order: Option<usize>, size: Option<usize>, up_to: bool) -> (r: Result<Vec<Vec<usize>>, String>)
        requires
            self.wf(),
        ensures
            r is Err <==> order is Some && size is Some,
            r matches Ok(v) ==> {
                &&& views(v@) == self.matching_seq(wanted_size(order, size), up_to)
                &&& views(v@).no_duplicates()
                &&& views(v@).to_set() == self.matching(wanted_size(order, size), up_to)
            },
    {
        if order.is_some() && size.is_some() {
            return Err(String::from_str("Order and size cannot be both specified."));
        }
        let ghost w = wanted_size(order, size);
        let mut result: Vec<Vec<usize>> = Vec::new();
        let mut i: usize = 0;
        while i < self.edge_list.len()
            invariant
                i <= self.edge_list@.len(),
                !(order is Some && size is Some),
                w == wanted_size(order, size),
                views(result@) == self.edge_seq().subrange(0, i as int).filter(size_pred(w, up_to)),
            decreases self.edge_list@.len() - i,
        {
            let keep = edge_matches(&self.edge_list[i].0, order, size, up_to);
            let ghost r0 = views(result@);
            if keep {
                result.push(crate::entity::copy_nodes(&self.edge_list[i].0));
                assert(views(result@) =~= r0.push(self.edge_seq()[i as int]));
            }
            proof {
                let q = self.edge_seq().subrange(0, i + 1);
                assert(q =~= self.edge_seq().subrange(0, i as int).push(self.edge_seq()[i as int]));
                self.edge_seq().subrange(0, i as int).lemma_filter_push(self.edge_seq()[i as int], size_pred(w, up_to));
            }
            i = i + 1;
        }
        proof {
            assert(self.edge_seq().subrange(0, i as int) =~= self.edge_seq());
            self.lemma_matching(w, up_to);
        }
        Ok(result)
    }

    /// The weights of the edges that [`get_edges`](Self::get_edges) lists for
    /// the same arguments, in the same order.
    pub fn get_weights(&self, order: Option<usize>, size: Option<usize>, up_to: bool) -> (r: Result<Vec<u64>, String>)
        requires
            self.wf(),
        ensures
            r is Err <==> order is Some && size is Some,
            r matches Ok(v) ==> v@ == self.matching_seq(wanted_size(order, size), up_to).map_values(
                |s: Seq<usize>| self.weights()[s],
            ),
    {
        if order.is_some() && size.is_some() {
            return Err(String::from_str("Order and size cannot be both specified."));
        }
        let ghost w = wanted_size(order, size);
        let ghost wt = |s: Seq<usize>| self.weights()[s];
        let mut result: Vec<u64> = Vec::new();
        let mut i: usize = 0;
        while i < self.edge_list.len()
            invariant
                self.wf(),
                i <= self.edge_list@.len(),
                !(order is Some && size is Some),
                w == wanted_size(order, size),
                wt == |s: Seq<usize>| self.weights()[s],
                result@ == self.edge_seq().subrange(0, i as int).filter(size_pred(w, up_to)).map_values(wt),
            decreases self.edge_list@.len() - i,
        {
            let keep = edge_matches(&self.edge_list[i].0, order, size, up_to);
            let ghost r0 = result@;
            let ghost prev = self.edge_seq().subrange(0, i as int).filter(size_pred(w, up_to));
            if keep {
                result.push(self.edge_list[i].1);
                proof {
                    lemma_index_of_unique(self.edge_seq(), i as int, self.edge_seq()[i as int]);
                    assert(result@ =~= prev.push(self.edge_seq()[i as int]).map_values(wt));
                }
            }
            proof {
                let q = self.edge_seq().subrange(0, i + 1);
                assert(q =~= self.edge_seq().subrange(0, i as int).push(self.edge_seq()[i as int]));
                self.edge_seq().subrange(0, i as int).lemma_filter_push(self.edge_seq()[i as int], size_pred(w, up_to));
            }
            i = i + 1;
        }
        assert(self.edge_seq().subrange(0, i as int) =~= self.edge_seq());
        Ok(result)
    }

    /// The number of live edges; with an order or a size, of edges of that
    /// size (or, with `up_to`, of that size or smaller). Asking for both an
    /// order and a size is an error.
    pub fn num_edges(&self, order: Option<usize>, size: Option<usize>, up_to: bool) -> (r: Result<usize, String>)
        requires
            self.wf(),
        ensures
            r is Err <==> order is Some && size is Some,
            r matches Ok(n) ==> n == self.matching(wanted_size(order, size), up_to).len(),
    {
        if order.is_some() && size.is_some() {
            return Err(String::from_str("Order and size cannot be both specified."));
        }
        let ghost w = wanted_size(order, size);
        let mut count: usize = 0;
        let mut i: usize = 0;
        while i < self.edge_list.len()
            invariant
                i <= self.edge_list@.len(),
                !(order is Some && size is Some),
                w == wanted_size(order, size),
                count == self.edge_seq().subrange(0, i as int).filter(size_pred(w, up_to)).len(),
            decreases self.edge_list@.len() - i,
        {
            proof {
                let q = self.edge_seq().subrange(0, i + 1);
                assert(q =~= self.edge_seq().subrange(0, i as int).push(self.edge_seq()[i as int]));
                self.edge_seq().subrange(0, i as int).lemma_filter_push(self.edge_seq()[i as int], size_pred(w, up_to));
            }
            if edge_matches(&self.edge_list[i].0, order, size, up_to) {
                count = count + 1;
            }
            i = i + 1;
        }
        proof {
            assert(self.edge_seq().subrange(0, i as int) =~= self.edge_seq());
            self.lemma_matching(w, up_to);
        }
        Ok(count)
    }

    /// The live nodes, each once.
    pub fn get_nodes_without_metadata(&self) -> (r: Vec<usize>)
        requires
            self.wf(),
        ensures
            r@.no_duplicates(),
            r@.to_set() == self.nodes(),
    {
        let mut r: Vec<usize> = Vec::with_capacity(self.adj.len());
        let mut i: usize = 0;
        while i < self.adj.len()
            invariant
                i <= self.adj@.len(),
                r@ == self.node_seq().subrange(0, i as int),
            decreases self.adj@.len() - i,
        {
            r.push(self.adj[i].0);
            assert(r@ =~= self.node_seq().subrange(0, i + 1));
            i = i + 1;
        }
        assert(r@ =~= self.node_seq());
        assert(self.nodes() =~= self.node_seq().to_set());
        r
    }

    /// What the invariant gives to readers of the store.
    pub proof fn lemma_wf_facts(&self)
        requires
            self.wf(),
        ensures
            self.edges().finite(),
            self.nodes().finite(),
            self.meta().wf(),
            forall|s: Seq<usize>| #[trigger] self.edges().contains(s) ==> s.len() >= 1 && is_sorted(s)
                && self.meta().registered(EntityView::Edge(s)),
            forall|id: usize, s: Seq<usize>| #[trigger] self.edge_id(id, s) ==> self.edges().contains(s),
            forall|n: usize, id: usize| self.adjacency().contains_key(n) && #[trigger] self.adjacency()[n].contains(id)
                ==> self.meta().objects().contains_key(id) && self.meta().objects()[id] is Edge
                    && self.edges().contains(self.meta().objects()[id]->Edge_0)
                    && self.meta().objects()[id]->Edge_0.contains(n),
            forall|n: usize| #[trigger] self.adjacency().contains_key(n) ==> self.adjacency()[n].finite(),
    {
        assert(self.edges() =~= self.edge_seq().to_set());
        assert(self.nodes() =~= self.node_seq().to_set());
        assert forall|s: Seq<usize>| #[trigger] self.edges().contains(s) implies s.len() >= 1 && is_sorted(s)
            && self.meta().registered(EntityView::Edge(s)) by {
            let k = self.edge_seq().index_of(s);
        }
        assert forall|n: usize, id: usize| self.adjacency().contains_key(n) && #[trigger] self.adjacency()[n].contains(id)
            implies self.meta().objects().contains_key(id) && self.meta().objects()[id] is Edge
                && self.edges().contains(self.meta().objects()[id]->Edge_0)
                && self.meta().objects()[id]->Edge_0.contains(n) by {
            let j = self.node_seq().index_of(n);
            assert(self.adj@[j].1@.contains(id));
        }
    }

    /// The weight of the edge with members `edge` (in any order). Fails when
    /// the edge is not live.
    pub fn get_weight(&self, edge: Vec<usize>) -> (r: Result<u64, String>)
        requires
            self.wf(),
        ensures
            r is Ok <==> self.edges().contains(canonical(edge@)),
            r matches Ok(w) ==> w == self.weights()[canonical(edge@)],
    {
        let s = sorted_edge(&edge);
        match self.find_edge(&s) {
            Some(i) => {
                proof {
                    lemma_index_of_unique(self.edge_seq(), i as int, s@);
                }
                Ok(self.edge_list[i].1)
            },
            None => Err(String::from_str("Edge not in hypergraph.")),
        }
    }

    /// Sets the weight of the live edge with members `edge` (in any order).
    /// Fails, changing nothing, when the edge is not live.
    pub fn set_weight(&mut self, edge: Vec<usize>, weight: u64) -> (r: Result<(), String>)
        requires
            old(self).wf(),
        ensures
            final(self).wf(),
            r is Ok <==> old(self).edges().contains(canonical(edge@)),
            r is Err ==> *final(self) == *old(self),
            r is Ok ==> {
                &&& final(self).weights() == old(self).weights().insert(canonical(edge@), weight)
                &&& final(self).adjacency() == old(self).adjacency()
                &&& final(self).meta() == old(self).meta()
                &&& final(self).weighted_mode() == old(self).weighted_mode()
            },
    {
        let s = sorted_edge(&edge);
        match self.find_edge(&s) {
            Some(i) => {
                let ghost before = *self;
                self.edge_list.set(i, (s, weight));
                proof {
                    assert(self.edge_seq() =~= before.edge_seq());
                    lemma_index_of_unique(self.edge_seq(), i as int, canonical(edge@));
                    assert forall|t: Seq<usize>| #[trigger] before.edge_seq().contains(t) && t != canonical(edge@) implies
                        self.edge_seq().index_of(t) != i by {}
                    assert(self.weights() =~= old(self).weights().insert(canonical(edge@), weight));
                    assert(self.adjacency() =~= old(self).adjacency());
                }
                Ok(())
            },
            None => Err(String::from_str("Edge not in hypergraph.")),
        }
    }

    /// Whether all live edges have one order, and there is at least one.
    pub open spec fn uniform(&self) -> bool {
        exists|k: nat| #[trigger] self.matching(Some(k), false) == self.edges() && self.edges() != Set::<Seq<usize>>::empty()
    }

    /// Whether the live edges all have the same order (and there is one).
    pub fn is_uniform(&self) -> (r: bool)
        requires
            self.wf(),
        ensures
            r == self.uniform(),
    {
        if self.edge_list.len() == 0 {
            proof {
                assert(self.edges() =~= Set::<Seq<usize>>::empty());
            }
            return false;
        }
        let first = self.edge_list[0].0.len();
        let mut i: usize = 1;
        while i < self.edge_list.len()
            invariant
                1 <= i <= self.edge_list@.len(),
                first == self.edge_seq()[0].len(),
                forall|j: int| 0 <= j < i ==> #[trigger] self.edge_seq()[j].len() == first,
            decreases self.edge_list@.len() - i,
        {
            if self.edge_list[i].0.len() != first {
                proof {
                    assert(self.edges().contains(self.edge_seq()[0]));
                    assert(self.edges().contains(self.edge_seq()[i as int]));
                    if self.uniform() {
                        let k = choose|k: nat| #[trigger] self.matching(Some(k), false) == self.edges() && self.edges() != Set::<Seq<usize>>::empty();
                        assert(self.matching(Some(k), false).contains(self.edge_seq()[0]));
                        assert(self.matching(Some(k), false).contains(self.edge_seq()[i as int]));
                    }
                }
                return false;
            }
            i = i + 1;
        }
        proof {
            let k = first as nat;
            assert forall|t: Seq<usize>| #[trigger] self.edges().contains(t) implies t.len() == k by {
                let j = self.edge_seq().index_of(t);
            }
            assert(self.matching(Some(k), false) =~= self.edges());
            assert(self.edges().contains(self.edge_seq()[0]));
        }
        true
    }

    /// The largest order among the live edges, or 0 when there is none.
    pub fn max_order(&self) -> (r: usize)
        requires
            self.wf(),
        ensures
            forall|s: Seq<usize>| #[trigger] self.edges().contains(s) ==> s.len() <= r + 1,
            r == 0 || exists|s: Seq<usize>| #[trigger] self.edges().contains(s) && s.len() == r + 1,
            r < usize::MAX,
    {
        let mut m: usize = 0;
        let mut i: usize = 0;
        while i < self.edge_list.len()
            invariant
                self.wf(),
                i <= self.edge_list@.len(),
                m < usize::MAX,
                forall|j: int| 0 <= j < i ==> #[trigger] self.edge_seq()[j].len() <= m + 1,
                m == 0 || exists|j: int| 0 <= j < i && #[trigger] self.edge_seq()[j].len() == m + 1,
            decreases self.edge_list@.len() - i,
        {
            let len = self.edge_list[i].0.len();
            assert(self.edge_seq()[i as int].len() >= 1);
            if len - 1 > m {
                m = len - 1;
            }
            i = i + 1;
        }
        proof {
            assert forall|s: Seq<usize>| #[trigger] self.edges().contains(s) implies s.len() <= m + 1 by {
                let j = self.edge_seq().index_of(s);
            }
            if m != 0 {
                let j = choose|j: int| 0 <= j < i && #[trigger] self.edge_seq()[j].len() == m + 1;
                assert(self.edges().contains(self.edge_seq()[j]));
            }
        }
        m
    }

    /// The largest size among the live edges (one more than the largest order).
    pub fn max_size(&self) -> (r: usize)
        requires
            self.wf(),
        ensures
            forall|s: Seq<usize>| #[trigger] self.edges().contains(s) ==> s.len() <= r,
            r == 1 || exists|s: Seq<usize>| #[trigger] self.edges().contains(s) && s.len() == r,
            r >= 1,
    {
        let m = self.max_order();
        proof {
            if m != 0 {
                let s = choose|s: Seq<usize>| #[trigger] self.edges().contains(s) && s.len() == m + 1;
                self.lemma_wf_facts();
            }
        }
        m + 1
    }

    /// The attributes of the object with identity `obj_id`.
    pub fn get_meta(&self, obj_id: usize) -> (r: Option<&Attributes>)
        ensures
            match r {
                Some(a) => self.meta().attrs().contains_key(obj_id) && a@ == self.meta().attrs()[obj_id],
                None => !self.meta().attrs().contains_key(obj_id),
            },
    {
        self.attr.get_attributes(obj_id)
    }

    /// Replaces the attributes of the registered object with identity
    /// `obj_id`. Fails, changing nothing, when no object has that identity.
    pub fn set_meta(&mut self, obj_id: usize, metadata: Attributes) -> (r: Result<(), String>)
        requires
            old(self).wf(),
        ensures
            final(self).wf(),
            r is Ok <==> old(self).meta().objects().contains_key(obj_id),
            r is Err ==> *final(self) == *old(self),
            r is Ok ==> {
                &&& final(self).meta().attrs() == old(self).meta().attrs().insert(obj_id, metadata@)
                &&& final(self).meta().objects() == old(self).meta().objects()
                &&& final(self).meta().next_id() == old(self).meta().next_id()
                &&& final(self).weights() == old(self).weights()
                &&& final(self).adjacency() == old(self).adjacency()
                &&& final(self).weighted_mode() == old(self).weighted_mode()
            },
    {
        if self.attr.get_object_by_id(obj_id).is_some() {
            let ghost before = *self;
            self.attr.set_attributes_by_id(obj_id, metadata);
            proof {
                lemma_registry_grows(before.attr, self.attr);
                lemma_registry_grows(self.attr, before.attr);
                assert forall|x: usize| #[trigger] self.attr.objects().contains_key(x) && self.attr.objects()[x] is Edge
                    implies self.edge_seq().contains(self.attr.objects()[x]->Edge_0) by {
                    assert(before.attr.objects().contains_key(x));
                }
            }
            Ok(())
        } else {
            Err(String::from_str("Object ID not found in hypergraph"))
        }
    }

    /// The value of attribute `attr` of the object with identity `obj`.
    pub fn get_attr_meta(&self, obj: usize, attr: String) -> (r: Result<&String, String>)
        ensures
            r is Ok <==> self.meta().attrs().contains_key(obj) && self.meta().attrs()[obj].contains_key(attr@),
            r matches Ok(v) ==> v@ == self.meta().attrs()[obj][attr@],
    {
        match self.attr.get_attributes(obj) {
            Some(attributes) => match attributes.get(&attr) {
                Some(v) => Ok(v),
                None => Err(String::from_str("Attribute not found for object")),
            },
            None => Err(String::from_str("Object ID not found in hypergraph")),
        }
    }

    /// The size of each live edge, in storage order.
    pub fn get_sizes(&self) -> (r: Vec<usize>)
        ensures
            r@.to_multiset() == self.edge_seq().map_values(|s: Seq<usize>| s.len() as usize).to_multiset(),
    {
        let mut r: Vec<usize> = Vec::new();
        let mut i: usize = 0;
        while i < self.edge_list.len()
            invariant
                i <= self.edge_list@.len(),
                r@ == self.edge_seq().subrange(0, i as int).map_values(|s: Seq<usize>| s.len() as usize),
            decreases self.edge_list@.len() - i,
        {
            r.push(self.edge_list[i].0.len());
            assert(r@ =~= self.edge_seq().subrange(0, i + 1).map_values(|s: Seq<usize>| s.len() as usize));
            i = i + 1;
        }
        assert(self.edge_seq().subrange(0, i as int) =~= self.edge_seq());
        r
    }

    /// A copy of this store.
    pub fn copy(&self) -> (r: HypergraphRust)
        requires
            self.wf(),
        ensures
            r.wf(),
            r.weights() == self.weights(),
            r.adjacency() == self.adjacency(),
            r.weighted_mode() == self.weighted_mode(),
            r.meta().objects() == self.meta().objects(),
            r.meta().attrs() == self.meta().attrs(),
            r.meta().next_id() == self.meta().next_id(),
    {
        let mut edge_list: Vec<(Vec<usize>, u64)> = Vec::with_capacity(self.edge_list.len());
        let mut i: usize = 0;
        while i < self.edge_list.len()
            invariant
                i <= self.edge_list@.len(),
                edge_list@.len() == i,
                forall|j: int| 0 <= j < i ==> (#[trigger] edge_list@[j]).0@ == self.edge_list@[j].0@
                    && edge_list@[j].1 == self.edge_list@[j].1,
            decreases self.edge_list@.len() - i,
        {
            edge_list.push((crate::entity::copy_nodes(&self.edge_list[i].0), self.edge_list[i].1));
            i = i + 1;
        }
        let mut adj: Vec<(usize, Vec<usize>)> = Vec::with_capacity(self.adj.len());
        let mut i: usize = 0;
        while i < self.adj.len()
            invariant
                i <= self.adj@.len(),
                adj@.len() == i,
                forall|j: int| 0 <= j < i ==> (#[trigger] adj@[j]).1@ == self.adj@[j].1@ && adj@[j].0 == self.adj@[j].0,
            decreases self.adj@.len() - i,
        {
            adj.push((self.adj[i].0, crate::entity::copy_nodes(&self.adj[i].1)));
            i = i + 1;
        }
        let r = HypergraphRust { attr: self.attr.copy(), weighted: self.weighted, edge_list, adj };
        proof {
            assert(r.edge_seq() =~= self.edge_seq());
            assert(r.node_seq() =~= self.node_seq());
            assert(r.weights() =~= self.weights());
            assert(r.adjacency() =~= self.adjacency());
            lemma_registry_grows(self.attr, r.attr);
            lemma_registry_grows(r.attr, self.attr);
            assert forall|ii: int, x: usize| 0 <= ii < r.adj@.len() && #[trigger] r.adj@[ii].1@.contains(x)
                implies r.attr.objects().contains_key(x) && r.attr.objects()[x] is Edge
                    && r.attr.objects()[x]->Edge_0.contains(r.adj@[ii].0) by {
                assert(self.adj@[ii].1@.contains(x));
            }
            assert forall|ii: int| 0 <= ii < r.adj@.len() implies r.attr.registered(EntityView::Node(#[trigger] r.adj@[ii].0)) by {
                assert(self.attr.registered(EntityView::Node(self.adj@[ii].0)));
            }
            assert forall|ii: int| 0 <= ii < r.adj@.len() implies (#[trigger] r.adj@[ii]).1@.no_duplicates() by {
                assert(self.adj@[ii].1@.no_duplicates());
            }
            assert forall|ii: int| 0 <= ii < r.edge_seq().len() implies #[trigger] r.edge_seq()[ii].len() >= 1
                && is_sorted(r.edge_seq()[ii]) by {
                assert(self.edge_seq()[ii] == r.edge_seq()[ii]);
            }
        }
        r
    }

    /// Removes node `node`: its bucket and its registry entry. Unless
    /// `keep_edges`, every edge in its bucket is removed as `remove_edge`
    /// does; with `keep_edges` those edges stay, still listing the node.
    /// Fails, changing nothing, when the node is not live.
    pub fn remove_node(&mut self, node: usize, keep_edges: bool) -> (r: Result<(), String>)
        requires
            old(self).wf(),
        ensures
            final(self).wf(),
            final(self).weighted_mode() == old(self).weighted_mode(),
            r is Ok <==> old(self).nodes().contains(node),
            r is Err ==> *final(self) == *old(self),
            final(self).nodes().subset_of(old(self).nodes()),
            r is Ok ==> {
                &&& !final(self).nodes().contains(node)
                &&& !final(self).meta().registered(EntityView::Node(node))
                &&& keep_edges ==> final(self).weights() == old(self).weights()
                    && final(self).adjacency() == old(self).adjacency().remove(node)
                &&& !keep_edges ==> final(self).weights() == old(self).weights().remove_keys(old(self).incident(node))
                &&& !keep_edges && old(self).consistent() ==> final(self).consistent()
            },
    {
        let j = match self.find_node(node) {
            Some(j) => j,
            None => return Err(String::from_str("Node not found in hypergraph.")),
        };
        let ghost before = *self;
        let bucket = crate::entity::copy_nodes(&self.adj[j].1);
        proof {
            lemma_index_of_unique(self.node_seq(), j as int, node);
            assert(bucket@.no_duplicates());
        }
        self.adj.remove(j);
        proof {
            assert(self.node_seq() =~= before.node_seq().remove(j as int));
            assert forall|n: usize| #[trigger] self.node_seq().contains(n) == (before.node_seq().contains(n) && n != node) by {
                if before.node_seq().contains(n) && n != node {
                    let k = before.node_seq().index_of(n);
                    if k < j {
                        assert(self.node_seq()[k] == n);
                    } else {
                        assert(self.node_seq()[k - 1] == n);
                    }
                }
                if self.node_seq().contains(n) {
                    let k = self.node_seq().index_of(n);
                    if k < j {
                        assert(before.node_seq()[k] == n);
                    } else {
                        assert(before.node_seq()[k + 1] == n);
                    }
                }
            }
            assert forall|n: usize| #[trigger] self.node_seq().contains(n) implies
                self.adj@[self.node_seq().index_of(n)].1@.to_set() == before.adjacency()[n] by {
                let k = before.node_seq().index_of(n);
                if k < j {
                    lemma_index_of_unique(self.node_seq(), k, n);
                } else {
                    lemma_index_of_unique(self.node_seq(), k - 1, n);
                }
            }
            assert(self.adjacency() =~= before.adjacency().remove(node));
            assert forall|i: int, x: usize| 0 <= i < self.adj@.len() && #[trigger] self.adj@[i].1@.contains(x)
                implies self.attr.objects().contains_key(x) && self.attr.objects()[x] is Edge
                    && self.attr.objects()[x]->Edge_0.contains(self.adj@[i].0) by {
                if i < j {
                    assert(before.adj@[i].1@.contains(x));
                } else {
                    assert(self.adj@[i] == before.adj@[i + 1]);
                    assert(before.adj@[i + 1].1@.contains(x));
                }
            }
            assert forall|i: int| 0 <= i < self.adj@.len() implies self.attr.registered(
                EntityView::Node(#[trigger] self.adj@[i].0),
            ) by {
                if i < j {
                    assert(self.adj@[i].0 == before.adj@[i].0);
                } else {
                    assert(self.adj@[i].0 == before.adj@[i + 1].0);
                }
            }
            assert forall|i: int| 0 <= i < self.adj@.len() implies (#[trigger] self.adj@[i]).1@.no_duplicates() by {
                if i < j {
                    assert(self.adj@[i] == before.adj@[i]);
                } else {
                    assert(self.adj@[i] == before.adj@[i + 1]);
                }
            }
            assert(self.weights() =~= before.weights());
        }
        if !keep_edges {
            let ghost b = bucket@;
            proof {
                assert forall|t: Seq<usize>| #[trigger] before.incident(node).contains(t) <==> exists|q: int|
                    0 <= q < b.len() && before.edge_id(b[q], t) by {
                    if before.incident(node).contains(t) {
                        let id = choose|id: usize| #[trigger] before.edge_id(id, t) && before.adjacency()[node].contains(id);
                        assert(b.to_set().contains(id));
                        let q = choose|q: int| 0 <= q < b.len() && b[q] == id;
                        assert(before.edge_id(b[q], t));
                    }
                    if exists|q: int| 0 <= q < b.len() && before.edge_id(b[q], t) {
                        let q = choose|q: int| 0 <= q < b.len() && before.edge_id(b[q], t);
                        assert(b.to_set().contains(b[q]));
                    }
                }
                assert(self.weights().remove_keys(edges_of_ids(before, b, 0))
                    =~= self.weights());
                assert forall|q: int| 0 <= q < b.len() implies before.meta().objects().contains_key(#[trigger] b[q])
                    && before.meta().objects()[b[q]] is Edge by {
                    assert(before.adj@[j as int].1@.contains(b[q]));
                }
                assert(!self.nodes().contains(node));
                if before.consistent() {
                    assert forall|y: usize, t: Seq<usize>, n: usize| #![trigger self.edge_id(y, t), t.contains(n)]
                        self.edge_id(y, t) && t.contains(n) && n != node implies self.adjacency().contains_key(n) && self.adjacency()[n].contains(y) by {
                        assert(before.edge_id(y, t));
                    }
                }
            }
            let mut k: usize = 0;
            while k < bucket.len()
                invariant
                    self.wf(),
                    before.consistent() ==> self.consistent_except(node),
                    b == bucket@,
                    b.no_duplicates(),
                    k <= b.len(),
                    !self.nodes().contains(node),
                    self.nodes().subset_of(before.nodes()),
                    self.weighted == before.weighted,
                    before.wf(),
                    forall|q: int| 0 <= q < b.len() ==> before.meta().objects().contains_key(#[trigger] b[q])
                        && before.meta().objects()[b[q]] is Edge,
                    forall|q: int| k <= q < b.len() ==> self.attr.objects().contains_key(#[trigger] b[q])
                        && self.attr.objects()[b[q]] == before.meta().objects()[b[q]],
                    self.weights() == before.weights().remove_keys(
                        edges_of_ids(before, b, k as int),
                    ),
                    before.attr.registered(EntityView::Node(node)),
                    forall|x: usize| #[trigger] self.attr.objects().contains_key(x) ==> before.attr.objects().contains_key(x)
                        && self.attr.objects()[x] == before.attr.objects()[x],
                    forall|x: usize| #[trigger] before.attr.objects().contains_key(x) && before.attr.objects()[x] is Node
                        ==> self.attr.objects().contains_key(x),
                decreases b.len() - k,
            {
                let id = bucket[k];
                let ghost prev = *self;
                match self.attr.get_object_by_id(id) {
                    Some(Entity::Edge(v)) => {
                        let members = crate::entity::copy_nodes(v);
                        proof {
                            before.lemma_wf_facts();
                            crate::edge::lemma_canonical_of_sorted(members@);
                            assert(self.edge_id(id, members@));
                            self.lemma_wf_facts();
                        }
                        let _ = self.remove_edge(members);
                        proof {
                            let s = members@;
                            assert(prev.edge_id(id, s));
                            if before.consistent() {
                                lemma_remove_keeps_consistent_except(prev, *self, s, node);
                            }
                            assert(self.adjacency() == remove_from_buckets(prev.adjacency(), s, id));
                            assert(self.nodes().subset_of(prev.nodes()));
                            assert(self.meta().objects() == prev.meta().objects().remove(id));
                            assert forall|q: int| k + 1 <= q < b.len() implies self.attr.objects().contains_key(#[trigger] b[q])
                                && self.attr.objects()[b[q]] == before.meta().objects()[b[q]] by {
                                assert(b[q] != b[k as int]);
                            }
                            assert(self.weights() =~= before.weights().remove_keys(
                                edges_of_ids(before, b, k + 1),
                            )) by {
                                assert forall|t: Seq<usize>| #[trigger] edges_of_ids(before, b, k + 1).contains(t) ==
                                    (edges_of_ids(before, b, k as int).contains(t) || t == s) by {
                                    if t == s {
                                        assert(before.edge_id(b[k as int], t));
                                    }
                                }
                            }
                        }
                    },
                    _ => {
                        proof {
                            assert(false);
                        }
                    },
                }
                k = k + 1;
            }
            proof {
                assert(before.weights().remove_keys(
                    edges_of_ids(before, b, b.len() as int),
                ) =~= before.weights().remove_keys(before.incident(node)));
                if before.consistent() {
                    lemma_incident_consistent(before, node);
                    assert forall|y: usize, t: Seq<usize>, n: usize| #![trigger self.edge_id(y, t), t.contains(n)]
                        self.edge_id(y, t) && t.contains(n) implies self.adjacency().contains_key(n) && self.adjacency()[n].contains(y) by {
                        if n == node {
                            self.lemma_wf_facts();
                            assert(self.edges().contains(t));
                            assert(self.weights().contains_key(t));
                            assert(!before.incident(node).contains(t));
                        }
                    }
                }
            }
        }
        let ghost mid = *self;
        let removed = self.attr.remove_object(&Entity::Node(node));
        proof {
            assert(before.adj@[j as int].0 == node);
            assert(before.attr.registered(EntityView::Node(node)));
            let x = choose|x: usize| #[trigger] before.attr.objects().contains_key(x) && before.attr.objects()[x] == EntityView::Node(node);
            assert(mid.attr.objects().contains_key(x));
            assert(mid.attr.is_id_of(x, EntityView::Node(node)));
            assert(self.attr.objects() == mid.attr.objects().remove(x));
            if mid.consistent() {
                assert forall|y: usize, t: Seq<usize>, n: usize| #![trigger self.edge_id(y, t), t.contains(n)]
                    self.edge_id(y, t) && t.contains(n) implies self.adjacency().contains_key(n) && self.adjacency()[n].contains(y) by {
                    assert(mid.edge_id(y, t));
                }
            }
            assert forall|t: Seq<usize>| #[trigger] self.edge_seq().contains(t) implies self.attr.registered(
                EntityView::Edge(t),
            ) by {
                assert(mid.attr.registered(EntityView::Edge(t)));
                let y = choose|y: usize| #[trigger] mid.attr.objects().contains_key(y) && mid.attr.objects()[y] == EntityView::Edge(t);
                assert(self.attr.objects().contains_key(y));
            }
            assert forall|ii: int, y: usize| 0 <= ii < self.adj@.len() && #[trigger] self.adj@[ii].1@.contains(y)
                implies self.attr.objects().contains_key(y) && self.attr.objects()[y] is Edge
                    && self.attr.objects()[y]->Edge_0.contains(self.adj@[ii].0) by {
                assert(mid.attr.objects().contains_key(y));
            }
            assert forall|ii: int| 0 <= ii < self.adj@.len() implies self.attr.registered(
                EntityView::Node(#[trigger] self.adj@[ii].0),
            ) by {
                let n = self.adj@[ii].0;
                assert(mid.attr.registered(EntityView::Node(n)));
                assert(self.node_seq()[ii] == n);
                let y = choose|y: usize| #[trigger] mid.attr.objects().contains_key(y) && mid.attr.objects()[y] == EntityView::Node(n);
                assert(self.attr.objects().contains_key(y));
            }
            assert(!self.attr.registered(EntityView::Node(node)));
        }
        Ok(())
    }

    /// Removes each node of `nodes` as [`remove_node`](Self::remove_node)
    /// does, passing over those that are not live. With `keep_edges` every
    /// edge stays; otherwise, in a consistent store, exactly the edges that
    /// hold one of `nodes` go, and the store stays consistent.
    pub fn remove_nodes(&mut self, nodes: Vec<usize>, keep_edges: bool)
        requires
            old(self).wf(),
        ensures
            final(self).wf(),
            final(self).weighted_mode() == old(self).weighted_mode(),
            forall|n: usize| #[trigger] nodes@.contains(n) ==> !final(self).nodes().contains(n),
            final(self).nodes().subset_of(old(self).nodes()),
            keep_edges ==> final(self).weights() == old(self).weights(),
            !keep_edges && old(self).consistent() ==> final(self).consistent() && final(self).weights()
                == old(self).weights().remove_keys(holding_any(nodes@)),
    {
        let mut i: usize = 0;
        proof {
            assert(old(self).weights().remove_keys(holding_any(nodes@.subrange(0, 0))) =~= old(self).weights());
        }
        while i < nodes.len()
            invariant
                self.wf(),
                i <= nodes@.len(),
                self.weighted_mode() == old(self).weighted_mode(),
                forall|j: int| 0 <= j < i ==> !self.nodes().contains(#[trigger] nodes@[j]),
                self.nodes().subset_of(old(self).nodes()),
                keep_edges ==> self.weights() == old(self).weights(),
                !keep_edges && old(self).consistent() ==> self.consistent() && self.weights()
                    == old(self).weights().remove_keys(holding_any(nodes@.subrange(0, i as int))),
            decreases nodes@.len() - i,
        {
            let ghost prev = *self;
            let n = nodes[i];
            let _ = self.remove_node(n, keep_edges);
            proof {
                assert forall|j: int| 0 <= j < i + 1 implies !self.nodes().contains(#[trigger] nodes@[j]) by {
                    if j < i {
                        assert(!prev.nodes().contains(nodes@[j]));
                    }
                }
                if !keep_edges && old(self).consistent() {
                    prev.lemma_wf_facts();
                    lemma_incident_consistent(prev, n);
                    let pre = nodes@.subrange(0, i as int);
                    assert(nodes@.subrange(0, i + 1) =~= pre.push(n));
                    assert forall|t: Seq<usize>| #[trigger] holding_any(pre.push(n)).contains(t) == (holding_any(pre).contains(t) || t.contains(n)) by {
                        if holding_any(pre.push(n)).contains(t) {
                            let m = choose|m: usize| pre.push(n).contains(m) && #[trigger] t.contains(m);
                            if m != n {
                                let q = pre.push(n).index_of(m);
                                assert(pre[q] == m);
                            }
                        }
                        if holding_any(pre).contains(t) {
                            let m = choose|m: usize| pre.contains(m) && #[trigger] t.contains(m);
                            let q = pre.index_of(m);
                            assert(pre.push(n)[q] == m);
                        }
                        if t.contains(n) {
                            assert(pre.push(n)[i as int] == n);
                        }
                    }
                    if !prev.nodes().contains(n) {
                        assert forall|t: Seq<usize>| #[trigger] prev.weights().contains_key(t) implies !t.contains(n) by {
                            if t.contains(n) {
                                lemma_members_live(prev, t, n);
                            }
                        }
                    }
                    assert(self.weights() =~= old(self).weights().remove_keys(holding_any(nodes@.subrange(0, i + 1))));
                }
            }
            i = i + 1;
        }
        assert(nodes@.subrange(0, i as int) =~= nodes@);
    }

    /// Removes each edge of `edges` as [`remove_edge`](Self::remove_edge)
    /// does, passing over those that are not live.
    pub fn remove_edges(&mut self, edges: Vec<Vec<usize>>)
        requires
            old(self).wf(),
        ensures
            final(self).wf(),
            final(self).weighted_mode() == old(self).weighted_mode(),
            final(self).edges() == old(self).edges().difference(views(edges@).map_values(|e: Seq<usize>| canonical(e)).to_set()),
    {
        let mut i: usize = 0;
        while i < edges.len()
            invariant
                self.wf(),
                i <= edges@.len(),
                self.weighted_mode() == old(self).weighted_mode(),
                self.edges() == old(self).edges().difference(views(edges@).subrange(0, i as int).map_values(|e: Seq<usize>| canonical(e)).to_set()),
            decreases edges@.len() - i,
        {
            let ghost prev = *self;
            let e = crate::entity::copy_nodes(&edges[i]);
            let _ = self.remove_edge(e);
            proof {
                let c = |e: Seq<usize>| canonical(e);
                let q = views(edges@).subrange(0, i as int).map_values(c);
                assert(views(edges@).subrange(0, i + 1).map_values(c) =~= q.push(canonical(edges@[i as int]@)));
                q.lemma_push_to_set_commute(canonical(edges@[i as int]@));
                assert(self.edges() =~= old(self).edges().difference(views(edges@).subrange(0, i + 1).map_values(c).to_set()));
            }
            i = i + 1;
        }
        assert(views(edges@).subrange(0, i as int) =~= views(edges@));
    }

    /// Updates the live edge with members `edge` (in any order) in place: its
    /// weight, when one is given, and its attributes, merged with `metadata`
    /// when given. Fails, changing nothing, when the edge is not live.
    pub fn update_edge(&mut self, edge: Vec<usize>, weight: Option<u64>, metadata: Option<Attributes>) -> (r: Result<(), String>)
        requires
            old(self).wf(),
        ensures
            final(self).wf(),
            final(self).weighted_mode() == old(self).weighted_mode(),
            final(self).adjacency() == old(self).adjacency(),
            final(self).meta().objects() == old(self).meta().objects(),
            final(self).meta().next_id() == old(self).meta().next_id(),
            r is Ok <==> old(self).edges().contains(canonical(edge@)),
            r is Err ==> *final(self) == *old(self),
            r is Ok ==> final(self).weights() == match weight {
                Some(w) => old(self).weights().insert(canonical(edge@), w),
                None => old(self).weights(),
            },
            r is Ok && metadata is None ==> final(self).meta().attrs() == old(self).meta().attrs(),
            r is Ok && metadata is Some ==> forall|id: usize| #[trigger] old(self).edge_id(id, canonical(edge@))
                ==> final(self).meta().attrs() == old(self).meta().attrs().insert(
                    id,
                    if old(self).meta().attrs().contains_key(id) {
                        old(self).meta().attrs()[id]
                    } else {
                        Map::empty()
                    }.union_prefer_right(metadata->Some_0@),
                ),
    {
        let s = sorted_edge(&edge);
        if self.find_edge(&s).is_none() {
            return Err(String::from_str("Edge does not exist."));
        }
        let key = Entity::Edge(crate::entity::copy_nodes(&s));
        if let Some(w) = weight {
            let _ = self.set_weight(edge, w);
        }
        if let Some(meta) = metadata {
            let ghost before = *self;
            let _ = self.attr.set_attr(&key, meta);
            proof {
                assert(before.edges().contains(s@));
                assert(before.edge_seq().contains(s@));
                assert(before.attr.registered(EntityView::Edge(s@)));
                lemma_registry_grows(before.attr, self.attr);
                lemma_registry_grows(self.attr, before.attr);
                assert forall|x: usize| #[trigger] self.attr.objects().contains_key(x) && self.attr.objects()[x] is Edge
                    implies self.edge_seq().contains(self.attr.objects()[x]->Edge_0) by {
                    assert(before.attr.objects().contains_key(x));
                }
            }
        }
        Ok(())
    }

    /// Adds a batch of edges. In weighted mode `weights` must be given, one per
    /// edge; otherwise it must be absent. `metadata`, when given, holds the
    /// maps of the first edges, one each (edges past its end get none). An edge that is already live is updated in place (weight and
    /// attributes) instead of counted again; a new one is added as `add_edge`
    /// does. Each member becomes a live node.
    pub fn add_edges(&mut self, edges: Vec<Vec<usize>>, weights: Option<Vec<u64>>, metadata: Option<Vec<Attributes>>) -> (r: Result<(), String>)
        requires
            old(self).wf(),
            old(self).has_room(batch_cost(views(edges@))),
        ensures
            final(self).wf(),
            final(self).weighted_mode() == old(self).weighted_mode(),
            old(self).weighted_mode() != (weights is Some) ==> r is Err && *final(self) == *old(self),
            weights matches Some(w) && w@.len() != edges@.len() ==> r is Err && *final(self) == *old(self),
            (forall|i: int| 0 <= i < edges@.len() ==> #[trigger] edges@[i]@.len() >= 1) && old(self).weighted_mode() == (weights is Some)
                && (weights matches Some(w) ==> w@.len() == edges@.len()) ==> r is Ok,
            r is Ok ==> forall|i: int| 0 <= i < edges@.len() ==> #[trigger] edges@[i]@.len() >= 1,
            r is Ok ==> final(self).nodes() == old(self).nodes() + members(views(edges@), edges@.len() as int),
            r is Ok && old(self).consistent() ==> final(self).consistent(),
            r is Ok ==> {
                &&& final(self).edges() == old(self).edges() + views(edges@).map_values(|e: Seq<usize>| canonical(e)).to_set()
                &&& forall|s: Seq<usize>| #[trigger] old(self).edges().contains(s) && !old(self).weighted_mode() ==> final(self).weights()[s] == old(self).weights()[s]
                &&& forall|s: Seq<usize>| #[trigger] final(self).edges().contains(s) && !old(self).edges().contains(s) && !old(self).weighted_mode() ==> final(self).weights()[s] == 1
                &&& forall|s: Seq<usize>| #[trigger] final(self).edges().contains(s) && old(self).weighted_mode() ==> final(self).weights()[s] == match last_weight(views(edges@), weights->Some_0@, edges@.len() as int, s) {
                    Some(w) => w,
                    None => old(self).weights()[s],
                }
            },
    {
        if self.weighted && weights.is_none() {
            return Err(String::from_str("Weights must be provided for a weighted hypergraph."));
        }
        if !self.weighted && weights.is_some() {
            return Err(String::from_str("Weights should not be provided for an unweighted hypergraph."));
        }
        if let Some(w) = &weights {
            if w.len() != edges.len() {
                return Err(String::from_str("The number of edges and weights must be the same."));
            }
        }
        let ghost es = views(edges@);
        let ghost c = |e: Seq<usize>| canonical(e);
        let ghost ws: Seq<u64> = weight_list(weights);
        assert(es.subrange(0, es.len() as int) =~= es);
        assert(es.subrange(0, 0).map_values(c).to_set() =~= Set::<Seq<usize>>::empty());
        assert(self.edges() =~= old(self).edges() + es.subrange(0, 0).map_values(c).to_set());
        assert(members(es, 0) =~= Set::<usize>::empty());
        assert(self.nodes() =~= old(self).nodes() + members(es, 0));
        let mut k: usize = 0;
        while k < edges.len()
            invariant
                self.wf(),
                es == views(edges@),
                c == |e: Seq<usize>| canonical(e),
                k <= edges@.len(),
                forall|q: int| 0 <= q < k ==> #[trigger] edges@[q]@.len() >= 1,
                self.weighted == old(self).weighted,
                self.weighted == (weights is Some),
                weights matches Some(w) ==> w@.len() == edges@.len() && ws == w@,
                self.meta().next_id() + batch_cost(es.subrange(k as int, es.len() as int)) <= old(self).meta().next_id() + batch_cost(es),
                old(self).has_room(batch_cost(es)),
                self.edges() == old(self).edges() + es.subrange(0, k as int).map_values(c).to_set(),
                self.nodes() == old(self).nodes() + members(es, k as int),
                old(self).consistent() ==> self.consistent(),
                forall|s: Seq<usize>| #[trigger] old(self).edges().contains(s) && !self.weighted ==> self.weights()[s] == old(self).weights()[s],
                forall|s: Seq<usize>| #[trigger] self.edges().contains(s) && !old(self).edges().contains(s) && !self.weighted ==> self.weights()[s] == 1,
                forall|s: Seq<usize>| #[trigger] self.edges().contains(s) && self.weighted ==> self.weights()[s] == match last_weight(es, ws, k as int, s) {
                    Some(w) => w,
                    None => old(self).weights()[s],
                },
            decreases edges@.len() - k,
        {
            let ghost prev = *self;
            proof {
                lemma_batch_cost_split(es.subrange(k as int, es.len() as int));
                assert(es.subrange(k as int, es.len() as int).drop_first() =~= es.subrange(k + 1, es.len() as int));
            }
            let w: Option<u64> = match &weights {
                Some(w) => Some(w[k]),
                None => None,
            };
            let meta: Option<Attributes> = meta_at(&metadata, k);
            let mut t: usize = 0;
            while t < edges[k].len()
                invariant
                    self.wf(),
                    t <= edges@[k as int]@.len(),
                    k < edges@.len(),
                    self.weights() == prev.weights(),
                    self.weighted == prev.weighted,
                    self.meta().next_id() <= prev.meta().next_id() + t,
                    prev.meta().next_id() + edges@[k as int]@.len() * 2 + 1 <= old(self).meta().next_id() + batch_cost(es),
                    old(self).has_room(batch_cost(es)),
                    es == views(edges@),
                    self.nodes() == prev.nodes() + es[k as int].subrange(0, t as int).to_set(),
                    prev.consistent() ==> self.consistent(),
                decreases edges@[k as int]@.len() - t,
            {
                let ghost before = *self;
                self.add_node(edges[k][t]);
                proof {
                    let x = es[k as int][t as int];
                    assert(x == edges@[k as int]@[t as int]);
                    if prev.consistent() {
                        lemma_add_node_keeps_consistent(before, *self, x);
                    }
                    assert(es[k as int].subrange(0, t + 1) =~= es[k as int].subrange(0, t as int).push(x));
                    es[k as int].subrange(0, t as int).lemma_push_to_set_commute(x);
                    assert(self.nodes() =~= prev.nodes() + es[k as int].subrange(0, t + 1).to_set());
                }
                t = t + 1;
            }
            proof {
                assert(es[k as int].subrange(0, es[k as int].len() as int) =~= es[k as int]);
            }
            let e = crate::entity::copy_nodes(&edges[k]);
            let s = sorted_edge(&e);
            let ghost mid = *self;
            let ghost sv = s@;
            proof {
                if sv.len() == 0 {
                    self.lemma_wf_facts();
                    if self.edge_seq().contains(sv) {
                        assert(self.edges().contains(sv));
                    }
                }
            }
            let ghost mv = crate::meta_handler::opt_attrs(meta);
            let ghost ev = e@;
            if self.find_edge(&s).is_some() {
                let _ = self.update_edge(e, w, meta);
                proof {
                    assert(self.nodes() =~= mid.nodes());
                    if mid.consistent() {
                        assert forall|y: usize, t: Seq<usize>, n: usize| #![trigger self.edge_id(y, t), t.contains(n)]
                            self.edge_id(y, t) && t.contains(n) implies self.adjacency().contains_key(n) && self.adjacency()[n].contains(y) by {
                            assert(mid.edge_id(y, t));
                        }
                    }
                }
            } else {
                let r = self.add_edge(e, w, meta);
                match r {
                    Ok(()) => {},
                    Err(msg) => return Err(msg),
                }
                proof {
                    mid.lemma_wf_facts();
                    if mid.consistent() {
                        lemma_add_keeps_consistent(mid, *self, ev, w, mv);
                    }
                    assert forall|n: usize| #[trigger] self.nodes().contains(n) == mid.nodes().contains(n) by {
                        crate::edge::lemma_canonical_contains(ev, n);
                        if sv.contains(n) {
                            assert(es[k as int].contains(n));
                            let q = es[k as int].index_of(n);
                            assert(es[k as int].subrange(0, es[k as int].len() as int)[q] == n);
                        }
                    }
                    assert(self.nodes() =~= mid.nodes());
                }
            }
            proof {
                assert forall|n: usize| #[trigger] members(es, k + 1).contains(n) == (members(es, k as int).contains(n) || es[k as int].to_set().contains(n)) by {
                    if members(es, k + 1).contains(n) {
                        let q = choose|q: int| 0 <= q < k + 1 && #[trigger] es[q].contains(n);
                        if q < k {
                            assert(members(es, k as int).contains(n));
                        }
                    }
                    if members(es, k as int).contains(n) {
                        let q = choose|q: int| 0 <= q < k && #[trigger] es[q].contains(n);
                    }
                    if es[k as int].to_set().contains(n) {
                        assert(es[k as int].contains(n));
                    }
                }
                assert(self.nodes() =~= old(self).nodes() + members(es, k + 1));
            }
            proof {
                assert(es[k as int] == edges@[k as int]@);
                assert(es.subrange(0, k + 1).map_values(c) =~= es.subrange(0, k as int).map_values(c).push(sv));
                es.subrange(0, k as int).map_values(c).lemma_push_to_set_commute(sv);
                assert(self.edges() =~= old(self).edges() + es.subrange(0, k + 1).map_values(c).to_set());
                assert forall|q: Seq<usize>| #[trigger] self.edges().contains(q) && self.weighted implies self.weights()[q] == match last_weight(es, ws, k + 1, q) {
                    Some(w) => w,
                    None => old(self).weights()[q],
                } by {
                    if q != sv {
                        assert(mid.edges().contains(q));
                    }
                }
            }
            k = k + 1;
        }
        assert(es.subrange(0, k as int) =~= es);
        Ok(())
    }

    /// A store built from `edge_list`, each edge added in turn as
    /// [`add_edge`](Self::add_edge) does: in weighted mode with its weight from
    /// `weights` (1 for each when none are given), so the last weight given to
    /// an edge wins; otherwise counting each occurrence. `metadata`, when
    /// given, holds the maps of the first edges, one each. Fails on an edge
    /// with no members, or when weights are given in weighted mode and their
    /// number is not the number of edges.
    pub fn new(edge_list: Option<Vec<Vec<usize>>>, weighted: bool, weights: Option<Vec<u64>>, metadata: Option<Vec<Attributes>>) -> (r: Result<HypergraphRust, String>)
        requires
            edge_list matches Some(es) ==> batch_cost(views(es@)) < usize::MAX,
        ensures
            edge_list is None ==> r is Ok,
            edge_list matches Some(es) ==> (r is Ok <==> (forall|i: int| 0 <= i < es@.len() ==> #[trigger] es@[i]@.len() >= 1)
                && (weighted && weights is Some ==> weights->Some_0@.len() == es@.len())),
            r matches Ok(h) ==> {
                let es = match edge_list {
                    Some(v) => views(v@),
                    None => Seq::empty(),
                };
                &&& h.wf()
                &&& h.consistent()
                &&& h.weighted_mode() == weighted
                &&& h.edges() == es.map_values(|e: Seq<usize>| canonical(e)).to_set()
                &&& h.nodes() == members(es, es.len() as int)
                &&& forall|n: usize| #[trigger] h.incident(n) == h.edges().filter(|s: Seq<usize>| s.contains(n))
                &&& weighted ==> forall|s: Seq<usize>| #[trigger] h.edges().contains(s) ==> last_weight(es, weights_or_ones(weights, es.len()), es.len() as int, s) == Some(h.weights()[s])
                &&& !weighted ==> forall|s: Seq<usize>| #[trigger] h.edges().contains(s) ==> h.weights()[s] == occurrences(es, es.len() as int, s)
            },
    {
        let mut h = HypergraphRust::empty(weighted);
        proof {
            assert(members(Seq::<Seq<usize>>::empty(), 0) =~= Set::<usize>::empty());
            assert(Seq::<Seq<usize>>::empty().map_values(|e: Seq<usize>| canonical(e)).to_set() =~= Set::<Seq<usize>>::empty());
        }
        let ghost given = edge_list;
        proof {
            assert forall|n: usize| #[trigger] h.incident(n) == h.edges().filter(|s: Seq<usize>| s.contains(n)) by {
                lemma_incident_consistent(h, n);
            }
        }
        let edges = match edge_list {
            None => {
                return Ok(h);
            },
            Some(edges) => edges,
        };
        assert(given == Some(edges));
        let ws: Vec<u64> = if weighted {
            match weights {
                Some(w) => {
                    if w.len() != edges.len() {
                        return Err(String::from_str("The number of edges and weights must be the same."));
                    }
                    w
                },
                None => ones(edges.len()),
            }
        } else {
            Vec::new()
        };
        let ghost es = views(edges@);
        let ghost c = |e: Seq<usize>| canonical(e);
        let ghost wseq = weights_or_ones(weights, es.len());
        proof {
            assert(es.subrange(0, es.len() as int) =~= es);
            assert(es.subrange(0, 0).map_values(c).to_set() =~= Set::<Seq<usize>>::empty());
            assert(members(es, 0) =~= Set::<usize>::empty());
        }
        let mut k: usize = 0;
        while k < edges.len()
            invariant
                h.wf(),
                h.consistent(),
                edge_list == Some(edges),
                es == views(edges@),
                c == |e: Seq<usize>| canonical(e),
                batch_cost(es) < usize::MAX,
                k <= edges@.len(),
                forall|q: int| 0 <= q < k ==> #[trigger] edges@[q]@.len() >= 1,
                h.weighted_mode() == weighted,
                weighted ==> ws@ == wseq && ws@.len() == edges@.len(),
                h.meta().next_id() + batch_cost(es.subrange(k as int, es.len() as int)) <= batch_cost(es),
                h.edges() == es.subrange(0, k as int).map_values(c).to_set(),
                h.nodes() == members(es, k as int),
                forall|s: Seq<usize>| !#[trigger] h.edges().contains(s) ==> occurrences(es, k as int, s) == 0,
                weighted ==> forall|s: Seq<usize>| #[trigger] h.edges().contains(s) ==> last_weight(es, wseq, k as int, s) == Some(h.weights()[s]),
                !weighted ==> forall|s: Seq<usize>| #[trigger] h.edges().contains(s) ==> h.weights()[s] == occurrences(es, k as int, s),
            decreases edges@.len() - k,
        {
            let ghost prev = h;
            let ghost sv = canonical(es[k as int]);
            proof {
                lemma_batch_cost_split(es.subrange(k as int, es.len() as int));
                assert(es.subrange(k as int, es.len() as int).drop_first() =~= es.subrange(k + 1, es.len() as int));
                assert(es[k as int] == edges@[k as int]@);
                if !weighted && h.edges().contains(sv) {
                    lemma_occurrences_bound(es, k as int, sv);
                }
            }
            let w: Option<u64> = if weighted { Some(ws[k]) } else { None };
            let meta = meta_at(&metadata, k);
            let ghost mv = crate::meta_handler::opt_attrs(meta);
            let e = crate::entity::copy_nodes(&edges[k]);
            match h.add_edge(e, w, meta) {
                Ok(()) => {},
                Err(msg) => {
                    proof {
                        assert(edges@[k as int]@.len() == 0);
                        assert(!(forall|i: int| 0 <= i < edges@.len() ==> #[trigger] edges@[i]@.len() >= 1));
                    }
                    return Err(msg);
                },
            }
            proof {
                prev.lemma_wf_facts();
                h.lemma_wf_facts();
                lemma_add_keeps_consistent(prev, h, es[k as int], w, mv);
                assert(es.subrange(0, k + 1).map_values(c) =~= es.subrange(0, k as int).map_values(c).push(sv));
                es.subrange(0, k as int).map_values(c).lemma_push_to_set_commute(sv);
                assert(h.edges() =~= es.subrange(0, k + 1).map_values(c).to_set());
                assert forall|n: usize| #[trigger] h.nodes().contains(n) == members(es, k + 1).contains(n) by {
                    crate::edge::lemma_canonical_contains(es[k as int], n);
                    if members(es, k + 1).contains(n) {
                        let q = choose|q: int| 0 <= q < k + 1 && #[trigger] es[q].contains(n);
                        if q < k {
                            assert(members(es, k as int).contains(n));
                        }
                    }
                    if members(es, k as int).contains(n) {
                        let q = choose|q: int| 0 <= q < k && #[trigger] es[q].contains(n);
                        assert(members(es, k + 1).contains(n));
                    }
                    if es[k as int].contains(n) {
                        assert(members(es, k + 1).contains(n));
                    }
                }
                assert(h.nodes() =~= members(es, k + 1));
            }
            k = k + 1;
        }
        assert(es.subrange(0, k as int) =~= es);
        proof {
            assert forall|n: usize| #[trigger] h.incident(n) == h.edges().filter(|s: Seq<usize>| s.contains(n)) by {
                lemma_incident_consistent(h, n);
            }
        }
        Ok(h)
    }

    /// What building a copy of this store may cost a registry.
    pub open spec fn registry_cost(&self) -> nat {
        batch_cost(self.edge_seq())
    }

    /// [`registry_cost`](Self::registry_cost) as a number, when it fits in a `usize`.
    pub fn registry_cost_checked(&self) -> (r: Option<usize>)
        ensures
            r matches Some(c) ==> c == self.registry_cost(),
            r is None ==> self.registry_cost() > usize::MAX,
    {
        let n = self.edge_list.len();
        let mut total: usize = 0;
        let mut k: usize = n;
        proof {
            assert(self.edge_seq().subrange(n as int, n as int) =~= Seq::<Seq<usize>>::empty());
        }
        while k > 0
            invariant
                n == self.edge_seq().len(),
                k <= n,
                total == batch_cost(self.edge_seq().subrange(k as int, n as int)),
            decreases k,
        {
            let len = self.edge_list[k - 1].0.len();
            proof {
                let t = self.edge_seq().subrange(k - 1, n as int);
                lemma_batch_cost_split(t);
                assert(t.drop_first() =~= self.edge_seq().subrange(k as int, n as int));
                lemma_batch_cost_grows(self.edge_seq(), k - 1);
            }
            let step = match len.checked_mul(2) {
                Some(d) => d.checked_add(1),
                None => None,
            };
            match step {
                Some(d) => match total.checked_add(d) {
                    Some(t) => {
                        total = t;
                    },
                    None => return None,
                },
                None => return None,
            }
            k = k - 1;
        }
        assert(self.edge_seq().subrange(0, n as int) =~= self.edge_seq());
        Some(total)
    }

    /// The store on the nodes `nodes`: each of them live (with its attributes
    /// copied when it has some here), and every live edge whose members are all
    /// among `nodes`, with its weight and attributes. No other edge is kept.
    pub fn subhypergraph(&self, nodes: Vec<usize>) -> (r: HypergraphRust)
        requires
            self.wf(),
            nodes@.len() + self.registry_cost() < usize::MAX,
        ensures
            r.wf(),
            r.weighted_mode() == self.weighted_mode(),
            r.edges() == self.edges().filter(|s: Seq<usize>| s.to_set().subset_of(nodes@.to_set())),
            forall|s: Seq<usize>| #[trigger] r.edges().contains(s) ==> r.weights()[s] == self.weights()[s],
            r.nodes() == nodes@.to_set(),
            forall|n: usize| #[trigger] nodes@.contains(n) && attrs_of(self.meta(), EntityView::Node(n)) is Some
                ==> attrs_of(r.meta(), EntityView::Node(n)) == attrs_of(self.meta(), EntityView::Node(n)),
            forall|s: Seq<usize>| #[trigger] r.edges().contains(s) ==> attrs_of(r.meta(), EntityView::Edge(s)) == Some(
                crate::meta_handler::initial_attrs(EntityView::Edge(s), Some(seq!['e', 'd', 'g', 'e']), match attrs_of(self.meta(), EntityView::Edge(s)) {
                    Some(a) => a,
                    None => Map::empty(),
                }),
            ),
    {
        broadcast use vstd::std_specs::hash::group_hash_axioms;
        let mut node_set: HashSet<usize> = HashSet::new();
        let mut sub = HypergraphRust::empty(self.weighted);
        let mut i: usize = 0;
        while i < nodes.len()
            invariant
                self.wf(),
                sub.wf(),
                i <= nodes@.len(),
                sub.meta().next_id() <= i,
                node_set@ == nodes@.subrange(0, i as int).to_set(),
                sub.nodes() == nodes@.subrange(0, i as int).to_set(),
                sub.edges() == Set::<Seq<usize>>::empty(),
                sub.weighted_mode() == self.weighted_mode(),
                nodes@.len() + self.registry_cost() < usize::MAX,
                forall|q: int| 0 <= q < i && attrs_of(self.meta(), EntityView::Node(#[trigger] nodes@[q])) is Some
                    ==> attrs_of(sub.meta(), EntityView::Node(nodes@[q])) == attrs_of(self.meta(), EntityView::Node(nodes@[q])),
            decreases nodes@.len() - i,
        {
            let n = nodes[i];
            node_set.insert(n);
            let ghost s0 = sub;
            sub.add_node(n);
            let ghost s1 = sub;
            proof {
                self.lemma_wf_facts();
                s0.lemma_wf_facts();
                s1.lemma_wf_facts();
                assert forall|q: int| 0 <= q < i && attrs_of(self.meta(), EntityView::Node(#[trigger] nodes@[q])) is Some
                    implies attrs_of(s1.meta(), EntityView::Node(nodes@[q])) == attrs_of(self.meta(), EntityView::Node(nodes@[q])) by {
                    assert(s0.meta().registered(EntityView::Node(nodes@[q])));
                    lemma_attrs_of_extends(s0.meta(), s1.meta(), seq![n], EntityView::Node(nodes@[q]));
                }
            }
            if let Some(id) = self.attr.get_id_by_object(&Entity::Node(n)) {
                if let Some(a) = self.attr.get_attributes(id) {
                    if let Some(sid) = sub.attr.get_id_by_object(&Entity::Node(n)) {
                        let c = a.copy();
                        let ghost cv = c@;
                        let _ = sub.set_meta(sid, c);
                        proof {
                            lemma_attrs_of_id(self.meta(), EntityView::Node(n), id);
                            sub.lemma_wf_facts();
                            assert forall|q: int| 0 <= q < i + 1 && attrs_of(self.meta(), EntityView::Node(#[trigger] nodes@[q])) is Some
                                implies attrs_of(sub.meta(), EntityView::Node(nodes@[q])) == attrs_of(self.meta(), EntityView::Node(nodes@[q])) by {
                                lemma_attrs_of_set(s1.meta(), sub.meta(), sid, cv, EntityView::Node(nodes@[q]));
                            }
                        }
                    }
                }
            }
            proof {
                assert forall|q: int| 0 <= q < i + 1 && attrs_of(self.meta(), EntityView::Node(#[trigger] nodes@[q])) is Some
                    implies attrs_of(sub.meta(), EntityView::Node(nodes@[q])) == attrs_of(self.meta(), EntityView::Node(nodes@[q])) by {
                    if q == i {
                        let id = choose|id: usize| #[trigger] self.meta().objects().contains_key(id) && self.meta().objects()[id] == EntityView::Node(n);
                        lemma_attrs_of_id(self.meta(), EntityView::Node(n), id);
                    }
                }
            }
            proof {
                assert(nodes@.subrange(0, i + 1) =~= nodes@.subrange(0, i as int).push(n));
                nodes@.subrange(0, i as int).lemma_push_to_set_commute(n);
                assert(sub.edges() =~= Set::<Seq<usize>>::empty());
            }
            i = i + 1;
        }
        proof {
            assert(nodes@.subrange(0, i as int) =~= nodes@);
            assert(self.edge_seq().subrange(0, self.edge_seq().len() as int) =~= self.edge_seq());
            assert(self.edge_seq().subrange(0, 0).filter(|s: Seq<usize>| s.to_set().subset_of(nodes@.to_set())) =~= Seq::empty()) by {
                reveal(Seq::filter);
            }
            assert(Seq::<Seq<usize>>::empty().to_set() =~= Set::<Seq<usize>>::empty());
        }
        let ghost keep = |s: Seq<usize>| s.to_set().subset_of(nodes@.to_set());
        let mut k: usize = 0;
        while k < self.edge_list.len()
            invariant
                self.wf(),
                sub.wf(),
                k <= self.edge_list@.len(),
                node_set@ == nodes@.to_set(),
                keep == |s: Seq<usize>| s.to_set().subset_of(nodes@.to_set()),
                sub.nodes() == nodes@.to_set(),
                sub.weighted_mode() == self.weighted_mode(),
                sub.edges() == self.edge_seq().subrange(0, k as int).filter(keep).to_set(),
                forall|s: Seq<usize>| #[trigger] sub.edges().contains(s) ==> sub.weights()[s] == self.weights()[s],
                sub.meta().next_id() + batch_cost(self.edge_seq().subrange(k as int, self.edge_seq().len() as int)) <= nodes@.len() + self.registry_cost(),
                nodes@.len() + self.registry_cost() < usize::MAX,
                forall|q: int| 0 <= q < nodes@.len() && attrs_of(self.meta(), EntityView::Node(#[trigger] nodes@[q])) is Some
                    ==> attrs_of(sub.meta(), EntityView::Node(nodes@[q])) == attrs_of(self.meta(), EntityView::Node(nodes@[q])),
                forall|s: Seq<usize>| #[trigger] sub.edges().contains(s) ==> attrs_of(sub.meta(), EntityView::Edge(s)) == Some(
                    crate::meta_handler::initial_attrs(EntityView::Edge(s), Some(seq!['e', 'd', 'g', 'e']), match attrs_of(self.meta(), EntityView::Edge(s)) {
                        Some(a) => a,
                        None => Map::empty(),
                    }),
                ),
            decreases self.edge_list@.len() - k,
        {
            let ghost prev = sub;
            let ghost t = self.edge_seq()[k as int];
            proof {
                lemma_batch_cost_split(self.edge_seq().subrange(k as int, self.edge_seq().len() as int));
                assert(self.edge_seq().subrange(k as int, self.edge_seq().len() as int).drop_first()
                    =~= self.edge_seq().subrange(k + 1, self.edge_seq().len() as int));
                lemma_index_of_unique(self.edge_seq(), k as int, t);
                assert(self.edge_seq().subrange(0, k + 1) =~= self.edge_seq().subrange(0, k as int).push(t));
                self.edge_seq().subrange(0, k as int).lemma_filter_push(t, keep);
                lemma_filter_set(self.edge_seq().subrange(0, k as int), keep);
            }
            let mut inside = true;
            let mut m: usize = 0;
            while m < self.edge_list[k].0.len()
                invariant
                    k < self.edge_list@.len(),
                    t == self.edge_seq()[k as int],
                    m <= t.len(),
                    node_set@ == nodes@.to_set(),
                    inside == forall|q: int| 0 <= q < m ==> nodes@.to_set().contains(#[trigger] t[q]),
                decreases t.len() - m,
            {
                if !node_set.contains(&self.edge_list[k].0[m]) {
                    inside = false;
                }
                m = m + 1;
            }
            proof {
                assert(inside == keep(t)) by {
                    if inside {
                        assert forall|x: usize| t.to_set().contains(x) implies nodes@.to_set().contains(x) by {
                            let q = t.index_of(x);
                        }
                    } else {
                        let q = choose|q: int| 0 <= q < m && !nodes@.to_set().contains(#[trigger] t[q]);
                        assert(t.to_set().contains(t[q]));
                    }
                }
            }
            if inside {
                let w = self.edge_list[k].1;
                let members = crate::entity::copy_nodes(&self.edge_list[k].0);
                let again = crate::entity::copy_nodes(&self.edge_list[k].0);
                let ghost target = match attrs_of(self.meta(), EntityView::Edge(t)) {
                    Some(a) => a,
                    None => Map::<Seq<char>, Seq<char>>::empty(),
                };
                let ghost mut i0: usize = 0;
                proof {
                    self.lemma_wf_facts();
                    assert(self.edges().contains(t));
                    i0 = choose|i: usize| #[trigger] self.meta().objects().contains_key(i) && self.meta().objects()[i] == EntityView::Edge(t);
                    lemma_attrs_of_id(self.meta(), EntityView::Edge(t), i0);
                }
                let key = Entity::Edge(crate::entity::copy_nodes(&self.edge_list[k].0));
                assert(key@ == EntityView::Edge(t));
                let got = self.attr.get_attr(&key);
                let meta: Option<Attributes> = match got {
                    Ok(a) => {
                        proof {
                            let i = choose|i: usize| #[trigger] self.meta().is_id_of(i, EntityView::Edge(t))
                                && self.meta().attrs().contains_key(i) && a@ == self.meta().attrs()[i];
                            assert(i == i0);
                        }
                        let c = a.copy();
                        assert(c@ == target);
                        Some(c)
                    },
                    Err(_) => {
                        proof {
                            assert(self.meta().is_id_of(i0, EntityView::Edge(t)));
                            assert(!self.meta().attrs().contains_key(i0));
                        }
                        assert(target == Map::<Seq<char>, Seq<char>>::empty());
                        None
                    },
                };
                let ghost mv = crate::meta_handler::opt_attrs(meta);
                assert(mv == target);
                let given: Option<u64> = if sub.weighted { Some(w) } else { None };
                proof {
                    self.lemma_wf_facts();
                    crate::edge::lemma_canonical_of_sorted(t);
                    assert(self.edges().contains(t));
                    assert(!prev.edges().contains(t)) by {
                        if prev.edges().contains(t) {
                            let q = choose|q: int| 0 <= q < k && self.edge_seq().subrange(0, k as int).filter(keep)[q] == t;
                            assert(self.edge_seq().subrange(0, k as int).filter(keep).contains(t));
                            self.edge_seq().subrange(0, k as int).lemma_filter_contains_rev(keep, t);
                            let z = choose|z: int| 0 <= z < k && self.edge_seq().subrange(0, k as int)[z] == t;
                            assert(self.edge_seq()[z] == t);
                        }
                    }
                }
                let _ = sub.add_edge(members, given, meta);
                let ghost added = sub;
                let _ = sub.set_weight(again, w);
                proof {
                    prev.lemma_wf_facts();
                    added.lemma_wf_facts();
                    sub.lemma_wf_facts();
                    assert(!prev.meta().registered(EntityView::Edge(t))) by {
                        if prev.meta().registered(EntityView::Edge(t)) {
                            let j = choose|j: usize| #[trigger] prev.meta().objects().contains_key(j) && prev.meta().objects()[j] == EntityView::Edge(t);
                            assert(prev.edge_id(j, t));
                        }
                    }
                    let id = choose|id: usize| {
                        &&& #[trigger] added.edge_id(id, t)
                        &&& added.adjacency() == add_to_buckets(prev.adjacency(), t, id)
                        &&& prev.meta().registered(EntityView::Edge(t)) ==> prev.edge_id(id, t)
                        &&& !prev.meta().registered(EntityView::Edge(t)) ==> id == prev.meta().next_id()
                            && added.meta().attrs().contains_key(id) && added.meta().attrs()[id] == crate::meta_handler::initial_attrs(
                                EntityView::Edge(t),
                                Some(seq!['e', 'd', 'g', 'e']),
                                mv,
                            )
                    };
                    lemma_attrs_of_id(added.meta(), EntityView::Edge(t), id);
                    assert forall|q: int| 0 <= q < nodes@.len() && attrs_of(self.meta(), EntityView::Node(#[trigger] nodes@[q])) is Some
                        implies attrs_of(sub.meta(), EntityView::Node(nodes@[q])) == attrs_of(self.meta(), EntityView::Node(nodes@[q])) by {
                        assert(prev.meta().registered(EntityView::Node(nodes@[q])));
                        lemma_attrs_of_extends(prev.meta(), added.meta(), t, EntityView::Node(nodes@[q]));
                    }
                    assert forall|x: Seq<usize>| #[trigger] sub.edges().contains(x) implies attrs_of(sub.meta(), EntityView::Edge(x)) == Some(
                        crate::meta_handler::initial_attrs(EntityView::Edge(x), Some(seq!['e', 'd', 'g', 'e']), match attrs_of(self.meta(), EntityView::Edge(x)) {
                            Some(a) => a,
                            None => Map::empty(),
                        }),
                    ) by {
                        if x != t {
                            assert(sub.edges() =~= prev.edges().insert(t)) by {
                                self.edge_seq().subrange(0, k as int).filter(keep).lemma_push_to_set_commute(t);
                            }
                            assert(prev.edges().contains(x));
                            assert(prev.meta().registered(EntityView::Edge(x)));
                            lemma_attrs_of_extends(prev.meta(), added.meta(), t, EntityView::Edge(x));
                        }
                    }
                    assert(sub.edges() =~= self.edge_seq().subrange(0, k + 1).filter(keep).to_set()) by {
                        self.edge_seq().subrange(0, k as int).filter(keep).lemma_push_to_set_commute(t);
                    }
                    assert(sub.nodes() =~= nodes@.to_set()) by {
                        assert forall|x: usize| #[trigger] t.contains(x) implies nodes@.to_set().contains(x) by {
                            assert(t.to_set().contains(x));
                        }
                    }
                }
            } else {
                proof {
                    assert(sub.edges() =~= self.edge_seq().subrange(0, k + 1).filter(keep).to_set());
                }
            }
            k = k + 1;
        }
        proof {
            assert(self.edge_seq().subrange(0, k as int) =~= self.edge_seq());
            lemma_filter_set(self.edge_seq(), keep);
            assert(self.edges() =~= self.edge_seq().to_set());
            assert(sub.edges() =~= self.edges().filter(keep));
        }
        sub
    }

    /// An encoder fitted on the live nodes. Fails when there is none.
    pub fn get_mapping(&self) -> (r: Result<crate::label_encoder::LabelEncoder, String>)
        requires
            self.wf(),
        ensures
            r is Err <==> self.nodes() == Set::<usize>::empty(),
            r matches Ok(enc) ==> enc.wf() && exists|ns: Seq<usize>| #[trigger] ns.to_set() == self.nodes() && ns.no_duplicates()
                && enc.mapping_view() == crate::label_encoder::indexed(Map::empty(), canonical(ns), ns.len() as int),
    {
        let nodes = self.get_nodes_without_metadata();
        if nodes.len() == 0 {
            assert(nodes@.to_set() =~= Set::<usize>::empty());
            return Err(String::from_str("No nodes found."));
        }
        proof {
            assert(nodes@.to_set().contains(nodes@[0]));
        }
        let ghost ns = nodes@;
        let mut encoder = crate::label_encoder::LabelEncoder::new();
        encoder.fit(nodes);
        Ok(encoder)
    }

    /// Node `b` is live and a member of an edge in the bucket of node `a`.
    pub open spec fn linked(&self, a: usize, b: usize) -> bool {
        &&& self.adjacency().contains_key(a)
        &&& self.adjacency().contains_key(b)
        &&& exists|id: usize, s: Seq<usize>| #[trigger] self.edge_id(id, s) && self.adjacency()[a].contains(id) && s.contains(b)
    }

    /// `p` is a walk: each step goes to a linked node.
    pub open spec fn is_walk(&self, p: Seq<usize>) -> bool {
        p.len() >= 1 && forall|i: int| 0 <= i < p.len() - 1 ==> #[trigger] self.linked(p[i], p[i + 1])
    }

    /// A walk leads from `a` to `b`.
    pub open spec fn reachable(&self, a: usize, b: usize) -> bool {
        exists|p: Seq<usize>| #[trigger] self.is_walk(p) && p[0] == a && p.last() == b
    }

    proof fn lemma_walk_prefix(&self, vis: Set<usize>, p: Seq<usize>, i: int)
        requires
            self.is_walk(p),
            vis.contains(p[0]),
            forall|x: usize, y: usize| vis.contains(x) && #[trigger] self.linked(x, y) ==> vis.contains(y),
            0 <= i < p.len(),
        ensures
            vis.contains(p[i]),
        decreases i,
    {
        if i > 0 {
            self.lemma_walk_prefix(vis, p, i - 1);
            let h = i - 1;
            assert(self.linked(p[h], p[h + 1]));
        }
    }

    proof fn lemma_walk_extend(&self, a: usize, x: usize, y: usize)
        requires
            self.reachable(a, x),
            self.linked(x, y),
        ensures
            self.reachable(a, y),
    {
        let p = choose|p: Seq<usize>| #[trigger] self.is_walk(p) && p[0] == a && p.last() == x;
        let q = p.push(y);
        assert forall|i: int| 0 <= i < q.len() - 1 implies #[trigger] self.linked(q[i], q[i + 1]) by {
            if i < p.len() - 1 {
                assert(q[i] == p[i] && q[i + 1] == p[i + 1]);
            }
        }
        assert(self.is_walk(q));
    }

    /// Whether every live node is reachable from one first live node, nodes
    /// being linked when they share an edge. An empty store is connected.
    pub fn is_connected_rust(&self) -> (r: bool)
        requires
            self.wf(),
        ensures
            self.nodes() == Set::<usize>::empty() ==> r,
            self.nodes() != Set::<usize>::empty() ==> exists|start: usize| #[trigger] self.nodes().contains(start)
                && r == (Set::new(|b: usize| self.reachable(start, b)) == self.nodes()),
    {
        broadcast use vstd::std_specs::hash::group_hash_axioms;
        if self.adj.len() == 0 {
            assert(self.nodes() =~= Set::<usize>::empty()) by {
                assert(self.node_seq() =~= Seq::<usize>::empty());
            }
            return true;
        }
        proof {
            self.lemma_wf_facts();
            self.node_seq().unique_seq_to_set();
            assert(self.nodes() =~= self.node_seq().to_set());
        }
        let total = self.adj.len();
        let start = self.adj[0].0;
        proof {
            assert(self.node_seq()[0] == start);
            assert(self.nodes().contains(start));
        }
        let mut visited: HashSet<usize> = HashSet::new();
        let mut to_visit: Vec<usize> = Vec::new();
        visited.insert(start);
        to_visit.push(start);
        proof {
            let p = seq![start];
            assert(self.is_walk(p));
            assert(self.reachable(start, start));
        }
        let mut count: usize = 1;
        proof {
            assert(to_visit@[0] == start);
            assert forall|x: usize, y: usize| visited@.contains(x) && !to_visit@.contains(x) && #[trigger] self.linked(x, y)
                implies visited@.contains(y) by {
                assert(x == start);
            }
            assert(visited@ =~= Set::<usize>::empty().insert(start));
        }
        while to_visit.len() > 0
            invariant
                self.wf(),
                total == self.nodes().len(),
                self.nodes().finite(),
                visited@.finite(),
                count == visited@.len(),
                visited@.subset_of(self.nodes()),
                visited@.contains(start),
                self.nodes().contains(start),
                to_visit@.no_duplicates(),
                forall|q: int| 0 <= q < to_visit@.len() ==> visited@.contains(#[trigger] to_visit@[q]),
                forall|x: usize| #[trigger] visited@.contains(x) ==> self.reachable(start, x),
                forall|x: usize, y: usize| visited@.contains(x) && !to_visit@.contains(x) && #[trigger] self.linked(x, y) ==> visited@.contains(y),
            decreases 2 * (total - count) + to_visit@.len(),
        {
            proof {
                vstd::set_lib::lemma_len_subset(visited@, self.nodes());
            }
            let ghost st = to_visit@;
            let x = to_visit.pop().unwrap();
            let ghost stack0 = to_visit@;
            let ghost count0 = count;
            proof {
                assert(st =~= stack0.push(x));
                assert(!stack0.contains(x)) by {
                    if stack0.contains(x) {
                        let q = stack0.index_of(x);
                        assert(st[q] == st[st.len() - 1]);
                    }
                }
                assert forall|z: usize| #[trigger] stack0.contains(z) implies st.contains(z) by {
                    let q = stack0.index_of(z);
                    assert(st[q] == z);
                }
                assert(visited@.contains(x)) by {
                    assert(st[st.len() - 1] == x);
                }
            }
            let j = match self.find_node(x) {
                Some(j) => j,
                None => {
                    proof {
                        assert(false);
                    }
                    0
                },
            };
            proof {
                lemma_index_of_unique(self.node_seq(), j as int, x);
            }
            let mut k: usize = 0;
            while k < self.adj[j].1.len()
                invariant
                    self.wf(),
                    j < self.adj@.len(),
                    self.adj@[j as int].0 == x,
                    self.node_seq().index_of(x) == j,
                    total == self.nodes().len(),
                    self.nodes().finite(),
                    visited@.finite(),
                    count == visited@.len(),
                    count >= count0,
                    count <= total,
                    2 * (total - count) + to_visit@.len() <= 2 * (total - count0) + stack0.len(),
                    visited@.subset_of(self.nodes()),
                    visited@.contains(start),
                    visited@.contains(x),
                    !to_visit@.contains(x),
                    to_visit@.no_duplicates(),
                    forall|q: int| 0 <= q < to_visit@.len() ==> visited@.contains(#[trigger] to_visit@[q]),
                    forall|z: usize| #[trigger] visited@.contains(z) ==> self.reachable(start, z),
                    forall|z: usize, y: usize| visited@.contains(z) && !to_visit@.contains(z) && z != x && #[trigger] self.linked(z, y) ==> visited@.contains(y),
                    forall|q: int, s: Seq<usize>, y: usize| #![trigger self.edge_id(self.adj@[j as int].1@[q], s), s.contains(y)]
                        0 <= q < k && self.edge_id(self.adj@[j as int].1@[q], s) && s.contains(y)
                        && self.adjacency().contains_key(y) ==> visited@.contains(y),
                decreases self.adj@[j as int].1@.len() - k,
            {
                let id = self.adj[j].1[k];
                proof {
                    assert(self.adj@[j as int].1@.contains(id));
                }
                let members = match self.attr.get_object_by_id(id) {
                    Some(Entity::Edge(v)) => v,
                    _ => {
                        proof {
                            assert(false);
                        }
                        &self.adj[j].1
                    },
                };
                let ghost sv = members@;
                proof {
                    assert(self.edge_id(id, sv));
                    assert(self.adjacency()[x].contains(id)) by {
                        assert(self.adj@[j as int].1@.to_set().contains(id));
                    }
                }
                let mut t: usize = 0;
                while t < members.len()
                    invariant
                        self.wf(),
                        sv == members@,
                        self.edge_id(id, sv),
                        self.adjacency().contains_key(x),
                        self.adjacency()[x].contains(id),
                        t <= sv.len(),
                        total == self.nodes().len(),
                        self.nodes().finite(),
                        visited@.finite(),
                        count == visited@.len(),
                        count >= count0,
                        count <= total,
                        2 * (total - count) + to_visit@.len() <= 2 * (total - count0) + stack0.len(),
                        visited@.subset_of(self.nodes()),
                        visited@.contains(start),
                        visited@.contains(x),
                        !to_visit@.contains(x),
                        to_visit@.no_duplicates(),
                        forall|q: int| 0 <= q < to_visit@.len() ==> visited@.contains(#[trigger] to_visit@[q]),
                        forall|z: usize| #[trigger] visited@.contains(z) ==> self.reachable(start, z),
                        forall|z: usize, y: usize| visited@.contains(z) && !to_visit@.contains(z) && z != x && #[trigger] self.linked(z, y) ==> visited@.contains(y),
                        forall|q: int, s: Seq<usize>, y: usize| #![trigger self.edge_id(self.adj@[j as int].1@[q], s), s.contains(y)]
                            0 <= q < k && self.edge_id(self.adj@[j as int].1@[q], s) && s.contains(y)
                            && self.adjacency().contains_key(y) ==> visited@.contains(y),
                        forall|m: int| 0 <= m < t && self.adjacency().contains_key(#[trigger] sv[m]) ==> visited@.contains(sv[m]),
                    decreases sv.len() - t,
                {
                    let y = members[t];
                    if !visited.contains(&y) && self.check_node(y) {
                        proof {
                            assert(self.linked(x, y)) by {
                                assert(sv.contains(y));
                            }
                            self.lemma_walk_extend(start, x, y);
                            vstd::set_lib::lemma_len_subset(visited@.insert(y), self.nodes());
                            if to_visit@.contains(y) {
                                let q = to_visit@.index_of(y);
                            }
                        }
                        let ghost tv0 = to_visit@;
                        visited.insert(y);
                        to_visit.push(y);
                        count = count + 1;
                        proof {
                            assert forall|z: usize| #[trigger] tv0.contains(z) implies to_visit@.contains(z) by {
                                let q = tv0.index_of(z);
                                assert(to_visit@[q] == z);
                            }
                            assert(to_visit@[to_visit@.len() - 1] == y);
                            assert forall|z: usize, y2: usize| visited@.contains(z) && !to_visit@.contains(z) && z != x && #[trigger] self.linked(z, y2)
                                implies visited@.contains(y2) by {
                                assert(z != y);
                                assert(!tv0.contains(z));
                            }
                            assert forall|q: int| 0 <= q < to_visit@.len() implies visited@.contains(#[trigger] to_visit@[q]) by {}
                        }
                    }
                    t = t + 1;
                }
                proof {
                    assert forall|q: int, s: Seq<usize>, y: usize| #![trigger self.edge_id(self.adj@[j as int].1@[q], s), s.contains(y)]
                        0 <= q < k + 1 && self.edge_id(self.adj@[j as int].1@[q], s) && s.contains(y)
                        && self.adjacency().contains_key(y) implies visited@.contains(y) by {
                        if q == k {
                            assert(s == sv);
                            let m = sv.index_of(y);
                        }
                    }
                }
                k = k + 1;
            }
            proof {
                assert forall|z: usize, y: usize| visited@.contains(z) && !to_visit@.contains(z) && #[trigger] self.linked(z, y) implies visited@.contains(y) by {
                    if z == x {
                        let (id, s) = choose|id: usize, s: Seq<usize>| #[trigger] self.edge_id(id, s) && self.adjacency()[x].contains(id) && s.contains(y);
                        assert(self.adj@[j as int].1@.to_set().contains(id));
                        let q = self.adj@[j as int].1@.index_of(id);
                    }
                }
            }
        }
        proof {
            let reach = Set::new(|b: usize| self.reachable(start, b));
            assert forall|b: usize| #[trigger] reach.contains(b) implies visited@.contains(b) by {
                let p = choose|p: Seq<usize>| #[trigger] self.is_walk(p) && p[0] == start && p.last() == b;
                self.lemma_walk_prefix(visited@, p, p.len() - 1);
            }
            assert forall|b: usize| #[trigger] visited@.contains(b) implies reach.contains(b) by {}
            assert(reach =~= visited@);
            if count == total {
                vstd::set_lib::lemma_subset_equality(visited@, self.nodes());
            } else {
                if visited@ == self.nodes() {
                    assert(false);
                }
            }
        }
        count == total
    }

    /// The nodes other than `n` that share with it an edge of its bucket of the size asked for.
    pub open spec fn neighbors(&self, n: usize, want: Option<nat>) -> Set<usize> {
        Set::new(|m: usize| m != n && exists|s: Seq<usize>| #[trigger] self.incident_of_size(n, want).contains(s) && s.contains(m))
    }

    /// The nodes that share an edge with `node` (edges of the order or size
    /// asked for), each once, `node` itself left out. Asking for both an order
    /// and a size is an error.
    pub fn get_neighbors(&self, node: usize, order: Option<usize>, size: Option<usize>) -> (r: Result<Vec<usize>, String>)
        requires
            self.wf(),
        ensures
            r is Err <==> order is Some && size is Some,
            r matches Ok(v) ==> v@.no_duplicates() && v@.to_set() == self.neighbors(node, wanted_size(order, size)),
    {
        broadcast use vstd::std_specs::hash::group_hash_axioms;
        let edges = match self.get_incident_edges(node, order, size) {
            Ok(edges) => edges,
            Err(e) => return Err(e),
        };
        let ghost w = wanted_size(order, size);
        let ghost es = views(edges@);
        let mut seen: HashSet<usize> = HashSet::new();
        let mut result: Vec<usize> = Vec::new();
        let mut k: usize = 0;
        while k < edges.len()
            invariant
                es == views(edges@),
                es.to_set() == self.incident_of_size(node, w),
                k <= es.len(),
                seen@ == result@.to_set(),
                result@.no_duplicates(),
                forall|m: usize| #[trigger] seen@.contains(m) ==> m != node && exists|q: int| 0 <= q < es.len() && es[q].contains(m),
                forall|q: int, m: usize| 0 <= q < k && #[trigger] es[q].contains(m) && m != node ==> seen@.contains(m),
            decreases es.len() - k,
        {
            let mut t: usize = 0;
            while t < edges[k].len()
                invariant
                    es == views(edges@),
                    k < es.len(),
                    t <= es[k as int].len(),
                    seen@ == result@.to_set(),
                    result@.no_duplicates(),
                    forall|m: usize| #[trigger] seen@.contains(m) ==> m != node && exists|q: int| 0 <= q < es.len() && es[q].contains(m),
                    forall|q: int, m: usize| 0 <= q < k && #[trigger] es[q].contains(m) && m != node ==> seen@.contains(m),
                    forall|p: int| 0 <= p < t && es[k as int][p] != node ==> seen@.contains(#[trigger] es[k as int][p]),
                decreases es[k as int].len() - t,
            {
                let m = edges[k][t];
                if m != node && !seen.contains(&m) {
                    let ghost r0 = result@;
                    proof {
                        assert(es[k as int][t as int] == m);
                        assert(es[k as int].contains(m));
                        if r0.contains(m) {
                            assert(r0.to_set().contains(m));
                        }
                    }
                    seen.insert(m);
                    result.push(m);
                    proof {
                        r0.lemma_push_to_set_commute(m);
                    }
                }
                t = t + 1;
            }
            proof {
                assert forall|q: int, m: usize| 0 <= q < k + 1 && #[trigger] es[q].contains(m) && m != node implies seen@.contains(m) by {
                    if q == k {
                        let p = es[q].index_of(m);
                    }
                }
            }
            k = k + 1;
        }
        proof {
            assert forall|m: usize| #[trigger] result@.to_set().contains(m) == self.neighbors(node, w).contains(m) by {
                if seen@.contains(m) {
                    let q = choose|q: int| 0 <= q < es.len() && es[q].contains(m);
                    assert(es.to_set().contains(es[q]));
                }
                if self.neighbors(node, w).contains(m) {
                    let s = choose|s: Seq<usize>| #[trigger] self.incident_of_size(node, w).contains(s) && s.contains(m);
                    assert(es.to_set().contains(s));
                    let q = es.index_of(s);
                }
            }
            assert(result@.to_set() =~= self.neighbors(node, w));
        }
        Ok(result)
    }

    /// The order of each live edge, in storage order.
    pub fn get_orders(&self) -> (r: Vec<usize>)
        requires
            self.wf(),
        ensures
            r@ == self.matching_seq(None, false).map_values(|s: Seq<usize>| (s.len() - 1) as usize),
    {
        let mut r: Vec<usize> = Vec::new();
        let mut i: usize = 0;
        while i < self.edge_list.len()
            invariant
                self.wf(),
                i <= self.edge_list@.len(),
                r@ == self.edge_seq().subrange(0, i as int).map_values(|s: Seq<usize>| (s.len() - 1) as usize),
            decreases self.edge_list@.len() - i,
        {
            assert(self.edge_seq()[i as int].len() >= 1);
            r.push(self.edge_list[i].0.len() - 1);
            assert(r@ =~= self.edge_seq().subrange(0, i + 1).map_values(|s: Seq<usize>| (s.len() - 1) as usize));
            i = i + 1;
        }
        proof {
            assert(self.edge_seq().subrange(0, i as int) =~= self.edge_seq());
            assert(self.matching_seq(None, false) =~= self.edge_seq()) by {
                lemma_filter_all(self.edge_seq(), size_pred(None, false));
            }
        }
        r
    }

    /// Every live edge, in storage order.
    pub fn get_all_edges(&self) -> (r: Vec<Vec<usize>>)
        requires
            self.wf(),
        ensures
            views(r@) == self.matching_seq(None, false),
            views(r@).no_duplicates(),
            views(r@).to_set() == self.edges(),
    {
        let r = match self.get_edges(None, None, false) {
            Ok(r) => r,
            Err(_) => Vec::new(),
        };
        assert(self.matching(None, false) =~= self.edges());
        r
    }

    /// Every live edge with its attributes (empty when it has none), in storage order.
    pub fn get_edges_metadata(&self) -> (r: Vec<(Vec<usize>, Attributes)>)
        requires
            self.wf(),
        ensures
            r@.len() == self.matching_seq(None, false).len(),
            forall|i: int| 0 <= i < r@.len() ==> (#[trigger] r@[i]).0@ == self.matching_seq(None, false)[i]
                && forall|id: usize| #[trigger] self.edge_id(id, r@[i].0@) ==> r@[i].1@ == if self.meta().attrs().contains_key(id) {
                    self.meta().attrs()[id]
                } else {
                    Map::empty()
                },
    {
        let edges = self.get_all_edges();
        let mut r: Vec<(Vec<usize>, Attributes)> = Vec::new();
        let mut i: usize = 0;
        while i < edges.len()
            invariant
                self.wf(),
                i <= edges@.len(),
                views(edges@) == self.matching_seq(None, false),
                r@.len() == i,
                forall|q: int| 0 <= q < i ==> (#[trigger] r@[q]).0@ == self.matching_seq(None, false)[q]
                    && forall|id: usize| #[trigger] self.edge_id(id, r@[q].0@) ==> r@[q].1@ == if self.meta().attrs().contains_key(id) {
                        self.meta().attrs()[id]
                    } else {
                        Map::empty()
                    },
            decreases edges@.len() - i,
        {
            let key = Entity::Edge(crate::entity::copy_nodes(&edges[i]));
            let attrs = match self.attr.get_id_by_object(&key) {
                Some(id) => match self.attr.get_attributes(id) {
                    Some(a) => a.copy(),
                    None => Attributes::new(),
                },
                None => Attributes::new(),
            };
            let ghost ev = edges@[i as int]@;
            r.push((crate::entity::copy_nodes(&edges[i]), attrs));
            proof {
                assert forall|id: usize| #[trigger] self.edge_id(id, ev) implies r@[i as int].1@ == if self.meta().attrs().contains_key(id) {
                    self.meta().attrs()[id]
                } else {
                    Map::empty()
                } by {
                    assert(self.meta().registered(EntityView::Edge(ev)));
                }
            }
            i = i + 1;
        }
        r
    }

    /// `n` is a live node whose registered attributes are `a` and mark it as a node.
    pub open spec fn node_with_attrs(&self, n: usize, a: Map<Seq<char>, Seq<char>>) -> bool {
        &&& self.nodes().contains(n)
        &&& exists|id: usize| #[trigger] self.meta().is_id_of(id, EntityView::Node(n)) && self.meta().attrs().contains_key(id)
            && a == self.meta().attrs()[id]
        &&& a.contains_key(seq!['t', 'y', 'p', 'e'])
        &&& a[seq!['t', 'y', 'p', 'e']] == seq!['n', 'o', 'd', 'e']
    }

    /// `n` is a live node whose registered attributes mark it as a node.
    pub open spec fn marked_node(&self, n: usize) -> bool {
        exists|a: Map<Seq<char>, Seq<char>>| #[trigger] self.node_with_attrs(n, a)
    }

    /// The live nodes whose attributes mark them as nodes (`"type"` is
    /// `"node"`), each once, with its attributes.
    pub fn get_nodes_with_metadata(&self) -> (r: Vec<(usize, Attributes)>)
        requires
            self.wf(),
        ensures
            forall|i: int| 0 <= i < r@.len() ==> self.node_with_attrs(#[trigger] r@[i].0, r@[i].1@),
            firsts(r@).no_duplicates(),
            firsts(r@).to_set() == Set::new(|n: usize| self.marked_node(n)),
    {
        let nodes = self.get_nodes_without_metadata();
        let kind_key = String::from_str("type");
        let kind = String::from_str("node");
        proof {
            reveal_strlit("type");
            reveal_strlit("node");
            assert(kind_key@ =~= seq!['t', 'y', 'p', 'e']);
            assert(kind@ =~= seq!['n', 'o', 'd', 'e']);
        }
        let ghost marked = |n: usize| self.marked_node(n);
        let mut r: Vec<(usize, Attributes)> = Vec::new();
        let mut i: usize = 0;
        while i < nodes.len()
            invariant
                self.wf(),
                i <= nodes@.len(),
                nodes@.to_set() == self.nodes(),
                nodes@.no_duplicates(),
                kind_key@ == seq!['t', 'y', 'p', 'e'],
                kind@ == seq!['n', 'o', 'd', 'e'],
                marked == |n: usize| self.marked_node(n),
                forall|q: int| 0 <= q < r@.len() ==> self.node_with_attrs(#[trigger] r@[q].0, r@[q].1@),
                firsts(r@) == nodes@.subrange(0, i as int).filter(marked),
            decreases nodes@.len() - i,
        {
            let n = nodes[i];
            let ghost r0 = r@;
            proof {
                assert(nodes@.to_set().contains(n));
                assert(nodes@.subrange(0, i + 1) =~= nodes@.subrange(0, i as int).push(n));
                nodes@.subrange(0, i as int).lemma_filter_push(n, marked);
            }
            let mut pushed = false;
            if let Some(id) = self.attr.get_id_by_object(&Entity::Node(n)) {
                if let Some(a) = self.attr.get_attributes(id) {
                    let is_node = match a.get(&kind_key) {
                        Some(v) => *v == kind,
                        None => false,
                    };
                    if is_node {
                        let c = a.copy();
                        proof {
                            assert(self.meta().is_id_of(id, EntityView::Node(n)));
                            assert(self.node_with_attrs(n, c@));
                        }
                        r.push((n, c));
                        pushed = true;
                        proof {
                            assert forall|p: int| 0 <= p < r@.len() implies self.node_with_attrs(#[trigger] r@[p].0, r@[p].1@) by {
                                if p < r0.len() {
                                    assert(r@[p] == r0[p]);
                                }
                            }
                            assert(firsts(r@) =~= firsts(r0).push(n));
                        }
                    } else {
                        proof {
                            if marked(n) {
                                let a2 = choose|a2: Map<Seq<char>, Seq<char>>| #[trigger] self.node_with_attrs(n, a2);
                                let id2 = choose|id2: usize| #[trigger] self.meta().is_id_of(id2, EntityView::Node(n)) && self.meta().attrs().contains_key(id2)
                                    && a2 == self.meta().attrs()[id2];
                                assert(id2 == id);
                            }
                        }
                    }
                } else {
                    proof {
                        if marked(n) {
                            let a2 = choose|a2: Map<Seq<char>, Seq<char>>| #[trigger] self.node_with_attrs(n, a2);
                            let id2 = choose|id2: usize| #[trigger] self.meta().is_id_of(id2, EntityView::Node(n)) && self.meta().attrs().contains_key(id2)
                                && a2 == self.meta().attrs()[id2];
                            assert(id2 == id);
                        }
                    }
                }
            } else {
                proof {
                    if marked(n) {
                        let a2 = choose|a2: Map<Seq<char>, Seq<char>>| #[trigger] self.node_with_attrs(n, a2);
                        let id2 = choose|id2: usize| #[trigger] self.meta().is_id_of(id2, EntityView::Node(n)) && self.meta().attrs().contains_key(id2)
                            && a2 == self.meta().attrs()[id2];
                    }
                }
            }
            proof {
                if !pushed {
                    assert(!marked(n));
                    assert(r@ == r0);
                }
            }
            i = i + 1;
        }
        proof {
            assert(nodes@.subrange(0, i as int) =~= nodes@);
            lemma_filter_set(nodes@, marked);
            assert(firsts(r@).to_set() =~= Set::new(|n: usize| self.marked_node(n)));
        }
        r
    }

    /// For each edge size present, how many live edges have it.
    pub fn distribution_sizes(&self) -> (r: HashMap<usize, usize>)
        requires
            self.wf(),
        ensures
            forall|k: usize| #[trigger] r@.contains_key(k) == (self.matching(Some(k as nat), false).len() > 0),
            forall|k: usize| #[trigger] r@.contains_key(k) ==> r@[k] == self.matching(Some(k as nat), false).len(),
    {
        broadcast use vstd::std_specs::hash::group_hash_axioms;
        let mut dist: HashMap<usize, usize> = HashMap::new();
        let mut i: usize = 0;
        while i < self.edge_list.len()
            invariant
                self.wf(),
                i <= self.edge_list@.len(),
                forall|k: usize| #[trigger] dist@.contains_key(k) == (self.edge_seq().subrange(0, i as int).filter(size_pred(Some(k as nat), false)).len() > 0),
                forall|k: usize| #[trigger] dist@.contains_key(k) ==> dist@[k] == self.edge_seq().subrange(0, i as int).filter(size_pred(Some(k as nat), false)).len(),
            decreases self.edge_list@.len() - i,
        {
            let len = self.edge_list[i].0.len();
            let ghost pre = self.edge_seq().subrange(0, i as int);
            let ghost x = self.edge_seq()[i as int];
            proof {
                pre.lemma_filter_len(size_pred(Some(len as nat), false));
            }
            let c: usize = match dist.get(&len) {
                Some(c) => *c,
                None => 0,
            };
            dist.insert(len, c + 1);
            proof {
                assert(self.edge_seq().subrange(0, i + 1) =~= pre.push(x));
                assert forall|k: usize| #[trigger] self.edge_seq().subrange(0, i + 1).filter(size_pred(Some(k as nat), false))
                    == if k == len { pre.filter(size_pred(Some(k as nat), false)).push(x) } else { pre.filter(size_pred(Some(k as nat), false)) } by {
                    pre.lemma_filter_push(x, size_pred(Some(k as nat), false));
                }
            }
            i = i + 1;
        }
        proof {
            assert(self.edge_seq().subrange(0, i as int) =~= self.edge_seq());
            assert forall|k: usize| #[trigger] dist@.contains_key(k) == (self.matching(Some(k as nat), false).len() > 0)
                && (dist@.contains_key(k) ==> dist@[k] == self.matching(Some(k as nat), false).len()) by {
                self.lemma_matching(Some(k as nat), false);
            }
        }
        dist
    }

    /// The store with the live edges whose size is among `sizes` (or whose
    /// order is among `orders`), with their weights and attributes, and their
    /// members; with `keep_nodes`, every live node too, with its attributes.
    /// Exactly one of `orders` and `sizes` must be given.
    pub fn subhypergraph_by_orders(&self, orders: Option<Vec<usize>>, sizes: Option<Vec<usize>>, keep_nodes: bool) -> (r: Result<HypergraphRust, String>)
        requires
            self.wf(),
            self.nodes().len() + self.registry_cost() < usize::MAX,
        ensures
            r is Err <==> (orders is None) == (sizes is None),
            r matches Ok(sub) ==> {
                let wanted = wanted_sizes(orders, sizes);
                &&& sub.wf()
                &&& sub.weighted_mode() == self.weighted_mode()
                &&& sub.edges() == self.edges().filter(|s: Seq<usize>| wanted.contains(s.len()))
                &&& forall|s: Seq<usize>| #[trigger] sub.edges().contains(s) ==> sub.weights()[s] == self.weights()[s]
                &&& forall|n: usize| #[trigger] sub.nodes().contains(n) <==> (keep_nodes && self.nodes().contains(n))
                    || exists|s: Seq<usize>| #[trigger] sub.edges().contains(s) && s.contains(n)
            },
    {
        broadcast use vstd::std_specs::hash::group_hash_axioms;
        if orders.is_none() && sizes.is_none() {
            return Err(String::from_str("At least one of orders or sizes must be specified"));
        }
        if orders.is_some() && sizes.is_some() {
            return Err(String::from_str("Orders and sizes cannot both be specified."));
        }
        let ghost wanted = wanted_sizes(orders, sizes);
        let mut size_set: HashSet<usize> = HashSet::new();
        let given: Vec<usize> = match &orders {
            Some(o) => crate::entity::copy_nodes(o),
            None => match &sizes {
                Some(z) => crate::entity::copy_nodes(z),
                None => Vec::new(),
            },
        };
        let shift: bool = orders.is_some();
        let mut i: usize = 0;
        while i < given.len()
            invariant
                i <= given@.len(),
                shift == orders is Some,
                orders is Some ==> given@ == orders->Some_0@,
                orders is None ==> sizes is Some && given@ == sizes->Some_0@,
                forall|k: usize| #[trigger] size_set@.contains(k) ==> wanted.contains(k as nat),
                shift ==> forall|q: int| 0 <= q < i && given@[q] < usize::MAX ==> size_set@.contains((#[trigger] given@[q] + 1) as usize),
                !shift ==> forall|q: int| 0 <= q < i ==> size_set@.contains(#[trigger] given@[q]),
                wanted == wanted_sizes(orders, sizes),
            decreases given@.len() - i,
        {
            let g = given[i];
            if shift {
                if g < usize::MAX {
                    size_set.insert(g + 1);
                }
            } else {
                size_set.insert(g);
            }
            i = i + 1;
        }
        proof {
            assert forall|k: nat| #[trigger] wanted.contains(k) && k <= usize::MAX implies size_set@.contains(k as usize) by {
                if shift {
                    let q = choose|q: int| 0 <= q < given@.len() && given@[q] + 1 == k;
                    assert(given@[q] < usize::MAX);
                    assert(size_set@.contains((given@[q] + 1) as usize));
                } else {
                    let q = choose|q: int| 0 <= q < given@.len() && given@[q] == k;
                }
            }
        }
        let mut sub = HypergraphRust::empty(self.weighted);
        if keep_nodes {
            let nodes = self.get_nodes_without_metadata();
            proof {
                nodes@.unique_seq_to_set();
            }
            let mut t: usize = 0;
            while t < nodes.len()
                invariant
                    self.wf(),
                    sub.wf(),
                    t <= nodes@.len(),
                    nodes@.len() == self.nodes().len(),
                    nodes@.to_set() == self.nodes(),
                    sub.meta().next_id() <= t,
                    sub.nodes() == nodes@.subrange(0, t as int).to_set(),
                    sub.edges() == Set::<Seq<usize>>::empty(),
                    sub.weighted_mode() == self.weighted_mode(),
                    self.nodes().len() + self.registry_cost() < usize::MAX,
                decreases nodes@.len() - t,
            {
                let n = nodes[t];
                sub.add_node(n);
                if let Some(id) = self.attr.get_id_by_object(&Entity::Node(n)) {
                    if let Some(a) = self.attr.get_attributes(id) {
                        if let Some(sid) = sub.attr.get_id_by_object(&Entity::Node(n)) {
                            let _ = sub.set_meta(sid, a.copy());
                        }
                    }
                }
                proof {
                    assert(nodes@.subrange(0, t + 1) =~= nodes@.subrange(0, t as int).push(n));
                    nodes@.subrange(0, t as int).lemma_push_to_set_commute(n);
                    assert(sub.edges() =~= Set::<Seq<usize>>::empty());
                }
                t = t + 1;
            }
            assert(nodes@.subrange(0, t as int) =~= nodes@);
        } else {
            assert(sub.nodes() =~= Set::<usize>::empty());
        }
        proof {
            assert(self.edge_seq().subrange(0, self.edge_seq().len() as int) =~= self.edge_seq());
            assert(self.edge_seq().subrange(0, 0).filter(|s: Seq<usize>| wanted.contains(s.len())) =~= Seq::empty()) by {
                reveal(Seq::filter);
            }
            assert(Seq::<Seq<usize>>::empty().to_set() =~= Set::<Seq<usize>>::empty());
            self.lemma_wf_facts();
        }
        let ghost base = sub.nodes();
        let ghost keep = |s: Seq<usize>| wanted.contains(s.len());
        let mut k: usize = 0;
        while k < self.edge_list.len()
            invariant
                self.wf(),
                sub.wf(),
                k <= self.edge_list@.len(),
                keep == |s: Seq<usize>| wanted.contains(s.len()),
                forall|z: usize| #[trigger] size_set@.contains(z) ==> wanted.contains(z as nat),
                forall|z: nat| #[trigger] wanted.contains(z) && z <= usize::MAX ==> size_set@.contains(z as usize),
                base == (if keep_nodes { self.nodes() } else { Set::<usize>::empty() }),
                sub.weighted_mode() == self.weighted_mode(),
                sub.edges() == self.edge_seq().subrange(0, k as int).filter(keep).to_set(),
                forall|s: Seq<usize>| #[trigger] sub.edges().contains(s) ==> sub.weights()[s] == self.weights()[s],
                forall|n: usize| #[trigger] sub.nodes().contains(n) <==> base.contains(n)
                    || exists|s: Seq<usize>| #[trigger] sub.edges().contains(s) && s.contains(n),
                sub.meta().next_id() + batch_cost(self.edge_seq().subrange(k as int, self.edge_seq().len() as int)) <= base.len() + self.registry_cost(),
                base.len() <= self.nodes().len(),
                self.nodes().len() + self.registry_cost() < usize::MAX,
            decreases self.edge_list@.len() - k,
        {
            let ghost prev = sub;
            let ghost t = self.edge_seq()[k as int];
            proof {
                lemma_batch_cost_split(self.edge_seq().subrange(k as int, self.edge_seq().len() as int));
                assert(self.edge_seq().subrange(k as int, self.edge_seq().len() as int).drop_first()
                    =~= self.edge_seq().subrange(k + 1, self.edge_seq().len() as int));
                lemma_index_of_unique(self.edge_seq(), k as int, t);
                assert(self.edge_seq().subrange(0, k + 1) =~= self.edge_seq().subrange(0, k as int).push(t));
                self.edge_seq().subrange(0, k as int).lemma_filter_push(t, keep);
                lemma_filter_set(self.edge_seq().subrange(0, k as int), keep);
            }
            let len = self.edge_list[k].0.len();
            let inside = size_set.contains(&len);
            assert(inside == keep(t));
            if inside {
                let w = self.edge_list[k].1;
                let members = crate::entity::copy_nodes(&self.edge_list[k].0);
                let again = crate::entity::copy_nodes(&self.edge_list[k].0);
                let meta: Option<Attributes> = match self.attr.get_attr(&Entity::Edge(crate::entity::copy_nodes(&self.edge_list[k].0))) {
                    Ok(a) => Some(a.copy()),
                    Err(_) => None,
                };
                let given_weight: Option<u64> = if sub.weighted { Some(w) } else { None };
                proof {
                    crate::edge::lemma_canonical_of_sorted(t);
                    assert(self.edges().contains(t));
                    assert(!prev.edges().contains(t)) by {
                        if prev.edges().contains(t) {
                            assert(self.edge_seq().subrange(0, k as int).filter(keep).contains(t));
                            self.edge_seq().subrange(0, k as int).lemma_filter_contains_rev(keep, t);
                            let z = choose|z: int| 0 <= z < k && self.edge_seq().subrange(0, k as int)[z] == t;
                            assert(self.edge_seq()[z] == t);
                        }
                    }
                }
                let _ = sub.add_edge(members, given_weight, meta);
                let ghost added = sub;
                let _ = sub.set_weight(again, w);
                proof {
                    assert(sub.edges() =~= self.edge_seq().subrange(0, k + 1).filter(keep).to_set()) by {
                        self.edge_seq().subrange(0, k as int).filter(keep).lemma_push_to_set_commute(t);
                    }
                    let id = choose|id: usize| {
                        &&& #[trigger] added.edge_id(id, t)
                        &&& added.adjacency() == add_to_buckets(prev.adjacency(), t, id)
                        &&& prev.meta().registered(EntityView::Edge(t)) ==> prev.edge_id(id, t)
                        &&& !prev.meta().registered(EntityView::Edge(t)) ==> id == prev.meta().next_id()
                            && added.meta().attrs().contains_key(id) && added.meta().attrs()[id] == crate::meta_handler::initial_attrs(
                                EntityView::Edge(t),
                                Some(seq!['e', 'd', 'g', 'e']),
                                crate::meta_handler::opt_attrs(meta),
                            )
                    };
                    assert forall|n: usize| #[trigger] sub.nodes().contains(n) == (prev.nodes().contains(n) || t.contains(n)) by {
                        assert(sub.adjacency() == added.adjacency());
                    }
                    assert forall|n: usize| #[trigger] sub.nodes().contains(n) <==> base.contains(n)
                        || exists|s: Seq<usize>| #[trigger] sub.edges().contains(s) && s.contains(n) by {
                        assert(sub.edges() =~= prev.edges().insert(t));
                        if t.contains(n) {
                            assert(sub.edges().contains(t));
                        }
                        if prev.nodes().contains(n) && !base.contains(n) {
                            let s = choose|s: Seq<usize>| #[trigger] prev.edges().contains(s) && s.contains(n);
                            assert(sub.edges().contains(s));
                        }
                        if exists|s: Seq<usize>| #[trigger] sub.edges().contains(s) && s.contains(n) {
                            let s = choose|s: Seq<usize>| #[trigger] sub.edges().contains(s) && s.contains(n);
                            if s != t {
                                assert(prev.edges().contains(s));
                                assert(prev.nodes().contains(n));
                            }
                        }
                    }
                }
            } else {
                proof {
                    assert(sub.edges() =~= self.edge_seq().subrange(0, k + 1).filter(keep).to_set());
                }
            }
            k = k + 1;
        }
        proof {
            assert(self.edge_seq().subrange(0, k as int) =~= self.edge_seq());
            lemma_filter_set(self.edge_seq(), keep);
            assert(self.edges() =~= self.edge_seq().to_set());
            assert(sub.edges() =~= self.edges().filter(keep));
        }
        Ok(sub)
    }
}

} // verus!
