//! String-to-string attribute maps attached to registered objects.

use vstd::prelude::*;

verus! {

/// The value in force for key `k` in a list of pairs: that of the first pair
/// whose key is `k`.
pub open spec fn find_value(s: Seq<(Seq<char>, Seq<char>)>, k: Seq<char>) -> Option<Seq<char>>
    decreases s.len(),
{
    if s.len() == 0 {
        None
    } else if s[0].0 == k {
        Some(s[0].1)
    } else {
        find_value(s.drop_first(), k)
    }
}

/// The map that a list of pairs stands for.
pub open spec fn pairs_map(s: Seq<(Seq<char>, Seq<char>)>) -> Map<Seq<char>, Seq<char>> {
    Map::new(|k: Seq<char>| find_value(s, k) is Some, |k: Seq<char>| find_value(s, k)->Some_0)
}

pub proof fn lemma_find_first(s: Seq<(Seq<char>, Seq<char>)>, k: Seq<char>, i: int)
    requires
        0 <= i < s.len(),
        s[i].0 == k,
        forall|j: int| 0 <= j < i ==> s[j].0 != k,
    ensures
        find_value(s, k) == Some(s[i].1),
    decreases i,
{
    if i > 0 {
        lemma_find_first(s.drop_first(), k, i - 1);
    }
}

pub proof fn lemma_find_absent(s: Seq<(Seq<char>, Seq<char>)>, k: Seq<char>)
    requires
        forall|j: int| 0 <= j < s.len() ==> s[j].0 != k,
    ensures
        find_value(s, k) is None,
    decreases s.len(),
{
    if s.len() > 0 {
        lemma_find_absent(s.drop_first(), k);
    }
}

/// Replacing the value of the first pair with key `s[i].0` changes that key only.
pub proof fn lemma_find_update(s: Seq<(Seq<char>, Seq<char>)>, i: int, v: Seq<char>, k: Seq<char>)
    requires
        0 <= i < s.len(),
        forall|j: int| 0 <= j < i ==> s[j].0 != s[i].0,
    ensures
        find_value(s.update(i, (s[i].0, v)), k) == if k == s[i].0 {
            Some(v)
        } else {
            find_value(s, k)
        },
    decreases i,
{
    let t = s.update(i, (s[i].0, v));
    if i == 0 {
        assert(t.drop_first() =~= s.drop_first());
    } else {
        assert(t.drop_first() =~= s.drop_first().update(i - 1, (s[i].0, v)));
        lemma_find_update(s.drop_first(), i - 1, v, k);
    }
}

/// A pair pushed at the end matters only for a key that no earlier pair has.
pub proof fn lemma_find_push(s: Seq<(Seq<char>, Seq<char>)>, p: (Seq<char>, Seq<char>), k: Seq<char>)
    ensures
        find_value(s.push(p), k) == if find_value(s, k) is Some {
            find_value(s, k)
        } else if p.0 == k {
            Some(p.1)
        } else {
            None::<Seq<char>>
        },
    decreases s.len(),
{
    if s.len() > 0 {
        assert(s.push(p)[0] == s[0]);
        assert(s.push(p).drop_first() =~= s.drop_first().push(p));
        lemma_find_push(s.drop_first(), p, k);
    } else {
        assert(s.push(p)[0] == p);
        assert(s.push(p).drop_first() =~= Seq::<(Seq<char>, Seq<char>)>::empty());
        assert(find_value(Seq::<(Seq<char>, Seq<char>)>::empty(), k) is None);
    }
}

/// The character sequences of a list of string pairs.
pub open spec fn views_of(v: Seq<(String, String)>) -> Seq<(Seq<char>, Seq<char>)> {
    v.map_values(|p: (String, String)| (p.0@, p.1@))
}

/// A map from attribute names to values, kept as a list of pairs in which
/// each key has one pair.
#[derive(Clone, Debug)]
pub struct Attributes {
    entries: Vec<(String, String)>,
}

impl View for Attributes {
    type V = Map<Seq<char>, Seq<char>>;

    open spec fn view(&self) -> Map<Seq<char>, Seq<char>> {
        pairs_map(self.pair_views())
    }
}

impl Attributes {
    /// The stored pairs, as character sequences.
    pub closed spec fn pair_views(&self) -> Seq<(Seq<char>, Seq<char>)> {
        views_of(self.entries@)
    }

    /// An empty attribute map.
    pub fn new() -> (r: Attributes)
        ensures
            r@ == Map::<Seq<char>, Seq<char>>::empty(),
    {
        let r = Attributes { entries: Vec::new() };
        assert(r@ =~= Map::<Seq<char>, Seq<char>>::empty());
        r
    }

    /// Position of the pair with key `key`, if there is one.
    fn position(&self, key: &String) -> (r: Option<usize>)
        ensures
            match r {
                Some(i) => i < self.entries@.len() && self.pair_views()[i as int].0 == key@
                    && forall|j: int| 0 <= j < i ==> self.pair_views()[j].0 != key@,
                None => forall|j: int| 0 <= j < self.entries@.len() ==> self.pair_views()[j].0 != key@,
            },
    {
        let mut i: usize = 0;
        while i < self.entries.len()
            invariant
                i <= self.entries@.len(),
                forall|j: int| 0 <= j < i ==> self.pair_views()[j].0 != key@,
            decreases self.entries@.len() - i,
        {
            if self.entries[i].0 == *key {
                return Some(i);
            }
            i = i + 1;
        }
        None
    }

    /// The value stored under `key`.
    pub fn get(&self, key: &String) -> (r: Option<&String>)
        ensures
            match r {
                Some(v) => self@.contains_key(key@) && self@[key@] == v@,
                None => !self@.contains_key(key@),
            },
    {
        match self.position(key) {
            Some(i) => {
                proof {
                    lemma_find_first(self.pair_views(), key@, i as int);
                }
                Some(&self.entries[i].1)
            },
            None => {
                proof {
                    lemma_find_absent(self.pair_views(), key@);
                }
                None
            },
        }
    }

    /// Whether `key` has a value.
    pub fn contains_key(&self, key: &String) -> (r: bool)
        ensures
            r == self@.contains_key(key@),
    {
        self.get(key).is_some()
    }

    /// Sets the value of `key`, replacing any earlier one.
    pub fn insert(&mut self, key: String, value: String)
        ensures
            final(self)@ == old(self)@.insert(key@, value@),
    {
        let ghost s = self.pair_views();
        match self.position(&key) {
            Some(i) => {
                self.entries.set(i, (key, value));
                proof {
                    assert(self.pair_views() =~= s.update(i as int, (s[i as int].0, value@)));
                    assert forall|k: Seq<char>|
                        find_value(self.pair_views(), k) == if k == key@ {
                            Some(value@)
                        } else {
                            find_value(s, k)
                        } by {
                        lemma_find_update(s, i as int, value@, k);
                    }
                    assert(self@ =~= old(self)@.insert(key@, value@));
                }
            },
            None => {
                let ghost p = (key@, value@);
                self.entries.push((key, value));
                proof {
                    assert(self.pair_views() =~= s.push(p));
                    lemma_find_absent(s, p.0);
                    assert forall|k: Seq<char>|
                        find_value(self.pair_views(), k) == if k == p.0 {
                            Some(p.1)
                        } else {
                            find_value(s, k)
                        } by {
                        lemma_find_push(s, p, k);
                    }
                    assert(self@ =~= old(self)@.insert(key@, value@));
                }
            },
        }
    }

    /// Sets every value of `other` in `self`; where both have a key, the
    /// value of `other` wins.
    pub fn extend(&mut self, other: &Attributes)
        ensures
            final(self)@ == old(self)@.union_prefer_right(other@),
    {
        let ghost s = other.pair_views();
        let n = other.entries.len();
        let mut i: usize = n;
        while i > 0
            invariant
                i <= n,
                n == other.entries@.len(),
                s == other.pair_views(),
                self@ == old(self)@.union_prefer_right(pairs_map(s.subrange(i as int, n as int))),
            decreases i,
        {
            let ghost before = self@;
            let key = other.entries[i - 1].0.clone();
            let value = other.entries[i - 1].1.clone();
            self.insert(key, value);
            proof {
                let t = s.subrange(i - 1, n as int);
                assert(t.drop_first() =~= s.subrange(i as int, n as int));
                assert(pairs_map(t) =~= pairs_map(s.subrange(i as int, n as int)).insert(
                    s[i - 1].0,
                    s[i - 1].1,
                ));
            }
            i = i - 1;
            assert(self@ =~= old(self)@.union_prefer_right(
                pairs_map(s.subrange(i as int, n as int)),
            ));
        }
        assert(s.subrange(0, n as int) =~= s);
    }

    /// A copy of this map.
    pub fn copy(&self) -> (r: Attributes)
        ensures
            r@ == self@,
    {
        let mut entries: Vec<(String, String)> = Vec::new();
        let mut i: usize = 0;
        while i < self.entries.len()
            invariant
                i <= self.entries@.len(),
                views_of(entries@) =~= self.pair_views().subrange(0, i as int),
            decreases self.entries@.len() - i,
        {
            let k = self.entries[i].0.clone();
            let v = self.entries[i].1.clone();
            let ghost before = entries@;
            entries.push((k, v));
            proof {
                assert(self.pair_views()[i as int] == (k@, v@));
                assert(entries@ == before.push((k, v)));
                assert(views_of(entries@) =~= views_of(before).push((k@, v@)));
                assert(self.pair_views().subrange(0, i + 1) =~= self.pair_views().subrange(
                    0,
                    i as int,
                ).push((k@, v@)));
            }
            i = i + 1;
        }
        let r = Attributes { entries };
        assert(r.pair_views() =~= self.pair_views());
        r
    }

    /// The stored pairs. Each key has one pair.
    pub fn pairs(&self) -> (r: &Vec<(String, String)>)
        ensures
            views_of(r@) == self.pair_views(),
            pairs_map(self.pair_views()) == self@,
    {
        &self.entries
    }
}

} // verus!
