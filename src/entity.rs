//! The objects that the registry knows: nodes and edges, with their text form.

use vstd::prelude::*;

verus! {

/// An object of the registry: a node, or an edge given by its member list.
#[derive(Clone, Debug)]
pub enum Entity {
    Node(usize),
    Edge(Vec<usize>),
}

/// What an [`Entity`] stands for.
pub enum EntityView {
    Node(usize),
    Edge(Seq<usize>),
}

impl View for Entity {
    type V = EntityView;

    open spec fn view(&self) -> EntityView {
        match self {
            Entity::Node(n) => EntityView::Node(*n),
            Entity::Edge(v) => EntityView::Edge(v@),
        }
    }
}

/// The character of a decimal digit.
pub open spec fn digit_char(d: nat) -> char {
    if d == 0 { '0' } else if d == 1 { '1' } else if d == 2 { '2' } else if d == 3 { '3' }
    else if d == 4 { '4' } else if d == 5 { '5' } else if d == 6 { '6' } else if d == 7 { '7' }
    else if d == 8 { '8' } else { '9' }
}

/// The decimal notation of `n`, without leading zeros.
pub open spec fn decimal(n: nat) -> Seq<char>
    decreases n,
{
    if n < 10 {
        seq![digit_char(n)]
    } else {
        decimal(n / 10).push(digit_char(n % 10))
    }
}

/// The members of a list in decimal, separated by `", "`.
pub open spec fn joined_decimals(s: Seq<usize>) -> Seq<char>
    decreases s.len(),
{
    if s.len() == 0 {
        Seq::empty()
    } else if s.len() == 1 {
        decimal(s[0] as nat)
    } else {
        joined_decimals(s.drop_last()) + seq![',', ' '] + decimal(s.last() as nat)
    }
}

/// The text form of an object: a node's number, or an edge's members as
/// `[1, 2, 3]`.
pub open spec fn entity_name(e: EntityView) -> Seq<char> {
    match e {
        EntityView::Node(n) => decimal(n as nat),
        EntityView::Edge(s) => seq!['['] + joined_decimals(s) + seq![']'],
    }
}

/// The text of decimal digit `d`.
fn digit_text(d: usize) -> (r: &'static str)
    requires
        d < 10,
    ensures
        r@ == seq![digit_char(d as nat)],
{
    if d == 0 {
        proof { reveal_strlit("0"); }
        "0"
    } else if d == 1 {
        proof { reveal_strlit("1"); }
        "1"
    } else if d == 2 {
        proof { reveal_strlit("2"); }
        "2"
    } else if d == 3 {
        proof { reveal_strlit("3"); }
        "3"
    } else if d == 4 {
        proof { reveal_strlit("4"); }
        "4"
    } else if d == 5 {
        proof { reveal_strlit("5"); }
        "5"
    } else if d == 6 {
        proof { reveal_strlit("6"); }
        "6"
    } else if d == 7 {
        proof { reveal_strlit("7"); }
        "7"
    } else if d == 8 {
        proof { reveal_strlit("8"); }
        "8"
    } else {
        proof { reveal_strlit("9"); }
        "9"
    }
}

/// The decimal digits of `n`, with no sign and no padding.
pub(crate) fn usize_text(n: usize) -> (r: String)
    ensures
        r@ == decimal(n as nat),
    decreases n,
{
    if n < 10 {
        String::from_str(digit_text(n))
    } else {
        let mut s = usize_text(n / 10);
        s.append(digit_text(n % 10));
        s
    }
}

/// Whether two lists of node identifiers are equal.
pub fn same_nodes(a: &Vec<usize>, b: &Vec<usize>) -> (r: bool)
    ensures
        r == (a@ == b@),
{
    if a.len() != b.len() {
        return false;
    }
    let mut i: usize = 0;
    while i < a.len()
        invariant
            a@.len() == b@.len(),
            i <= a@.len(),
            forall|j: int| 0 <= j < i ==> a@[j] == b@[j],
        decreases a@.len() - i,
    {
        if a[i] != b[i] {
            return false;
        }
        i = i + 1;
    }
    assert(a@ =~= b@);
    true
}

/// A copy of a list of node identifiers.
pub fn copy_nodes(v: &Vec<usize>) -> (r: Vec<usize>)
    ensures
        r@ == v@,
{
    let mut r: Vec<usize> = Vec::with_capacity(v.len());
    let mut i: usize = 0;
    while i < v.len()
        invariant
            i <= v@.len(),
            r@ =~= v@.subrange(0, i as int),
        decreases v@.len() - i,
    {
        r.push(v[i]);
        i = i + 1;
    }
    assert(r@ =~= v@);
    r
}

impl Entity {
    /// Whether `self` and `other` are the same object.
    pub fn same(&self, other: &Entity) -> (r: bool)
        ensures
            r == (self@ == other@),
    {
        match (self, other) {
            (Entity::Node(a), Entity::Node(b)) => *a == *b,
            (Entity::Edge(a), Entity::Edge(b)) => same_nodes(a, b),
            _ => false,
        }
    }

    /// A copy of this object.
    pub fn copy(&self) -> (r: Entity)
        ensures
            r@ == self@,
    {
        match self {
            Entity::Node(n) => Entity::Node(*n),
            Entity::Edge(v) => Entity::Edge(copy_nodes(v)),
        }
    }

    /// The text form of this object.
    pub fn name(&self) -> (r: String)
        ensures
            r@ == entity_name(self@),
    {
        match self {
            Entity::Node(n) => usize_text(*n),
            Entity::Edge(v) => {
                let mut s = String::from_str("[");
                proof {
                    reveal_strlit("[");
                    reveal_strlit(", ");
                    reveal_strlit("]");
                }
                let mut i: usize = 0;
                while i < v.len()
                    invariant
                        i <= v@.len(),
                        s@ == seq!['['] + joined_decimals(v@.subrange(0, i as int)),
                    decreases v@.len() - i,
                {
                    proof {
                        reveal_strlit(", ");
                    }
                    if i > 0 {
                        s.append(", ");
                    }
                    let d = usize_text(v[i]);
                    s.append(d.as_str());
                    proof {
                        let t = v@.subrange(0, i + 1);
                        assert(t.drop_last() =~= v@.subrange(0, i as int));
                        assert(t.last() == v@[i as int]);
                        assert(s@ =~= seq!['['] + joined_decimals(t));
                    }
                    i = i + 1;
                }
                proof {
                    reveal_strlit("]");
                }
                s.append("]");
                assert(v@.subrange(0, v@.len() as int) =~= v@);
                s
            },
        }
    }
}

} // verus!
