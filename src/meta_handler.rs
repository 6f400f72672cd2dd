//! The identity registry: a two-way mapping between objects and dense,
//! never reused integer identities, with an attribute map per identity.

use std::collections::HashMap;
use vstd::prelude::*;
use crate::attributes::Attributes;
use crate::entity::{entity_name, Entity, EntityView};

verus! {

broadcast use vstd::std_specs::hash::group_hash_axioms;

/// The attributes that a newly registered object starts with: its kind under
/// `"type"` (when one is given), its text form under `"name"`, then the
/// supplied attributes on top.
pub open spec fn initial_attrs(
    obj: EntityView,
    obj_type: Option<Seq<char>>,
    extra: Map<Seq<char>, Seq<char>>,
) -> Map<Seq<char>, Seq<char>> {
    let typed = match obj_type {
        Some(t) => Map::empty().insert(seq!['t', 'y', 'p', 'e'], t),
        None => Map::empty(),
    };
    typed.insert(seq!['n', 'a', 'm', 'e'], entity_name(obj)).union_prefer_right(extra)
}

/// The text of an optional string.
pub open spec fn opt_text(o: Option<String>) -> Option<Seq<char>> {
    match o {
        Some(t) => Some(t@),
        None => None,
    }
}

/// The map of optional attributes; none stands for the empty map.
pub open spec fn opt_attrs(o: Option<Attributes>) -> Map<Seq<char>, Seq<char>> {
    match o {
        Some(a) => a@,
        None => Map::empty(),
    }
}

/// Registry of objects, each with an identity and an attribute map.
#[derive(Clone, Debug)]
pub struct MetaHandler {
    /// The object of each identity handed out so far; `None` once removed.
    id_2_obj: Vec<Option<Entity>>,
    /// The attribute map of each identity that has one.
    attr: HashMap<usize, Attributes>,
}

impl MetaHandler {
    /// The identity that the next new object receives.
    pub closed spec fn next_id(&self) -> nat {
        self.id_2_obj@.len()
    }

    /// The registered objects, by identity.
    pub closed spec fn objects(&self) -> Map<usize, EntityView> {
        Map::new(
            |i: usize| i < self.id_2_obj@.len() && self.id_2_obj@[i as int] is Some,
            |i: usize| self.id_2_obj@[i as int]->Some_0@,
        )
    }

    /// The attribute maps, by identity.
    pub closed spec fn attrs(&self) -> Map<usize, Map<Seq<char>, Seq<char>>> {
        Map::new(|i: usize| self.attr@.contains_key(i), |i: usize| self.attr@[i]@)
    }

    /// Every object has one identity, below the next one.
    pub open spec fn wf(&self) -> bool {
        &&& forall|i: usize| #[trigger] self.objects().contains_key(i) ==> i < self.next_id()
        &&& forall|i: usize, j: usize|
            #[trigger] self.objects().contains_key(i) && #[trigger] self.objects().contains_key(j)
                && self.objects()[i] == self.objects()[j] ==> i == j
    }

    /// Whether `obj` is registered.
    pub open spec fn registered(&self, obj: EntityView) -> bool {
        exists|i: usize| #[trigger] self.objects().contains_key(i) && self.objects()[i] == obj
    }

    /// Whether `i` is the identity of `obj`.
    pub open spec fn is_id_of(&self, i: usize, obj: EntityView) -> bool {
        self.objects().contains_key(i) && self.objects()[i] == obj
    }

    /// An empty registry.
    pub fn new() -> (r: MetaHandler)
        ensures
            r.wf(),
            r.next_id() == 0,
            r.objects() == Map::<usize, EntityView>::empty(),
            r.attrs() == Map::<usize, Map<Seq<char>, Seq<char>>>::empty(),
    {
        let r = MetaHandler { id_2_obj: Vec::new(), attr: HashMap::new() };
        assert(r.objects() =~= Map::<usize, EntityView>::empty());
        assert(r.attrs() =~= Map::<usize, Map<Seq<char>, Seq<char>>>::empty());
        r
    }

    /// The identity of `obj`, if it is registered.
    pub fn get_id_by_object(&self, obj: &Entity) -> (r: Option<usize>)
        requires
            self.wf(),
        ensures
            match r {
                Some(i) => self.is_id_of(i, obj@),
                None => !self.registered(obj@),
            },
    {
        let mut i: usize = 0;
        while i < self.id_2_obj.len()
            invariant
                i <= self.id_2_obj@.len(),
                forall|j: usize| j < i ==> !self.is_id_of(j, obj@),
            decreases self.id_2_obj@.len() - i,
        {
            match &self.id_2_obj[i] {
                Some(o) => {
                    if o.same(obj) {
                        return Some(i);
                    }
                },
                None => {},
            }
            i = i + 1;
        }
        assert forall|j: usize| #[trigger] self.objects().contains_key(j) implies self.objects()[j]
            != obj@ by {
            assert(!self.is_id_of(j, obj@));
        }
        assert(!self.registered(obj@));
        None
    }

    /// Registers `obj` and returns its identity. An object already known keeps
    /// its identity and its attributes, and the call changes nothing. A new one
    /// receives the next identity and the attributes of [`initial_attrs`].
    pub fn add_obj(
        &mut self,
        obj: Entity,
        obj_type: Option<String>,
        attributes: Option<Attributes>,
    ) -> (r: usize)
        requires
            old(self).wf(),
            old(self).next_id() < usize::MAX,
        ensures
            final(self).wf(),
            old(self).registered(obj@) ==> *final(self) == *old(self) && old(self).is_id_of(r, obj@),
            !old(self).registered(obj@) ==> {
                &&& r == old(self).next_id()
                &&& final(self).next_id() == old(self).next_id() + 1
                &&& final(self).objects() == old(self).objects().insert(r, obj@)
                &&& final(self).attrs() == old(self).attrs().insert(
                    r,
                    initial_attrs(obj@, opt_text(obj_type), opt_attrs(attributes)),
                )
            },
    {
        if let Some(existing) = self.get_id_by_object(&obj) {
            return existing;
        }
        let obj_id = self.id_2_obj.len();
        let mut combined = Attributes::new();
        proof {
            reveal_strlit("type");
            reveal_strlit("name");
        }
        let ghost t = opt_text(obj_type);
        if let Some(ty) = obj_type {
            let key = String::from_str("type");
            assert(key@ == seq!['t', 'y', 'p', 'e']);
            combined.insert(key, ty);
        }
        let ghost typed = combined@;
        assert(typed =~= match t {
            Some(tt) => Map::empty().insert(seq!['t', 'y', 'p', 'e'], tt),
            None => Map::empty(),
        });
        let key = String::from_str("name");
        assert(key@ == seq!['n', 'a', 'm', 'e']);
        combined.insert(key, obj.name());
        let ghost extra = opt_attrs(attributes);
        if let Some(attrs) = attributes {
            combined.extend(&attrs);
        }
        assert(combined@ =~= initial_attrs(obj@, t, extra));
        let ghost old_objects = self.objects();
        let ghost obj_view = obj@;
        self.id_2_obj.push(Some(obj));
        self.attr.insert(obj_id, combined);
        proof {
            assert(self.objects() =~= old_objects.insert(obj_id, obj_view));
            assert(self.attrs() =~= old(self).attrs().insert(obj_id, initial_attrs(obj_view, t, extra)));
        }
        obj_id
    }

    /// The identity of `obj`, or an error naming it when it is not registered.
    pub fn get_id(&self, obj: &Entity) -> (r: Result<usize, String>)
        requires
            self.wf(),
        ensures
            match r {
                Ok(i) => self.is_id_of(i, obj@),
                Err(_) => !self.registered(obj@),
            },
    {
        match self.get_id_by_object(obj) {
            Some(i) => Ok(i),
            None => Err(missing_message(obj)),
        }
    }

    /// Sets each attribute of `new_attr` on the registered object `obj`,
    /// keeping its other attributes.
    pub fn set_attr(&mut self, obj: &Entity, new_attr: Attributes) -> (r: Result<(), String>)
        requires
            old(self).wf(),
        ensures
            final(self).wf(),
            final(self).next_id() == old(self).next_id(),
            final(self).objects() == old(self).objects(),
            r is Ok <==> old(self).registered(obj@),
            r is Err ==> final(self).attrs() == old(self).attrs(),
            forall|i: usize| #[trigger] old(self).is_id_of(i, obj@) ==> final(self).attrs()
                == old(self).attrs().insert(
                i,
                if old(self).attrs().contains_key(i) {
                    old(self).attrs()[i]
                } else {
                    Map::empty()
                }.union_prefer_right(new_attr@),
            ),
    {
        let id = match self.get_id(obj) {
            Ok(id) => id,
            Err(e) => return Err(e),
        };
        let mut attributes = match self.attr.remove(&id) {
            Some(a) => a,
            None => Attributes::new(),
        };
        attributes.extend(&new_attr);
        self.attr.insert(id, attributes);
        proof {
            assert forall|i: usize| #[trigger] old(self).is_id_of(i, obj@) implies i == id by {}
            assert(self.attrs() =~= old(self).attrs().insert(
                id,
                if old(self).attrs().contains_key(id) {
                    old(self).attrs()[id]
                } else {
                    Map::empty()
                }.union_prefer_right(new_attr@),
            ));
        }
        Ok(())
    }

    /// The attribute map of the registered object `obj`.
    pub fn get_attr(&self, obj: &Entity) -> (r: Result<&Attributes, String>)
        requires
            self.wf(),
        ensures
            match r {
                Ok(a) => exists|i: usize| #[trigger] self.is_id_of(i, obj@)
                    && self.attrs().contains_key(i) && a@ == self.attrs()[i],
                Err(_) => forall|i: usize| #[trigger] self.is_id_of(i, obj@)
                    ==> !self.attrs().contains_key(i),
            },
    {
        let idx = match self.get_id(obj) {
            Ok(idx) => idx,
            Err(e) => return Err(e),
        };
        match self.attr.get(&idx) {
            Some(a) => Ok(a),
            None => Err(missing_message(obj)),
        }
    }

    /// The object with identity `obj_id`.
    pub fn get_object_by_id(&self, obj_id: usize) -> (r: Option<&Entity>)
        ensures
            match r {
                Some(o) => self.objects().contains_key(obj_id) && o@ == self.objects()[obj_id],
                None => !self.objects().contains_key(obj_id),
            },
    {
        if obj_id < self.id_2_obj.len() {
            match &self.id_2_obj[obj_id] {
                Some(o) => Some(o),
                None => None,
            }
        } else {
            None
        }
    }

    /// The attribute map of identity `obj_id`.
    pub fn get_attributes(&self, obj_id: usize) -> (r: Option<&Attributes>)
        ensures
            match r {
                Some(a) => self.attrs().contains_key(obj_id) && a@ == self.attrs()[obj_id],
                None => !self.attrs().contains_key(obj_id),
            },
    {
        self.attr.get(&obj_id)
    }

    /// Replaces the attribute map of identity `obj_id` by `attr`.
    pub fn set_attributes_by_id(&mut self, obj_id: usize, attr: Attributes)
        requires
            old(self).wf(),
        ensures
            final(self).wf(),
            final(self).next_id() == old(self).next_id(),
            final(self).objects() == old(self).objects(),
            final(self).attrs() == old(self).attrs().insert(obj_id, attr@),
    {
        let ghost a = attr@;
        self.attr.insert(obj_id, attr);
        assert(self.objects() =~= old(self).objects());
        assert(self.attrs() =~= old(self).attrs().insert(obj_id, a));
    }

    /// Removes `obj` and its attribute map. Its identity is not handed out again.
    pub fn remove_object(&mut self, obj: &Entity) -> (r: Result<(), String>)
        requires
            old(self).wf(),
        ensures
            final(self).wf(),
            final(self).next_id() == old(self).next_id(),
            r is Ok <==> old(self).registered(obj@),
            r is Err ==> *final(self) == *old(self),
            forall|i: usize| #[trigger] old(self).is_id_of(i, obj@) ==> {
                &&& final(self).objects() == old(self).objects().remove(i)
                &&& final(self).attrs() == old(self).attrs().remove(i)
            },
    {
        match self.get_id_by_object(obj) {
            Some(idx) => {
                self.id_2_obj.set(idx, None);
                self.attr.remove(&idx);
                proof {
                    assert forall|i: usize| #[trigger] old(self).is_id_of(i, obj@) implies i == idx by {}
                    assert(self.objects() =~= old(self).objects().remove(idx));
                    assert(self.attrs() =~= old(self).attrs().remove(idx));
                }
                Ok(())
            },
            None => Err(missing_message(obj)),
        }
    }

    /// A copy of this registry.
    pub fn copy(&self) -> (r: MetaHandler)
        ensures
            r.next_id() == self.next_id(),
            r.objects() == self.objects(),
            r.attrs() == self.attrs(),
            self.wf() ==> r.wf(),
    {
        let mut objs: Vec<Option<Entity>> = Vec::with_capacity(self.id_2_obj.len());
        let mut i: usize = 0;
        while i < self.id_2_obj.len()
            invariant
                i <= self.id_2_obj@.len(),
                objs@.len() == i,
                forall|j: int| 0 <= j < i ==> (#[trigger] objs@[j] is Some) == (self.id_2_obj@[j] is Some)
                    && (objs@[j] is Some ==> objs@[j]->Some_0@ == self.id_2_obj@[j]->Some_0@),
            decreases self.id_2_obj@.len() - i,
        {
            let o = match &self.id_2_obj[i] {
                Some(e) => Some(e.copy()),
                None => None,
            };
            objs.push(o);
            i = i + 1;
        }
        let r = MetaHandler { id_2_obj: objs, attr: self.attr.clone() };
        assert(r.objects() =~= self.objects());
        assert(r.attrs() =~= self.attrs());
        r
    }
}

/// The message of a lookup that found no object.
fn missing_message(obj: &Entity) -> (r: String) {
    let mut s = String::from_str("No object ");
    let name = obj.name();
    s.append(name.as_str());
    s.append(".");
    s
}

} // verus!
