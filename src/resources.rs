use std::collections::hash_map::Entry;
use std::collections::HashMap;
use vstd::prelude::*;

verus! {

broadcast use vstd::std_specs::hash::group_hash_axioms;

/// Identity of a resource type, chosen by the caller.
pub type ResourceId = u64;

/// At most one value per resource type, independent of any entity.
pub struct Resources<R> {
    resources: HashMap<ResourceId, R>,
}

impl<R> View for Resources<R> {
    type V = Map<ResourceId, R>;

    closed spec fn view(&self) -> Map<ResourceId, R> {
        self.resources@
    }
}

impl<R> Resources<R> {
    /// An empty store.
    pub fn new() -> (r: Self)
        ensures
            r@ == Map::<ResourceId, R>::empty(),
    {
        Resources { resources: HashMap::new() }
    }

    /// Stores `resource` as the value of resource type `id`, replacing any
    /// earlier one.
    pub fn add(&mut self, id: ResourceId, resource: R)
        ensures
            final(self)@ == old(self)@.insert(id, resource),
    {
        self.resources.insert(id, resource);
    }

    /// The value of resource type `id`, if there is one.
    pub fn get_ref(&self, id: ResourceId) -> (r: Option<&R>)
        ensures
            r.is_some() == self@.contains_key(id),
            r.is_some() ==> *r.unwrap() == self@[id],
    {
        self.resources.get(&id)
    }

    /// Mutable access to the value of resource type `id`, if there is one.
    pub fn get_mut(&mut self, id: ResourceId) -> (r: Option<&mut R>)
        ensures
            old(self)@.contains_key(id) ==> r.is_some() && *r.unwrap() == old(self)@[id]
                && final(self)@ == old(self)@.insert(id, *final(r.unwrap())),
            !old(self)@.contains_key(id) ==> r.is_none() && final(self)@ == old(self)@,
    {
        match self.resources.entry(id) {
            Entry::Occupied(entry) => Some(entry.into_mut()),
            Entry::Vacant(_) => None,
        }
    }

    /// Removes the value of resource type `id`, if there is one.
    pub fn delete(&mut self, id: ResourceId)
        ensures
            final(self)@ == old(self)@.remove(id),
    {
        self.resources.remove(&id);
    }
}

impl<R> Default for Resources<R> {
    fn default() -> (r: Self)
        ensures
            r@ == Map::<ResourceId, R>::empty(),
    {
        Resources::new()
    }
}

} // verus!
