//! Entities: identifiers of rows in archetypes.

use crate::archetype::ArchetypeIdx;
use crate::slot_map::lemma_insert;
use crate::slot_map::lemma_remove;
use crate::slot_map::lemma_set_at;
use crate::slot_map::{Key, SlotMap, SlotMapView};
use vstd::prelude::*;

verus! {

/// Identifier of an entity.
#[derive(Clone, Copy, PartialEq, Eq, Structural, PartialOrd, Ord, Hash, Debug)]
pub struct EntityId(pub Key);

impl EntityId {
    /// The identifier that never names a live entity.
    pub fn null() -> (id: EntityId)
        ensures
            id == EntityId(Key::spec_null()),
    {
        EntityId(Key::null())
    }

    /// The index of this identifier.
    pub fn index(self) -> (i: u32)
        ensures
            i == self.0.index(),
    {
        self.0.index()
    }

    /// The generation count of this identifier.
    pub fn generation(self) -> (g: u32)
        ensures
            g == self.0.generation(),
            g >= 1,
    {
        self.0.generation()
    }
}

/// Where an entity is stored: its archetype and its row there.
#[derive(Clone, Copy, PartialEq, Eq, Structural, Hash, Debug)]
pub struct EntityLocation {
    pub archetype: ArchetypeIdx,
    pub row: usize,
}

/// The live entities and where each is stored.
#[derive(Debug)]
pub struct Entities {
    locations: SlotMap<EntityLocation>,
}

impl View for Entities {
    type V = SlotMapView<EntityLocation>;

    closed spec fn view(&self) -> SlotMapView<EntityLocation> {
        self.locations@
    }
}

impl Entities {
    /// The table is valid when its state is well formed.
    pub open spec fn wf(&self) -> bool {
        self@.wf()
    }

    /// No entities.
    pub fn new() -> (e: Entities)
        ensures
            e@ == SlotMapView::<EntityLocation>::empty(),
            e.wf(),
    {
        Entities { locations: SlotMap::new() }
    }

    /// Whether `id` identifies a live entity.
    pub fn contains(&self, id: EntityId) -> (r: bool)
        ensures
            r == self@.contains(id.0),
    {
        self.locations.contains(id.0)
    }

    /// Where the entity `id` is stored; `None` when it is not live.
    pub fn get(&self, id: EntityId) -> (r: Option<EntityLocation>)
        ensures
            r == self@.get(id.0),
    {
        match self.locations.get(id.0) {
            Some(l) => Some(*l),
            None => None,
        }
    }

    /// The identifiers of all live entities, by ascending index.
    pub fn ids(&self) -> (r: Vec<Key>)
        requires
            self.wf(),
        ensures
            r@ == self@.keys(),
    {
        self.locations.keys()
    }

    /// The identifier that the next added entity gets, if any is left.
    pub fn next_id(&self) -> (r: Option<EntityId>)
        requires
            self.wf(),
        ensures
            r is Some <==> self@.next_key() is Some,
            r matches Some(id) ==> self@.next_key() == Some(id.0),
    {
        match self.locations.next_key() {
            Some(k) => Some(EntityId(k)),
            None => None,
        }
    }

    /// Adds an entity stored at `location`; `None`, with the table unchanged,
    /// when no identifier is left.
    pub fn add(&mut self, location: EntityLocation) -> (r: Option<EntityId>)
        requires
            old(self).wf(),
        ensures
            final(self).wf(),
            r is Some <==> old(self)@.next_key() is Some,
            r matches Some(id) ==> old(self)@.next_key() == Some(id.0),
            final(self)@ == old(self)@.insert(location),
    {
        match self.locations.insert(location) {
            Some(k) => Some(EntityId(k)),
            None => None,
        }
    }

    /// Removes the entity `id` and returns where it was stored; `None`, with
    /// the table unchanged, when it is not live.
    pub fn remove(&mut self, id: EntityId) -> (r: Option<EntityLocation>)
        requires
            old(self).wf(),
        ensures
            final(self).wf(),
            r == old(self)@.get(id.0),
            final(self)@ == old(self)@.remove(id.0),
    {
        self.locations.remove(id.0)
    }

    /// Records that the live entity `id` is now stored at `location`. Nothing
    /// changes when `id` is not live.
    pub fn set_location(&mut self, id: EntityId, location: EntityLocation)
        requires
            old(self).wf(),
        ensures
            final(self).wf(),
            final(self)@ == (if old(self)@.contains(id.0) {
                old(self)@.set_at(id.0.index(), location)
            } else {
                old(self)@
            }),
    {
        if self.locations.contains(id.0) {
            proof {
                lemma_set_at(self@, id.0.index(), location);
            }
            match self.locations.get_by_index_mut(id.0.index()) {
                Some(l) => {
                    *l = location;
                },
                None => {},
            }
        }
    }
}

} // verus!
