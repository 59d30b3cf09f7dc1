//! The world: components, archetypes, entities, handlers and events, kept
//! consistent with each other.

use crate::access::InitError;
use crate::archetype::archetype_at;
use crate::archetype::find_composition;
use crate::archetype::has_room;
use crate::archetype::lemma_live_count_same;
use crate::archetype::live_count;
use crate::archetype::{ArchetypeIdx, Archetypes, Row};
use crate::component::{ComponentDescriptor, ComponentId, ComponentIdx, ComponentInfo, Components};
use crate::entity::{Entities, EntityId, EntityLocation};
use crate::event::{EventId, EventKind, Events};
use crate::handler::{HandlerConfig, HandlerId, HandlerInfo, Handlers};
use crate::slot_map::lemma_insert;
use crate::slot_map::lemma_remove;
use crate::slot_map::lemma_set_at;
use crate::slot_map::{Key, SlotMapView};
use crate::state::among_first;
use crate::state::depends_on;
use crate::state::lemma_add_component_wf;
use crate::state::lemma_add_event_wf;
use crate::state::lemma_add_handler_wf;
use crate::state::lemma_cascaded_end;
use crate::state::lemma_cascading_archetype;
use crate::state::lemma_cascading_event;
use crate::state::lemma_cascading_handlers;
use crate::state::lemma_cascading_start;
use crate::state::lemma_create_archetype_wf;
use crate::state::lemma_detach_archetype_wf;
use crate::state::lemma_detach_row;
use crate::state::lemma_move_wf;
use crate::state::lemma_remove_component_wf;
use crate::state::lemma_remove_event_wf;
use crate::state::lemma_remove_handler_wf;
use crate::state::lemma_replace_wf;
use crate::state::lemma_spawn_wf;
use crate::state::same_compositions;
use crate::state::lemma_world_precedes_transitive;
use crate::state::WorldView;
use vstd::prelude::*;

verus! {

/// An entity-component store.
#[derive(Debug)]
pub struct World<V> {
    components: Components,
    archetypes: Archetypes<V>,
    entities: Entities,
    handlers: Handlers,
    events: Events,
}

impl<V> View for World<V> {
    type V = WorldView<V>;

    closed spec fn view(&self) -> WorldView<V> {
        WorldView {
            components: self.components@,
            archetypes: self.archetypes@,
            entities: self.entities@,
            handlers: self.handlers@,
            events: self.events@,
        }
    }
}

impl<V> World<V> {
    /// What the tables keep beside their states is in order.
    pub closed spec fn tables_wf(&self) -> bool {
        self.components.table_wf() && self.archetypes.count_wf()
    }

    /// The world is valid.
    pub open spec fn wf(&self) -> bool {
        self@.wf() && self.tables_wf()
    }

    /// A world without components, entities, handlers or events. Its one
    /// archetype is the archetype without components.
    pub fn new() -> (w: World<V>)
        ensures
            w.wf(),
            w@.components == SlotMapView::<ComponentInfo>::empty(),
            w@.entities == SlotMapView::<EntityLocation>::empty(),
            w@.handlers == SlotMapView::<HandlerInfo>::empty(),
            w@.events == SlotMapView::<EventKind>::empty(),
            w@.archetypes.len() == 1,
            live_count(w@.archetypes) == 1,
    {
        let w = World {
            components: Components::new(),
            archetypes: Archetypes::new(),
            entities: Entities::new(),
            handlers: Handlers::new(),
            events: Events::new(),
        };
        proof {
            let v = w@;
            assert forall|a: int, c: int|
                #![trigger v.includes(a, c)]
                #![trigger v.member(c, a)]
                v.includes(a, c) <==> v.member(c, a) by {
                if v.includes(a, c) {
                    assert(a == 0);
                    assert(v.archetypes[0].unwrap().components@.len() == 0);
                }
            }
            assert forall|k: Key| #[trigger] v.location_ok(k) by {}
            assert forall|a: int, r: int| #[trigger] v.row_ok(a, r) by {}
            assert forall|i: int| #[trigger] v.handler_ok(i) by {}
            assert forall|i: int| #[trigger] v.event_ok(i) by {}
            assert forall|c: int| #[trigger] v.listed_ok(c) by {}
        }
        w
    }

    /// The component registry.
    pub fn components(&self) -> (r: &Components)
        ensures
            r@ == self@.components,
            self.wf() ==> r.wf(),
    {
        &self.components
    }

    /// The archetypes.
    pub fn archetypes(&self) -> (r: &Archetypes<V>)
        ensures
            r@ == self@.archetypes,
            self.wf() ==> r.wf(),
    {
        &self.archetypes
    }

    /// The entities.
    pub fn entities(&self) -> (r: &Entities)
        ensures
            r@ == self@.entities,
            self.wf() ==> r.wf(),
    {
        &self.entities
    }

    /// The handlers.
    pub fn handlers(&self) -> (r: &Handlers)
        ensures
            r@ == self@.handlers,
            self.wf() ==> r.wf(),
    {
        &self.handlers
    }

    /// The events.
    pub fn events(&self) -> (r: &Events)
        ensures
            r@ == self@.events,
            self.wf() ==> r.wf(),
    {
        &self.events
    }

    /// Registers the component that `desc` describes, unless `desc` has a type
    /// key under which a component is registered already. Returns the
    /// identifier of the component and whether it is new.
    pub fn add_component(&mut self, desc: ComponentDescriptor) -> (r: (ComponentId, bool))
        requires
            old(self).wf(),
            old(self)@.components.can_add(desc),
        ensures
            old(self)@.precedes(final(self)@),
            final(self).wf(),
            r == old(self)@.components.add_result(desc),
            old(self)@.components.added(desc, final(self)@.components),
            final(self)@.archetypes == old(self)@.archetypes,
            final(self)@.entities == old(self)@.entities,
            final(self)@.handlers == old(self)@.handlers,
            final(self)@.events == old(self)@.events,
    {
        let r = self.components.add(desc);
        proof {
            lemma_add_component_wf(old(self)@, desc, self@);
        }
        r
    }

    /// Whether one more entity can be added.
    pub fn can_spawn(&self) -> (r: bool)
        requires
            self.wf(),
        ensures
            r == self@.entities.next_key() is Some,
    {
        self.entities.next_id().is_some()
    }

    /// Adds an entity without components and returns its identifier.
    pub fn spawn(&mut self) -> (r: EntityId)
        requires
            old(self).wf(),
            old(self)@.entities.next_key() is Some,
        ensures
            old(self)@.precedes(final(self)@),
            final(self).wf(),
            old(self)@.entities.next_key() == Some(r.0),
            final(self)@.entities.contains(r.0),
            final(self)@.entities == old(self)@.entities.insert(
                EntityLocation {
                    archetype: ArchetypeIdx(0),
                    row: old(self)@.archetype(0).rows@.len() as usize,
                },
            ),
            forall|a: int| a != 0 ==> #[trigger] archetype_at(final(self)@.archetypes, a)
                == archetype_at(old(self)@.archetypes, a),
            final(self)@.archetypes.len() == old(self)@.archetypes.len(),
            same_compositions(old(self)@.archetypes, final(self)@.archetypes),
            final(self)@.archetype(0).rows@.len() == old(self)@.archetype(0).rows@.len() + 1,
            final(self)@.archetype(0).rows@.last().entity == r,
            forall|k: int|
                0 <= k < old(self)@.archetype(0).rows@.len()
                    ==> #[trigger] final(self)@.archetype(0).rows@[k]
                    == old(self)@.archetype(0).rows@[k],
            forall|d: int| !#[trigger] final(self)@.entity_has(r.0, d),
            final(self)@.components == old(self)@.components,
            final(self)@.handlers == old(self)@.handlers,
            final(self)@.events == old(self)@.events,
    {
        let id = match self.entities.next_id() {
            Some(id) => id,
            None => vstd::pervasive::unreached(),
        };
        let row = self.archetypes.push_row(ArchetypeIdx(0), id, Vec::new());
        self.entities.add(EntityLocation { archetype: ArchetypeIdx(0), row });
        proof {
            let pre = old(self)@;
            let post = self@;
            assert(post.archetype(0).rows@.last().entity == id);
            assert forall|r: int| 0 <= r < pre.archetype(0).rows@.len() implies #[trigger] post.archetype(
                0,
            ).rows@[r] == pre.archetype(0).rows@[r] by {}
            lemma_spawn_wf(pre, post, id);
            assert forall|a: int| 0 <= a < pre.archetypes.len() implies {
                &&& (#[trigger] post.archetypes[a]) is Some == pre.archetypes[a] is Some
                &&& post.archetypes[a] is Some ==> post.archetypes[a].unwrap().components@
                    == pre.archetypes[a].unwrap().components@
            } by {
                if a != 0 {
                    assert(archetype_at(post.archetypes, a) == archetype_at(pre.archetypes, a));
                }
            }
            lemma_insert(pre.entities, EntityLocation { archetype: ArchetypeIdx(0), row });
        }
        id
    }

    /// Stores a new archetype without entities whose composition is
    /// `components`, and names it in the member-of set of each of them.
    fn create_archetype(&mut self, components: Vec<ComponentIdx>) -> (r: ArchetypeIdx)
        requires
            old(self).wf(),
            has_room(old(self)@.archetypes),
            crate::archetype::strictly_ascending(components@),
            find_composition(old(self)@.archetypes, components@) is None,
            forall|j: int|
                0 <= j < components@.len() ==> old(self)@.components.occupied(
                    (#[trigger] components@[j]).0 as int,
                ),
        ensures
            old(self)@.precedes(final(self)@),
            final(self).wf(),
            archetype_at(old(self)@.archetypes, r.0 as int) is None,
            archetype_at(final(self)@.archetypes, r.0 as int) is Some,
            live_count(final(self)@.archetypes) == live_count(old(self)@.archetypes) + 1,
            old(self)@.archetypes.len() <= final(self)@.archetypes.len() <= old(
                self,
            )@.archetypes.len() + 1,
            final(self)@.archetype(r.0 as int).components@ == components@,
            final(self)@.archetype(r.0 as int).rows@.len() == 0,
            forall|a: int| a != r.0 ==> #[trigger] archetype_at(final(self)@.archetypes, a)
                == archetype_at(old(self)@.archetypes, a),
            final(self)@.entities == old(self)@.entities,
            final(self)@.handlers == old(self)@.handlers,
            final(self)@.events == old(self)@.events,
            final(self)@.components.same_but_members(old(self)@.components),
            forall|k: EntityId, c: ComponentId| #[trigger]
                final(self)@.component_value(k, c) == old(self)@.component_value(k, c),
            forall|k: Key, d: int| #[trigger]
                final(self)@.entity_has(k, d) == old(self)@.entity_has(k, d),
    {
        let ghost comps = components@;
        let n = components.len();
        let idx = self.archetypes.create(components);
        let ghost created = self.archetypes@;
        let mut i: usize = 0;
        while i < n
            invariant
                old(self).wf(),
                self.components.wf(),
                self.archetypes.wf(),
                self.archetypes@ == created,
                live_count(created) == live_count(old(self)@.archetypes) + 1,
                old(self)@.archetypes.len() <= created.len() <= old(self)@.archetypes.len() + 1,
                self.entities@ == old(self)@.entities,
                self.handlers@ == old(self)@.handlers,
                self.events@ == old(self)@.events,
                idx.0 < created.len(),
                created[idx.0 as int] is Some,
                created[idx.0 as int].unwrap().components@ == comps,
                archetype_at(old(self)@.archetypes, idx.0 as int) is None,
                crate::archetype::strictly_ascending(comps),
                n == comps.len(),
                i <= n,
                forall|j: int|
                    0 <= j < comps.len() ==> old(self)@.components.occupied(
                        (#[trigger] comps[j]).0 as int,
                    ),
                self.components@.same_but_members(old(self)@.components),
                forall|c: int, y: ArchetypeIdx|
                    old(self)@.components.occupied(c) ==> (
                    #[trigger] self.components@.info(c).member_of@.contains(y) <==> (old(
                        self,
                    )@.components.info(c).member_of@.contains(y) || (y == idx && among_first(
                        comps,
                        i as int,
                        c,
                    )))),
            decreases n - i,
        {
            let c = match self.archetypes.get(idx) {
                Some(arch) => arch.components[i],
                None => vstd::pervasive::unreached(),
            };
            let ghost before = self.components@;
            proof {
                assert(old(self)@.components.occupied(comps[i as int].0 as int));
                assert(before.slots[c.0 as int].value is Some == old(
                    self,
                )@.components.slots[c.0 as int].value is Some);
            }
            match self.components.get_by_index_mut(c) {
                Some(info) => {
                    info.member_of.insert(idx);
                },
                None => {},
            }
            proof {
                let now = self.components@;
                let first = old(self)@.components;
                assert(now.info(c.0 as int).same_but_members(before.info(c.0 as int)));
                assert(now.same_but_members(first)) by {
                    assert forall|d: int| 0 <= d < now.slots.len() implies {
                        &&& (#[trigger] now.slots[d]).generation == first.slots[d].generation
                        &&& now.slots[d].value is Some == first.slots[d].value is Some
                        &&& now.slots[d].value is Some ==> now.info(d).same_but_members(
                            first.info(d),
                        )
                    } by {
                        assert(before.slots[d].generation == first.slots[d].generation);
                    }
                }
                assert forall|d: int, y: ArchetypeIdx| first.occupied(d) implies (
                #[trigger] now.info(d).member_of@.contains(y) <==> (first.info(
                    d,
                ).member_of@.contains(y) || (y == idx && among_first(comps, i as int + 1, d)))) by {
                    assert(before.info(d).member_of@.contains(y) <==> (first.info(
                        d,
                    ).member_of@.contains(y) || (y == idx && among_first(comps, i as int, d))));
                    if d == c.0 {
                        assert(comps[i as int].0 == d);
                        assert(among_first(comps, i as int + 1, d));
                    } else {
                        assert(now.info(d) == before.info(d));
                        if among_first(comps, i as int + 1, d) {
                            let j = choose|j: int|
                                0 <= j < i as int + 1 && j < comps.len() && (#[trigger] comps[j]).0
                                    == d;
                            assert(j != i);
                            assert(among_first(comps, i as int, d));
                        }
                        if among_first(comps, i as int, d) {
                            let j = choose|j: int|
                                0 <= j < i as int && j < comps.len() && (#[trigger] comps[j]).0 == d;
                            assert(among_first(comps, i as int + 1, d));
                        }
                    }
                }
            }
            i = i + 1;
        }
        proof {
            lemma_create_archetype_wf(old(self)@, self@, idx);
        }
        idx
    }

    /// Takes the row of the live entity `entity` out of its archetype and
    /// forgets the entity. Returns the values of the row.
    fn detach(&mut self, entity: EntityId) -> (r: Row<V>)
        requires
            old(self).wf(),
            old(self)@.entities.contains(entity.0),
        ensures
            old(self)@.entities.remove(entity.0).precedes(final(self)@.entities),
            old(self)@.precedes(final(self)@),
            final(self).wf(),
            r == old(self)@.archetype(
                old(self)@.entities.get(entity.0).unwrap().archetype.0 as int,
            ).rows@[old(self)@.entities.get(entity.0).unwrap().row as int],
            !final(self)@.entities.contains(entity.0),
            forall|k: Key|
                k != entity.0 ==> #[trigger] final(self)@.entities.contains(k) == old(
                    self,
                )@.entities.contains(k),
            forall|k: EntityId, c: ComponentId|
                k != entity ==> #[trigger] final(self)@.component_value(k, c) == old(
                    self,
                )@.component_value(k, c),
            same_compositions(old(self)@.archetypes, final(self)@.archetypes),
            final(self)@.components == old(self)@.components,
            final(self)@.handlers == old(self)@.handlers,
            final(self)@.events == old(self)@.events,
    {
        let loc = match self.entities.get(entity) {
            Some(loc) => loc,
            None => vstd::pervasive::unreached(),
        };
        proof {
            assert(self@.location_ok(entity.0));
        }
        let row = self.archetypes.swap_remove_row(loc.archetype, loc.row);
        self.entities.remove(entity);
        let moved = match self.archetypes.get(loc.archetype) {
            Some(arch) => arch.entity_at(loc.row),
            None => None,
        };
        match moved {
            Some(m) => {
                proof {
                    let pre = old(self)@;
                    let rows = pre.archetype(loc.archetype.0 as int).rows@;
                    assert(m == rows.last().entity);
                    assert(pre.row_ok(loc.archetype.0 as int, rows.len() - 1));
                    lemma_remove(pre.entities, entity.0);
                    assert(m.0.index() != entity.0.index()) by {
                        if m.0.index() == entity.0.index() {
                            assert(m.0.generation() == entity.0.generation());
                            assert(m.0 == entity.0);
                        }
                    }
                    assert(self@.entities.get(m.0) == pre.entities.get(m.0));
                }
                self.entities.set_location(m, loc);
            },
            None => {},
        }
        proof {
            lemma_detach_row(old(self)@, self@, entity);
            let pre = old(self)@;
            let post = self@;
            assert forall|b: int| 0 <= b < pre.archetypes.len() implies {
                &&& (#[trigger] post.archetypes[b]) is Some == pre.archetypes[b] is Some
                &&& post.archetypes[b] is Some ==> post.archetypes[b].unwrap().components@
                    == pre.archetypes[b].unwrap().components@
            } by {
                if b != loc.archetype.0 {
                    assert(archetype_at(post.archetypes, b) == archetype_at(pre.archetypes, b));
                }
            }
        }
        row
    }

    /// Removes the entity `entity` with its values. Returns whether it was
    /// live. No other entity, and nothing else, changes.
    pub fn despawn(&mut self, entity: EntityId) -> (r: bool)
        requires
            old(self).wf(),
        ensures
            old(self)@.entities.remove(entity.0).precedes(final(self)@.entities),
            old(self)@.precedes(final(self)@),
            final(self).wf(),
            r == old(self)@.entities.contains(entity.0),
            !final(self)@.entities.contains(entity.0),
            forall|k: Key|
                k != entity.0 ==> #[trigger] final(self)@.entities.contains(k) == old(
                    self,
                )@.entities.contains(k),
            forall|k: EntityId, c: ComponentId|
                k != entity ==> #[trigger] final(self)@.component_value(k, c) == old(
                    self,
                )@.component_value(k, c),
            same_compositions(old(self)@.archetypes, final(self)@.archetypes),
            final(self)@.components == old(self)@.components,
            final(self)@.handlers == old(self)@.handlers,
            final(self)@.events == old(self)@.events,
    {
        if self.entities.contains(entity) {
            self.detach(entity);
            true
        } else {
            false
        }
    }

    /// Gives the entity `entity` the value `value` for the component
    /// `component`. Where the entity has the component already, the value
    /// replaces the one it had. Otherwise the entity moves to the archetype
    /// whose composition has that one component more, which is created if it
    /// does not exist; for that move there must be room for one more
    /// archetype. Returns `false`, with the world unchanged, when the entity
    /// or the component is not live.
    pub fn insert(&mut self, entity: EntityId, component: ComponentId, value: V) -> (r: bool)
        requires
            old(self).wf(),
            old(self)@.entities.contains(entity.0) && old(self)@.components.contains(component.0)
                && !old(self)@.entity_has(entity.0, component.0.index() as int) ==> has_room(
                old(self)@.archetypes,
            ),
        ensures
            old(self)@.precedes(final(self)@),
            final(self).wf(),
            r == (old(self)@.entities.contains(entity.0) && old(self)@.components.contains(
                component.0,
            )),
            r ==> final(self)@.component_value(entity, component) == Some(value),
            !r ==> final(self)@ == old(self)@,
            forall|k: Key| #[trigger]
                final(self)@.entities.contains(k) == old(self)@.entities.contains(k),
            forall|k: EntityId, d: ComponentId|
                !(k == entity && d == component) ==> #[trigger] final(self)@.component_value(k, d)
                    == old(self)@.component_value(k, d),
            r ==> final(self)@.entity_has(entity.0, component.0.index() as int),
            forall|a: int|
                archetype_at(old(self)@.archetypes, a) is Some ==> (#[trigger] archetype_at(
                    final(self)@.archetypes,
                    a,
                )) is Some && archetype_at(final(self)@.archetypes, a).unwrap().components@
                    == archetype_at(old(self)@.archetypes, a).unwrap().components@,
            forall|a: int|
                archetype_at(old(self)@.archetypes, a) is None && (#[trigger] archetype_at(
                    final(self)@.archetypes,
                    a,
                )) is Some ==> r && final(self)@.entities.get(entity.0).unwrap().archetype
                    == ArchetypeIdx(a as u32),
            live_count(old(self)@.archetypes) <= live_count(final(self)@.archetypes) <= live_count(
                old(self)@.archetypes,
            ) + 1,
            old(self)@.archetypes.len() <= final(self)@.archetypes.len() <= old(
                self,
            )@.archetypes.len() + 1,
            forall|k: Key, d: int|
                !(r && k == entity.0 && d == component.0.index())
                    ==> #[trigger] final(self)@.entity_has(k, d) == old(self)@.entity_has(k, d),
            final(self)@.components.same_but_members(old(self)@.components),
            final(self)@.handlers == old(self)@.handlers,
            final(self)@.events == old(self)@.events,
    {
        if !self.components.contains(component) {
            return false;
        }
        let loc = match self.entities.get(entity) {
            Some(loc) => loc,
            None => {
                return false;
            },
        };
        let c = component.index();
        proof {
            assert(self@.location_ok(entity.0));
        }
        let arch = match self.archetypes.get(loc.archetype) {
            Some(arch) => arch,
            None => vstd::pervasive::unreached(),
        };
        match arch.column_of(c) {
            Some(p) => {
                self.archetypes.replace_value(loc.archetype, loc.row, p, value);
                proof {
                    let pre = old(self)@;
                    assert(pre.row_ok(loc.archetype.0 as int, loc.row as int));
                    lemma_replace_wf(pre, self@, entity, component, value);
                    assert forall|a: int| 0 <= a < pre.archetypes.len() implies (
                    #[trigger] pre.archetypes[a]) is Some == self@.archetypes[a] is Some && (
                    pre.archetypes[a] is Some ==> self@.archetypes[a].unwrap().components@
                        == pre.archetypes[a].unwrap().components@) by {
                        if a != loc.archetype.0 {
                            assert(archetype_at(self@.archetypes, a) == archetype_at(
                                pre.archetypes,
                                a,
                            ));
                        }
                    }
                    lemma_live_count_same(pre.archetypes, self@.archetypes);
                }
                true
            },
            None => {
                let (wanted, place) = arch.components_with(c);
                proof {
                    let pre = old(self)@;
                    let source = pre.archetype(loc.archetype.0 as int).components@;
                    assert forall|j: int| 0 <= j < wanted@.len() implies pre.components.occupied(
                        (#[trigger] wanted@[j]).0 as int,
                    ) by {
                        if j == place {
                        } else {
                            let q = if j < place { j } else { j - 1 };
                            assert(wanted@[j] == source[q]);
                            assert(source.contains(source[q]));
                            assert(pre.includes(loc.archetype.0 as int, source[q].0 as int));
                            assert(pre.member(source[q].0 as int, loc.archetype.0 as int));
                        }
                    }
                }
                let target = match self.archetypes.find(&wanted) {
                    Some(t) => t,
                    None => self.create_archetype(wanted),
                };
                let ghost mid = self@;
                proof {
                    assert(archetype_at(mid.archetypes, loc.archetype.0 as int) == archetype_at(
                        old(self)@.archetypes,
                        loc.archetype.0 as int,
                    ));
                    assert(mid.location_ok(entity.0));
                    assert(mid.components.contains(component.0)) by {
                        assert(mid.components.slots[component.0.index() as int].generation == old(
                            self,
                        )@.components.slots[component.0.index() as int].generation);
                    }
                }
                let row = self.archetypes.swap_remove_row(loc.archetype, loc.row);
                let ghost swapped = self.archetypes@;
                proof {
                    let source = mid.archetype(loc.archetype.0 as int).components@;
                    assert(mid.archetype(target.0 as int).components@.len() == source.len() + 1);
                    assert(target.0 != loc.archetype.0);
                    assert(archetype_at(swapped, target.0 as int) == archetype_at(
                        mid.archetypes,
                        target.0 as int,
                    ));
                }
                let moved = match self.archetypes.get(loc.archetype) {
                    Some(arch) => arch.entity_at(loc.row),
                    None => None,
                };
                match moved {
                    Some(m) => {
                        self.entities.set_location(m, loc);
                    },
                    None => {},
                }
                let Row { entity: _, values } = row;
                let mut values = values;
                proof {
                    assert(mid.archetype(loc.archetype.0 as int).rows@[loc.row as int].values@.len()
                        == mid.archetype(loc.archetype.0 as int).components@.len());
                }
                values.insert(place, value);
                let there = self.archetypes.push_row(target, entity, values);
                self.entities.set_location(
                    entity,
                    EntityLocation { archetype: target, row: there },
                );
                proof {
                    let a = loc.archetype.0 as int;
                    let rows = mid.archetype(a).rows@;
                    assert(mid.row_ok(a, rows.len() - 1));
                    if loc.row < rows.len() - 1 {
                        lemma_set_at(mid.entities, rows.last().entity.0.index(), loc);
                    }
                    assert(self@.archetype(target.0 as int).rows@.last().entity == entity);
                    assert(archetype_at(self@.archetypes, a) == archetype_at(swapped, a));
                    assert forall|b: int| b != a && b != target.0 implies #[trigger] archetype_at(
                        self@.archetypes,
                        b,
                    ) == archetype_at(mid.archetypes, b) by {
                        assert(archetype_at(self@.archetypes, b) == archetype_at(swapped, b));
                        assert(archetype_at(swapped, b) == archetype_at(mid.archetypes, b));
                    }
                    lemma_move_wf(mid, self@, entity, component, value, target, place as int);
                    lemma_world_precedes_transitive(old(self)@, mid, self@);
                    let now = self@;
                    assert forall|b: int| 0 <= b < mid.archetypes.len() implies (
                    #[trigger] mid.archetypes[b]) is Some == now.archetypes[b] is Some && (
                    mid.archetypes[b] is Some ==> now.archetypes[b].unwrap().components@
                        == mid.archetypes[b].unwrap().components@) by {
                        if b != a && b != target.0 {
                            assert(archetype_at(now.archetypes, b) == archetype_at(
                                mid.archetypes,
                                b,
                            ));
                        }
                    }
                    lemma_live_count_same(mid.archetypes, now.archetypes);
                    lemma_set_at(
                        (if loc.row < rows.len() - 1 {
                            mid.entities.set_at(rows.last().entity.0.index(), loc)
                        } else {
                            mid.entities
                        }),
                        entity.0.index(),
                        EntityLocation { archetype: target, row: there },
                    );
                    assert(now.entities.get(entity.0).unwrap().archetype == target);
                    assert forall|b: int|
                        archetype_at(old(self)@.archetypes, b) is Some implies (
                    #[trigger] archetype_at(now.archetypes, b)) is Some && archetype_at(
                        now.archetypes,
                        b,
                    ).unwrap().components@ == archetype_at(
                        old(self)@.archetypes,
                        b,
                    ).unwrap().components@ by {
                        assert(archetype_at(mid.archetypes, b) == archetype_at(
                            old(self)@.archetypes,
                            b,
                        ));
                        assert(mid.archetypes[b] is Some == now.archetypes[b] is Some);
                    }
                    assert forall|b: int|
                        archetype_at(old(self)@.archetypes, b) is None && (
                        #[trigger] archetype_at(now.archetypes, b)) is Some implies b
                        == target.0 by {
                        if 0 <= b < mid.archetypes.len() {
                            assert(mid.archetypes[b] is Some == now.archetypes[b] is Some);
                        }
                        if b != target.0 {
                            assert(archetype_at(mid.archetypes, b) == archetype_at(
                                old(self)@.archetypes,
                                b,
                            ));
                        }
                    }
                    assert(self@.components.same_but_members(old(self)@.components));
                }
                true
            },
        }
    }

    /// Removes every entity of the archetype at `idx`, whose composition
    /// includes `c`. Then drops `c` from the composition, or deletes the
    /// archetype when another one has the composition that would be left.
    fn detach_archetype(&mut self, idx: ArchetypeIdx, c: ComponentIdx)
        requires
            old(self).wf(),
            old(self)@.includes(idx.0 as int, c.0 as int),
        ensures
            old(self)@.precedes(final(self)@),
            final(self).wf(),
            !final(self)@.includes(idx.0 as int, c.0 as int),
            final(self)@.components.info(c.0 as int).member_of@.len() == old(
                self,
            )@.components.info(c.0 as int).member_of@.len() - 1,
            final(self)@.archetypes.len() == old(self)@.archetypes.len(),
            forall|b: int| b != idx.0 ==> #[trigger] archetype_at(final(self)@.archetypes, b)
                == archetype_at(old(self)@.archetypes, b),
            final(self)@.archetypes[idx.0 as int] matches Some(x) ==> x.rows@.len() == 0,
            old(self)@.detached(final(self)@, idx.0 as int, c.0 as int),
            forall|k: Key| #[trigger]
                final(self)@.entities.contains(k) <==> old(self)@.entities.contains(k) && old(
                    self,
                )@.entities.get(k).unwrap().archetype != idx,
            forall|k: Key| #[trigger]
                final(self)@.entities.contains(k) ==> final(self)@.entities.get(k) == old(
                    self,
                )@.entities.get(k),
            final(self)@.components.same_but_members(old(self)@.components),
            final(self)@.handlers == old(self)@.handlers,
            final(self)@.events == old(self)@.events,
    {
        let ghost pre = old(self)@;
        let ghost first = pre.components;
        let rows = self.archetypes.take_rows(idx);
        let mut i: usize = 0;
        while i < rows.len()
            invariant
                pre.wf(),
                pre == old(self)@,
                self.entities.wf(),
                pre.entities.precedes(self.entities@),
                i <= rows@.len(),
                rows@ == pre.archetype(idx.0 as int).rows@,
                archetype_at(pre.archetypes, idx.0 as int) is Some,
                self.components@ == pre.components,
                self.components.wf(),
                self.archetypes.wf(),
                self.archetypes@.len() == pre.archetypes.len(),
                self.archetypes@[idx.0 as int] is Some,
                self.archetypes@[idx.0 as int].unwrap().components == pre.archetype(
                    idx.0 as int,
                ).components,
                self.archetypes@[idx.0 as int].unwrap().rows@.len() == 0,
                forall|b: int| b != idx.0 ==> #[trigger] archetype_at(self.archetypes@, b)
                    == archetype_at(pre.archetypes, b),
                self.handlers@ == pre.handlers,
                self.events@ == pre.events,
                forall|k: Key| #[trigger]
                    self.entities@.contains(k) <==> pre.entities.contains(k) && !(pre.entities.get(
                        k,
                    ).unwrap().archetype == idx && pre.entities.get(k).unwrap().row < i),
                forall|k: Key| #[trigger]
                    self.entities@.contains(k) ==> self.entities@.get(k) == pre.entities.get(k),
            decreases rows@.len() - i,
        {
            let e = rows[i].entity;
            let ghost before = self.entities@;
            proof {
                assert(pre.row_ok(idx.0 as int, i as int));
                lemma_remove(before, e.0);
            }
            self.entities.remove(e);
            proof {
                let now = self.entities@;
                crate::slot_map::lemma_precedes_transitive(pre.entities, before, now);
                assert forall|k: Key| #[trigger]
                    now.contains(k) <==> pre.entities.contains(k) && !(pre.entities.get(
                        k,
                    ).unwrap().archetype == idx && pre.entities.get(k).unwrap().row < i + 1) by {
                    assert(pre.location_ok(k));
                    if k.index() != e.0.index() {
                        assert(now.get(k) == before.get(k));
                    } else if before.contains(k) {
                        assert(k.generation() == e.0.generation());
                        assert(k == e.0);
                    }
                }
                assert forall|k: Key| #[trigger] now.contains(k) implies now.get(k)
                    == pre.entities.get(k) by {
                    assert(before.contains(k));
                    if k.index() == e.0.index() {
                        assert(k.generation() == e.0.generation());
                    }
                }
            }
            i = i + 1;
        }
        proof {
            assert forall|k: Key| #[trigger]
                self.entities@.contains(k) <==> pre.entities.contains(k) && pre.entities.get(
                    k,
                ).unwrap().archetype != idx by {
                assert(pre.location_ok(k));
            }
            assert(idx.0 != 0) by {
                assert(pre.archetypes[0].unwrap().components@.len() == 0);
            }
            assert(pre.member(c.0 as int, idx.0 as int));
        }
        let without = match self.archetypes.get(idx) {
            Some(arch) => arch.components_without(c),
            None => vstd::pervasive::unreached(),
        };
        let ghost comps = pre.archetype(idx.0 as int).components@;
        let ghost emptied = self.archetypes@;
        let ghost rest = pre.remainder(idx.0 as int, c.0 as int);
        proof {
            assert(without@ == rest);
            crate::archetype::lemma_remove_ascending(comps, comps.index_of(c));
            assert(find_composition(emptied, rest) is Some <==> find_composition(
                pre.archetypes,
                rest,
            ) is Some) by {
                if find_composition(emptied, rest) is Some {
                    let b = choose|b: int|
                        0 <= b < emptied.len() && (#[trigger] emptied[b]) is Some
                            && emptied[b].unwrap().components@ == rest;
                    assert(b != idx.0);
                    assert(archetype_at(emptied, b) == archetype_at(pre.archetypes, b));
                    assert(pre.archetypes[b] is Some && pre.archetypes[b].unwrap().components@
                        == rest);
                }
                if find_composition(pre.archetypes, rest) is Some {
                    let b = choose|b: int|
                        0 <= b < pre.archetypes.len() && (#[trigger] pre.archetypes[b]) is Some
                            && pre.archetypes[b].unwrap().components@ == rest;
                    assert(b != idx.0);
                    assert(archetype_at(emptied, b) == archetype_at(pre.archetypes, b));
                    assert(emptied[b] is Some && emptied[b].unwrap().components@ == rest);
                }
            }
        }
        match self.archetypes.find(&without) {
            Some(_) => {
                let removed = match self.archetypes.remove(idx) {
                    Some(a) => a,
                    None => vstd::pervasive::unreached(),
                };
                let n = removed.components.len();
                let ghost tables = self.archetypes@;
                let ghost living = self.entities@;
                proof {
                    assert forall|b: int| b != idx.0 implies #[trigger] archetype_at(tables, b)
                        == archetype_at(pre.archetypes, b) by {
                        assert(archetype_at(emptied, b) == archetype_at(pre.archetypes, b));
                    }
                }
                let mut j: usize = 0;
                while j < n
                    invariant
                        pre.wf(),
                        first == pre.components,
                        self.components.wf(),
                        self.archetypes.wf(),
                        self.entities.wf(),
                        self.archetypes@ == tables,
                        self.entities@ == living,
                        pre.entities.precedes(living),
                        tables.len() == pre.archetypes.len(),
                        tables[idx.0 as int] is None,
                        find_composition(pre.archetypes, rest) is Some,
                        rest == pre.remainder(idx.0 as int, c.0 as int),
                        forall|b: int| b != idx.0 ==> #[trigger] archetype_at(tables, b)
                            == archetype_at(pre.archetypes, b),
                        self.handlers@ == pre.handlers,
                        self.events@ == pre.events,
                        j <= n,
                        n == comps.len(),
                        removed.components@ == comps,
                        comps == pre.archetype(idx.0 as int).components@,
                        archetype_at(pre.archetypes, idx.0 as int) is Some,
                        self.components@.same_but_members(first),
                        forall|d: int, y: ArchetypeIdx|
                            first.occupied(d) ==> (#[trigger] self.components@.info(
                                d,
                            ).member_of@.contains(y) <==> (first.info(d).member_of@.contains(y)
                                && !(y == idx && among_first(comps, j as int, d)))),
                        forall|d: int|
                            first.occupied(d) ==> (#[trigger] self.components@.info(d)).member_of@.len()
                                == first.info(d).member_of@.len() - (if among_first(
                                comps,
                                j as int,
                                d,
                            ) {
                                1int
                            } else {
                                0int
                            }),
                    decreases n - j,
                {
                    let d = removed.components[j];
                    let ghost before = self.components@;
                    proof {
                        assert(comps.contains(comps[j as int]));
                        assert(pre.includes(idx.0 as int, d.0 as int));
                        assert(pre.member(d.0 as int, idx.0 as int));
                        assert(before.slots[d.0 as int].value is Some
                            == first.slots[d.0 as int].value is Some);
                        assert(before.occupied(d.0 as int));
                        assert(!among_first(comps, j as int, d.0 as int)) by {
                            if among_first(comps, j as int, d.0 as int) {
                                let q = choose|q: int|
                                    0 <= q < j as int && q < comps.len() && (#[trigger] comps[q]).0
                                        == d.0;
                                assert(comps[q].0 < comps[j as int].0);
                            }
                        }
                        assert(before.info(d.0 as int).member_of@.contains(idx));
                        crate::map::lemma_swap_removed(
                            before.info(d.0 as int).member_of@,
                            before.info(d.0 as int).member_of@.index_of(idx),
                        );
                    }
                    match self.components.get_by_index_mut(d) {
                        Some(info) => {
                            info.member_of.swap_remove(idx);
                        },
                        None => {},
                    }
                    proof {
                        let now = self.components@;
                        assert(now.info(d.0 as int).same_but_members(before.info(d.0 as int)));
                        assert(now.same_but_members(first)) by {
                            assert forall|x: int| 0 <= x < now.slots.len() implies {
                                &&& (#[trigger] now.slots[x]).generation == first.slots[x].generation
                                &&& now.slots[x].value is Some == first.slots[x].value is Some
                                &&& now.slots[x].value is Some ==> now.info(x).same_but_members(
                                    first.info(x),
                                )
                            } by {
                                assert(before.slots[x].generation == first.slots[x].generation);
                            }
                        }
                        assert forall|x: int| first.occupied(x) implies (among_first(
                            comps,
                            j as int + 1,
                            x,
                        ) <==> (among_first(comps, j as int, x) || x == d.0)) by {
                            if among_first(comps, j as int + 1, x) {
                                let q = choose|q: int|
                                    0 <= q < j as int + 1 && q < comps.len() && (
                                    #[trigger] comps[q]).0 == x;
                                if q < j {
                                    assert(among_first(comps, j as int, x));
                                }
                            }
                            if among_first(comps, j as int, x) {
                                let q = choose|q: int|
                                    0 <= q < j as int && q < comps.len() && (#[trigger] comps[q]).0
                                        == x;
                                assert(among_first(comps, j as int + 1, x));
                            }
                            if x == d.0 {
                                assert(comps[j as int].0 == x);
                                assert(among_first(comps, j as int + 1, x));
                            }
                        }
                        assert forall|x: int, y: ArchetypeIdx| first.occupied(x) implies (
                        #[trigger] now.info(x).member_of@.contains(y) <==> (first.info(
                            x,
                        ).member_of@.contains(y) && !(y == idx && among_first(
                            comps,
                            j as int + 1,
                            x,
                        )))) by {
                            assert(before.info(x).member_of@.contains(y) <==> (first.info(
                                x,
                            ).member_of@.contains(y) && !(y == idx && among_first(
                                comps,
                                j as int,
                                x,
                            ))));
                            if x != d.0 {
                                assert(now.info(x) == before.info(x));
                            }
                        }
                        assert forall|x: int| first.occupied(x) implies (#[trigger] now.info(
                            x,
                        )).member_of@.len() == first.info(x).member_of@.len() - (if among_first(
                            comps,
                            j as int + 1,
                            x,
                        ) {
                            1int
                        } else {
                            0int
                        }) by {
                            assert(before.info(x).member_of@.len() == first.info(x).member_of@.len()
                                - (if among_first(comps, j as int, x) {
                                1int
                            } else {
                                0int
                            }));
                            if x != d.0 {
                                assert(now.info(x) == before.info(x));
                            }
                        }
                    }
                    j = j + 1;
                }
                proof {
                    let post = self@;
                    assert forall|d: int, y: ArchetypeIdx| first.occupied(d) implies (
                    #[trigger] post.components.info(d).member_of@.contains(y) <==> (first.info(
                        d,
                    ).member_of@.contains(y) && (y != idx || post.includes(idx.0 as int, d)))) by {
                        if among_first(comps, n as int, d) {
                        } else if first.info(d).member_of@.contains(idx) {
                            assert(pre.member(d, idx.0 as int));
                            assert(pre.includes(idx.0 as int, d));
                            let q = choose|q: int|
                                0 <= q < comps.len() && comps[q] == ComponentIdx(d as u32);
                            assert(comps[q].0 == d);
                            assert(among_first(comps, n as int, d));
                        }
                    }
                    assert(among_first(comps, n as int, c.0 as int)) by {
                        let q = choose|q: int| 0 <= q < comps.len() && comps[q] == c;
                        assert(comps[q].0 == c.0);
                    }
                    lemma_detach_archetype_wf(pre, post, idx, c);
                }
            },
            None => {
                self.archetypes.drop_component(idx, c);
                let ghost before = self.components@;
                proof {
                    assert(before.occupied(c.0 as int));
                    assert(before.info(c.0 as int).member_of@.contains(idx));
                    crate::map::lemma_swap_removed(
                        before.info(c.0 as int).member_of@,
                        before.info(c.0 as int).member_of@.index_of(idx),
                    );
                }
                match self.components.get_by_index_mut(c) {
                    Some(info) => {
                        info.member_of.swap_remove(idx);
                    },
                    None => {},
                }
                proof {
                    let post = self@;
                    let now = post.components;
                    let p = comps.index_of(c);
                    assert(0 <= p < comps.len() && comps[p] == c);
                    crate::archetype::lemma_remove_ascending(comps, p);
                    assert(now.info(c.0 as int).same_but_members(before.info(c.0 as int)));
                    assert forall|d: int, y: ArchetypeIdx| first.occupied(d) implies (
                    #[trigger] now.info(d).member_of@.contains(y) <==> (first.info(
                        d,
                    ).member_of@.contains(y) && (y != idx || post.includes(idx.0 as int, d)))) by {
                        if d != c.0 {
                            assert(now.info(d) == first.info(d));
                            if first.info(d).member_of@.contains(idx) {
                                assert(pre.member(d, idx.0 as int));
                                assert(pre.includes(idx.0 as int, d));
                                assert(comps.contains(ComponentIdx(d as u32)));
                                assert(post.archetype(idx.0 as int).components@.contains(
                                    ComponentIdx(d as u32),
                                ));
                            }
                        } else {
                            assert(!post.archetype(idx.0 as int).components@.contains(c));
                        }
                    }
                    lemma_detach_archetype_wf(pre, post, idx, c);
                }
            },
        }
    }

    /// Removes the component `id` with everything that depends on it: first
    /// the handlers that access it; then the events that are tied to it, each
    /// with the handlers that listen to it; then, archetype by archetype, the
    /// entities that have it, after which the archetype loses the component or
    /// is deleted; and last the component itself, whose identifier is never
    /// used again. Returns the record of the component; `None`, with the
    /// world unchanged, when the identifier is not live.
    pub fn remove_component(&mut self, id: ComponentId) -> (r: Option<ComponentInfo>)
        requires
            old(self).wf(),
        ensures
            final(self).wf(),
            r is Some <==> old(self)@.components.contains(id.0),
            r is None ==> final(self)@ == old(self)@,
            r matches Some(info) ==> {
                &&& info.same_descriptor(old(self)@.components.get(id.0).unwrap())
                &&& info.member_of@.len() == 0
                &&& info.insert_events@.len() == 0
                &&& info.remove_events@.len() == 0
                &&& old(self)@.cascaded(final(self)@, id)
            },
    {
        if !self.components.contains(id) {
            return None;
        }
        let c = id.index();
        proof {
            lemma_cascading_start(self@, id);
        }
        let ghost before = self@;
        self.remove_handlers(None, Some(c));
        proof {
            lemma_cascading_handlers(old(self)@, before, self@, id, None, Some(c));
            assert forall|i: int| self@.handlers.occupied(i) implies !(#[trigger] self@.handler(
                i,
            )).access.references(c) by {
                let k = Key::make(i as u32, self@.handlers.slots[i].generation);
                assert(self@.handlers.contains(k));
                assert(self@.handlers.get(k) == before.handlers.get(k));
            }
        }
        let mut n = self.components.index(id).insert_events.len();
        while n > 0
            invariant
                old(self).wf(),
                self.wf(),
                c == ComponentIdx(id.0.index()),
                old(self)@.cascading(self@, id),
                forall|i: int|
                    self@.handlers.occupied(i) ==> !(#[trigger] self@.handler(i)).access.references(
                        c,
                    ),
                n == self@.components.info(c.0 as int).insert_events@.len(),
            decreases n,
        {
            let e = match self.components.index(id).insert_events.get_index(0) {
                Some(e) => e,
                None => vstd::pervasive::unreached(),
            };
            let ghost pre = self@;
            proof {
                assert(pre.listed_ok(c.0 as int));
                assert(pre.components.occupied(c.0 as int));
                assert(pre.components.info(c.0 as int).id == id);
                assert(pre.events.get(pre.components.info(c.0 as int).insert_events@[0].0) == Some(
                    EventKind::Insert(id),
                ));
            }
            self.remove_event(e);
            proof {
                lemma_cascading_event(old(self)@, pre, self@, id, e);
                assert forall|i: int| self@.handlers.occupied(i) implies !(#[trigger] self@.handler(
                    i,
                )).access.references(c) by {
                    let k = Key::make(i as u32, self@.handlers.slots[i].generation);
                    assert(self@.handlers.contains(k));
                    assert(self@.handlers.get(k) == pre.handlers.get(k));
                    assert(pre.handlers.occupied(i));
                    assert(!pre.handler(i).access.references(c));
                    assert(self@.handler(i) == pre.handler(i));
                }
            }
            n = self.components.index(id).insert_events.len();
        }
        let mut n = self.components.index(id).remove_events.len();
        while n > 0
            invariant
                old(self).wf(),
                self.wf(),
                c == ComponentIdx(id.0.index()),
                old(self)@.cascading(self@, id),
                forall|i: int|
                    self@.handlers.occupied(i) ==> !(#[trigger] self@.handler(i)).access.references(
                        c,
                    ),
                self@.components.info(c.0 as int).insert_events@.len() == 0,
                n == self@.components.info(c.0 as int).remove_events@.len(),
            decreases n,
        {
            let e = match self.components.index(id).remove_events.get_index(0) {
                Some(e) => e,
                None => vstd::pervasive::unreached(),
            };
            let ghost pre = self@;
            proof {
                assert(pre.listed_ok(c.0 as int));
                assert(pre.components.occupied(c.0 as int));
                assert(pre.components.info(c.0 as int).id == id);
                assert(pre.events.get(pre.components.info(c.0 as int).remove_events@[0].0) == Some(
                    EventKind::Remove(id),
                ));
            }
            self.remove_event(e);
            proof {
                lemma_cascading_event(old(self)@, pre, self@, id, e);
                assert forall|i: int| self@.handlers.occupied(i) implies !(#[trigger] self@.handler(
                    i,
                )).access.references(c) by {
                    let k = Key::make(i as u32, self@.handlers.slots[i].generation);
                    assert(self@.handlers.contains(k));
                    assert(self@.handlers.get(k) == pre.handlers.get(k));
                    assert(pre.handlers.occupied(i));
                    assert(!pre.handler(i).access.references(c));
                    assert(self@.handler(i) == pre.handler(i));
                }
                assert(self@.components.info(c.0 as int).insert_events@.len() == 0) by {
                    let now = self@.components.info(c.0 as int).insert_events@;
                    if now.len() > 0 {
                        assert(now.contains(now[0]));
                    }
                }
            }
            n = self.components.index(id).remove_events.len();
        }
        let mut n = self.components.index(id).member_of.len();
        while n > 0
            invariant
                old(self).wf(),
                self.wf(),
                c == ComponentIdx(id.0.index()),
                old(self)@.cascading(self@, id),
                forall|i: int|
                    self@.handlers.occupied(i) ==> !(#[trigger] self@.handler(i)).access.references(
                        c,
                    ),
                self@.components.info(c.0 as int).insert_events@.len() == 0,
                self@.components.info(c.0 as int).remove_events@.len() == 0,
                n == self@.components.info(c.0 as int).member_of@.len(),
            decreases n,
        {
            let idx = match self.components.index(id).member_of.get_index(0) {
                Some(a) => a,
                None => vstd::pervasive::unreached(),
            };
            let ghost pre = self@;
            proof {
                assert(pre.components.occupied(c.0 as int));
                assert(pre.components.info(c.0 as int).member_of@.contains(
                    pre.components.info(c.0 as int).member_of@[0],
                ));
                assert(pre.member(c.0 as int, idx.0 as int));
                assert(pre.includes(idx.0 as int, c.0 as int));
            }
            self.detach_archetype(idx, c);
            proof {
                lemma_cascading_archetype(old(self)@, pre, self@, id, idx);
                assert forall|i: int| self@.handlers.occupied(i) implies !(#[trigger] self@.handler(
                    i,
                )).access.references(c) by {
                    assert(!pre.handler(i).access.references(c));
                }
                assert(self@.components.info(c.0 as int).same_but_members(
                    pre.components.info(c.0 as int),
                ));
            }
            n = self.components.index(id).member_of.len();
        }
        let ghost pre = self@;
        let r = self.components.remove(id);
        proof {
            lemma_remove_component_wf(pre, self@, id);
            lemma_cascaded_end(old(self)@, pre, self@, id);
            assert(pre.components.slots[id.0.index() as int].generation == old(
                self,
            )@.components.slots[id.0.index() as int].generation);
        }
        r
    }

    /// Whether one more event can be registered.
    pub fn can_add_event(&self) -> (r: bool)
        requires
            self.wf(),
        ensures
            r == self@.events.next_key() is Some,
    {
        self.events.has_room()
    }

    /// Registers an event. An event that is tied to a component is listed with
    /// that component, at its place in the ascending order of the
    /// component's events. Returns `None`, with the world unchanged, when the
    /// event is tied to a component that is not registered.
    pub fn add_event(&mut self, kind: EventKind) -> (r: Option<EventId>)
        requires
            old(self).wf(),
            old(self)@.events.next_key() is Some,
        ensures
            old(self)@.precedes(final(self)@),
            final(self).wf(),
            r is Some <==> (kind.spec_component() matches Some(c) ==> old(self)@.components.contains(
                c.0,
            )),
            r is None ==> final(self)@ == old(self)@,
            r matches Some(id) ==> {
                &&& old(self)@.events.next_key() == Some(id.0)
                &&& final(self)@.events == old(self)@.events.insert(kind)
                &&& final(self)@.events.get(id.0) == Some(kind)
                &&& final(self)@.components.same_but_events(old(self)@.components)
                &&& (kind matches EventKind::Insert(c) ==> final(self)@.components.info(
                    c.0.index() as int,
                ).insert_events@ == old(self)@.components.info(c.0.index() as int).insert_events@.insert(
                    crate::event::place_of(
                        old(self)@.components.info(c.0.index() as int).insert_events@,
                        id,
                    ),
                    id,
                ))
                &&& (kind matches EventKind::Remove(c) ==> final(self)@.components.info(
                    c.0.index() as int,
                ).remove_events@ == old(self)@.components.info(c.0.index() as int).remove_events@.insert(
                    crate::event::place_of(
                        old(self)@.components.info(c.0.index() as int).remove_events@,
                        id,
                    ),
                    id,
                ))
            },
            kind == EventKind::Normal ==> final(self)@.components == old(self)@.components,
            forall|d: int|
                0 <= d < old(self)@.components.slots.len() && !(kind.spec_component() matches Some(
                    c,
                ) && c.0.index() == d) ==> #[trigger] final(self)@.components.slots[d] == old(
                    self,
                )@.components.slots[d],
            kind matches EventKind::Insert(c) ==> r is None || final(self)@.components.info(
                c.0.index() as int,
            ).remove_events == old(self)@.components.info(c.0.index() as int).remove_events,
            kind matches EventKind::Remove(c) ==> r is None || final(self)@.components.info(
                c.0.index() as int,
            ).insert_events == old(self)@.components.info(c.0.index() as int).insert_events,
            final(self)@.archetypes == old(self)@.archetypes,
            final(self)@.entities == old(self)@.entities,
            final(self)@.handlers == old(self)@.handlers,
    {
        match kind.component() {
            Some(c) => {
                if !self.components.contains(c) {
                    return None;
                }
            },
            None => {},
        }
        proof {
            lemma_insert(self@.events, kind);
        }
        let id = match self.events.add(kind) {
            Some(id) => id,
            None => vstd::pervasive::unreached(),
        };
        let ghost first = old(self)@.components;
        proof {
            assert forall|d: int, j: int|
                first.occupied(d) && 0 <= j < first.info(d).insert_events@.len() implies (
            #[trigger] first.info(d).insert_events@[j]) != id by {
                assert(old(self)@.listed_ok(d));
                assert(old(self)@.events.contains(first.info(d).insert_events@[j].0));
            }
            assert forall|d: int, j: int|
                first.occupied(d) && 0 <= j < first.info(d).remove_events@.len() implies (
            #[trigger] first.info(d).remove_events@[j]) != id by {
                assert(old(self)@.listed_ok(d));
                assert(old(self)@.events.contains(first.info(d).remove_events@[j].0));
            }
        }
        match kind {
            EventKind::Normal => {},
            EventKind::Insert(c) => {
                proof {
                    assert(first.occupied(c.0.index() as int));
                    assert(first.info(c.0.index() as int).id == c);
                }
                match self.components.get_by_index_mut(c.index()) {
                    Some(info) => {
                        info.insert_events.insert(id);
                    },
                    None => {},
                }
                proof {
                    let now = self.components@;
                    assert(!first.info(c.0.index() as int).insert_events@.contains(id));
                    assert(now.info(c.0.index() as int).same_but_events(first.info(c.0.index() as int)));
                    assert forall|d: int, y: EventId| first.occupied(d) implies (
                    #[trigger] now.info(d).insert_events@.contains(y) <==> (first.info(
                        d,
                    ).insert_events@.contains(y) || (y == id && kind == EventKind::Insert(
                        first.info(d).id,
                    )))) by {
                        if d != c.0.index() {
                            assert(now.info(d) == first.info(d));
                            assert(first.info(d).id.0.index() == d);
                        }
                    }
                    assert forall|d: int, y: EventId| first.occupied(d) implies (
                    #[trigger] now.info(d).remove_events@.contains(y) <==> (first.info(
                        d,
                    ).remove_events@.contains(y) || (y == id && kind == EventKind::Remove(
                        first.info(d).id,
                    )))) by {
                        if d != c.0.index() {
                            assert(now.info(d) == first.info(d));
                        }
                    }
                }
            },
            EventKind::Remove(c) => {
                proof {
                    assert(first.occupied(c.0.index() as int));
                    assert(first.info(c.0.index() as int).id == c);
                }
                match self.components.get_by_index_mut(c.index()) {
                    Some(info) => {
                        info.remove_events.insert(id);
                    },
                    None => {},
                }
                proof {
                    let now = self.components@;
                    assert(!first.info(c.0.index() as int).remove_events@.contains(id));
                    assert(now.info(c.0.index() as int).same_but_events(first.info(c.0.index() as int)));
                    assert forall|d: int, y: EventId| first.occupied(d) implies (
                    #[trigger] now.info(d).remove_events@.contains(y) <==> (first.info(
                        d,
                    ).remove_events@.contains(y) || (y == id && kind == EventKind::Remove(
                        first.info(d).id,
                    )))) by {
                        if d != c.0.index() {
                            assert(now.info(d) == first.info(d));
                            assert(first.info(d).id.0.index() == d);
                        }
                    }
                    assert forall|d: int, y: EventId| first.occupied(d) implies (
                    #[trigger] now.info(d).insert_events@.contains(y) <==> (first.info(
                        d,
                    ).insert_events@.contains(y) || (y == id && kind == EventKind::Insert(
                        first.info(d).id,
                    )))) by {
                        if d != c.0.index() {
                            assert(now.info(d) == first.info(d));
                        }
                    }
                }
            },
        }
        proof {
            lemma_add_event_wf(old(self)@, self@, kind, id);
        }
        Some(id)
    }

    /// Removes the event `id` with every handler that listens to it, and
    /// strikes it from the component that it is tied to, whose other events
    /// keep their order. Returns what the
    /// event was about; `None`, with the world unchanged, when it is not
    /// registered.
    pub fn remove_event(&mut self, id: EventId) -> (r: Option<EventKind>)
        requires
            old(self).wf(),
        ensures
            old(self)@.precedes(final(self)@),
            final(self).wf(),
            r == old(self)@.events.get(id.0),
            r is None ==> final(self)@ == old(self)@,
            final(self)@.events == old(self)@.events.remove(id.0),
            forall|k: Key| #[trigger]
                final(self)@.handlers.contains(k) <==> old(self)@.handlers.contains(k) && old(
                    self,
                )@.handlers.get(k).unwrap().event != id,
            forall|k: Key| #[trigger]
                final(self)@.handlers.contains(k) ==> final(self)@.handlers.get(k) == old(
                    self,
                )@.handlers.get(k),
            final(self)@.components.same_but_events(old(self)@.components),
            forall|d: int, y: EventId|
                old(self)@.components.occupied(d) ==> (#[trigger] final(self)@.components.info(
                    d,
                ).insert_events@.contains(y) <==> (old(self)@.components.info(
                    d,
                ).insert_events@.contains(y) && y != id)),
            forall|d: int, y: EventId|
                old(self)@.components.occupied(d) ==> (#[trigger] final(self)@.components.info(
                    d,
                ).remove_events@.contains(y) <==> (old(self)@.components.info(
                    d,
                ).remove_events@.contains(y) && y != id)),
            forall|d: int|
                0 <= d < old(self)@.components.slots.len() && !(r matches Some(kind)
                    && kind.spec_component() matches Some(c) && c.0.index() == d)
                    ==> #[trigger] final(self)@.components.slots[d] == old(
                    self,
                )@.components.slots[d],
            r matches Some(EventKind::Insert(c)) ==> final(self)@.components.info(
                c.0.index() as int,
            ).remove_events == old(self)@.components.info(c.0.index() as int).remove_events
                && final(self)@.components.info(c.0.index() as int).insert_events@ == old(
                self,
            )@.components.info(c.0.index() as int).insert_events@.remove(
                old(self)@.components.info(c.0.index() as int).insert_events@.index_of(id),
            ),
            r matches Some(EventKind::Remove(c)) ==> final(self)@.components.info(
                c.0.index() as int,
            ).insert_events == old(self)@.components.info(c.0.index() as int).insert_events
                && final(self)@.components.info(c.0.index() as int).remove_events@ == old(
                self,
            )@.components.info(c.0.index() as int).remove_events@.remove(
                old(self)@.components.info(c.0.index() as int).remove_events@.index_of(id),
            ),
            r matches Some(EventKind::Insert(c)) ==> final(self)@.components.info(
                c.0.index() as int,
            ).insert_events@.len() == old(self)@.components.info(c.0.index() as int).insert_events@.len()
                - 1,
            r matches Some(EventKind::Remove(c)) ==> final(self)@.components.info(
                c.0.index() as int,
            ).remove_events@.len() == old(self)@.components.info(c.0.index() as int).remove_events@.len()
                - 1,
            final(self)@.archetypes == old(self)@.archetypes,
            final(self)@.entities == old(self)@.entities,
    {
        let kind = match self.events.get(id) {
            Some(kind) => kind,
            None => {
                proof {
                    assert forall|k: Key| #[trigger]
                        self@.handlers.contains(k) implies self@.handlers.get(k).unwrap().event
                        != id by {
                        assert(self@.handler_ok(k.index() as int));
                    }
                    assert forall|d: int, y: EventId|
                        self@.components.occupied(d) && #[trigger] self@.components.info(
                            d,
                        ).insert_events@.contains(y) implies y != id by {
                        assert(self@.listed_ok(d));
                        if self@.components.info(d).insert_events@.contains(y) {
                            let j = choose|j: int|
                                0 <= j < self@.components.info(d).insert_events@.len()
                                    && self@.components.info(d).insert_events@[j] == y;
                            assert(self@.events.contains(
                                self@.components.info(d).insert_events@[j].0,
                            ));
                        }
                    }
                    assert forall|d: int, y: EventId|
                        self@.components.occupied(d) && #[trigger] self@.components.info(
                            d,
                        ).remove_events@.contains(y) implies y != id by {
                        assert(self@.listed_ok(d));
                        if self@.components.info(d).remove_events@.contains(y) {
                            let j = choose|j: int|
                                0 <= j < self@.components.info(d).remove_events@.len()
                                    && self@.components.info(d).remove_events@[j] == y;
                            assert(self@.events.contains(
                                self@.components.info(d).remove_events@[j].0,
                            ));
                        }
                    }
                }
                return None;
            },
        };
        self.remove_handlers(Some(id), None);
        let ghost mid = self@;
        let ghost first = mid.components;
        proof {
            assert(mid.event_ok(id.0.index() as int));
            assert forall|d: int, j: int|
                first.occupied(d) && 0 <= j < first.info(d).insert_events@.len() && (
                #[trigger] first.info(d).insert_events@[j]) == id implies kind == EventKind::Insert(
                first.info(d).id,
            ) by {
                assert(mid.listed_ok(d));
            }
            assert forall|d: int, j: int|
                first.occupied(d) && 0 <= j < first.info(d).remove_events@.len() && (
                #[trigger] first.info(d).remove_events@[j]) == id implies kind == EventKind::Remove(
                first.info(d).id,
            ) by {
                assert(mid.listed_ok(d));
            }
        }
        match kind {
            EventKind::Normal => {},
            EventKind::Insert(c) => {
                proof {
                    assert(first.occupied(c.0.index() as int));
                    assert(first.info(c.0.index() as int).id == c);
                    let listed = first.info(c.0.index() as int).insert_events@;
                    assert(listed.contains(id));
                    assert(0 <= listed.index_of(id) < listed.len());
                }
                match self.components.get_by_index_mut(c.index()) {
                    Some(info) => {
                        info.insert_events.remove(id);
                    },
                    None => {},
                }
                proof {
                    let now = self.components@;
                    assert(now.info(c.0.index() as int).same_but_events(first.info(c.0.index() as int)));
                    assert forall|d: int| first.occupied(d) && d != c.0.index() implies now.info(d)
                        == first.info(d) by {}
                }
            },
            EventKind::Remove(c) => {
                proof {
                    assert(first.occupied(c.0.index() as int));
                    assert(first.info(c.0.index() as int).id == c);
                    let listed = first.info(c.0.index() as int).remove_events@;
                    assert(listed.contains(id));
                    assert(0 <= listed.index_of(id) < listed.len());
                }
                match self.components.get_by_index_mut(c.index()) {
                    Some(info) => {
                        info.remove_events.remove(id);
                    },
                    None => {},
                }
                proof {
                    let now = self.components@;
                    assert(now.info(c.0.index() as int).same_but_events(first.info(c.0.index() as int)));
                    assert forall|d: int| first.occupied(d) && d != c.0.index() implies now.info(d)
                        == first.info(d) by {}
                }
            },
        }
        proof {
            let now = self.components@;
            assert forall|d: int, y: EventId| first.occupied(d) implies (#[trigger] now.info(
                d,
            ).insert_events@.contains(y) <==> (first.info(d).insert_events@.contains(y) && y
                != id)) by {
                if first.info(d).insert_events@.contains(id) {
                    let j = choose|j: int|
                        0 <= j < first.info(d).insert_events@.len() && first.info(
                            d,
                        ).insert_events@[j] == id;
                    assert(kind == EventKind::Insert(first.info(d).id));
                    assert(first.info(d).id.0.index() == d);
                }
            }
            assert forall|d: int, y: EventId| first.occupied(d) implies (#[trigger] now.info(
                d,
            ).remove_events@.contains(y) <==> (first.info(d).remove_events@.contains(y) && y
                != id)) by {
                if first.info(d).remove_events@.contains(id) {
                    let j = choose|j: int|
                        0 <= j < first.info(d).remove_events@.len() && first.info(
                            d,
                        ).remove_events@[j] == id;
                    assert(kind == EventKind::Remove(first.info(d).id));
                    assert(first.info(d).id.0.index() == d);
                }
            }
            assert forall|i: int| mid.handlers.occupied(i) implies (#[trigger] mid.handler(i)).event
                != id by {
                let k = Key::make(i as u32, mid.handlers.slots[i].generation);
                assert(mid.handlers.contains(k));
                assert(mid.handlers.get(k) == old(self)@.handlers.get(k));
            }
        }
        self.events.remove(id);
        proof {
            lemma_remove_event_wf(mid, self@, id);
            lemma_world_precedes_transitive(old(self)@, mid, self@);
        }
        Some(kind)
    }

    /// Whether one more handler can be registered.
    pub fn can_add_handler(&self) -> (r: bool)
        requires
            self.wf(),
        ensures
            r == self@.handlers.next_key() is Some,
    {
        self.handlers.next_id().is_some()
    }

    /// Registers a handler. Fails, with the world unchanged, when the handler
    /// listens to an event that is not registered, when a field of its record
    /// names a component that is not registered, when a field writes a
    /// component that is immutable, or when two fields of its record access
    /// the same component and one of them writes it.
    pub fn add_handler(&mut self, config: HandlerConfig) -> (r: Result<HandlerId, InitError>)
        requires
            old(self).wf(),
            old(self)@.handlers.next_key() is Some,
        ensures
            old(self)@.precedes(final(self)@),
            final(self).wf(),
            r == (if !old(self)@.events.contains(config.event.0) {
                Err::<HandlerId, InitError>(InitError::UnknownEvent)
            } else if !(forall|i: int|
                0 <= i < config.query.fields@.len() ==> old(self)@.components.contains(
                    (#[trigger] config.query.fields@[i]).component.0,
                )) {
                Err(InitError::UnknownComponent)
            } else if crate::query::writes_immutable(
                old(self)@.components,
                config.query.fields@,
            ) {
                Err(InitError::ImmutableComponent)
            } else if crate::access::conflicting(crate::query::terms_of(config.query.fields@)) {
                Err(InitError::ConflictingAccess)
            } else {
                Ok(HandlerId(old(self)@.handlers.next_key().unwrap()))
            }),
            r is Err ==> final(self)@ == old(self)@,
            r matches Ok(id) ==> {
                &&& final(self)@.handlers.get(id.0) is Some
                &&& final(self)@.handlers == old(self)@.handlers.insert(
                    final(self)@.handlers.get(id.0).unwrap(),
                )
                &&& final(self)@.handlers.get(id.0).unwrap().id == id
                &&& final(self)@.handlers.get(id.0).unwrap().event == config.event
                &&& final(self)@.handlers.get(id.0).unwrap().access@ == crate::query::terms_of(
                    config.query.fields@,
                )
            },
            final(self)@.components == old(self)@.components,
            final(self)@.archetypes == old(self)@.archetypes,
            final(self)@.entities == old(self)@.entities,
            final(self)@.events == old(self)@.events,
    {
        if !self.events.contains(config.event) {
            return Err(InitError::UnknownEvent);
        }
        let state = match config.query.new_state(&self.components) {
            Some(s) => s,
            None => {
                return Err(InitError::UnknownComponent);
            },
        };
        if config.query.writes_immutable(&self.components) {
            return Err(InitError::ImmutableComponent);
        }
        let access = match state.init() {
            Ok(a) => a,
            Err(e) => {
                return Err(e);
            },
        };
        let id = match self.handlers.next_id() {
            Some(id) => id,
            None => vstd::pervasive::unreached(),
        };
        let info = HandlerInfo { id, event: config.event, access };
        proof {
            let pre = old(self)@;
            assert forall|j: int| 0 <= j < info.access@.len() implies pre.components.occupied(
                (#[trigger] info.access@[j]).0.0 as int,
            ) by {
                assert(pre.components.contains(config.query.fields@[j].component.0));
            }
            lemma_insert(pre.handlers, info);
        }
        self.handlers.add(info);
        proof {
            lemma_add_handler_wf(old(self)@, self@, info);
        }
        Ok(id)
    }

    /// Removes the handler `id` and returns what was known of it; `None`, with
    /// the world unchanged, when it is not registered.
    pub fn remove_handler(&mut self, id: HandlerId) -> (r: Option<HandlerInfo>)
        requires
            old(self).wf(),
        ensures
            old(self)@.precedes(final(self)@),
            final(self).wf(),
            r == old(self)@.handlers.get(id.0),
            final(self)@.handlers == old(self)@.handlers.remove(id.0),
            final(self)@.components == old(self)@.components,
            final(self)@.archetypes == old(self)@.archetypes,
            final(self)@.entities == old(self)@.entities,
            final(self)@.events == old(self)@.events,
    {
        let r = self.handlers.remove(id);
        proof {
            lemma_remove_handler_wf(old(self)@, self@, id);
        }
        r
    }

    /// Removes every handler that listens to `event` or accesses `component`.
    fn remove_handlers(&mut self, event: Option<EventId>, component: Option<ComponentIdx>)
        requires
            old(self).wf(),
        ensures
            old(self)@.precedes(final(self)@),
            final(self).wf(),
            forall|k: Key| #[trigger]
                final(self)@.handlers.contains(k) <==> old(self)@.handlers.contains(k) && !depends_on(
                    old(self)@.handlers.get(k).unwrap(),
                    event,
                    component,
                ),
            forall|k: Key| #[trigger]
                final(self)@.handlers.contains(k) ==> final(self)@.handlers.get(k) == old(
                    self,
                )@.handlers.get(k),
            final(self)@.components == old(self)@.components,
            final(self)@.archetypes == old(self)@.archetypes,
            final(self)@.entities == old(self)@.entities,
            final(self)@.events == old(self)@.events,
    {
        let keys = self.handlers.ids();
        proof {
            crate::slot_map::lemma_keys(self@.handlers);
        }
        let mut i: usize = 0;
        while i < keys.len()
            invariant
                self.wf(),
                i <= keys@.len(),
                old(self)@.precedes(self@),
                keys@ == old(self)@.handlers.keys(),
                forall|k: Key| #[trigger]
                    old(self)@.handlers.keys().contains(k) <==> old(self)@.handlers.contains(k),
                forall|k: Key| #[trigger]
                    self@.handlers.contains(k) ==> old(self)@.handlers.contains(k)
                        && self@.handlers.get(k) == old(self)@.handlers.get(k),
                forall|k: Key|
                    old(self)@.handlers.contains(k) && !(#[trigger] self@.handlers.contains(k))
                        ==> depends_on(old(self)@.handlers.get(k).unwrap(), event, component),
                forall|j: int|
                    0 <= j < i ==> !self@.handlers.contains(#[trigger] keys@[j]) || !depends_on(
                        old(self)@.handlers.get(keys@[j]).unwrap(),
                        event,
                        component,
                    ),
                self@.components == old(self)@.components,
                self@.archetypes == old(self)@.archetypes,
                self@.entities == old(self)@.entities,
                self@.events == old(self)@.events,
            decreases keys@.len() - i,
        {
            let k = keys[i];
            let doomed = match self.handlers.get(HandlerId(k)) {
                Some(h) => {
                    let by_event = match event {
                        Some(e) => e.0.index() == h.event.0.index() && e.0.generation()
                            == h.event.0.generation(),
                        None => false,
                    };
                    let by_component = match component {
                        Some(c) => h.references_component(c),
                        None => false,
                    };
                    by_event || by_component
                },
                None => false,
            };
            if doomed {
                let ghost before = self@;
                self.remove_handler(HandlerId(k));
                proof {
                    lemma_world_precedes_transitive(old(self)@, before, self@);
                    lemma_remove(before.handlers, k);
                    assert forall|o: Key| #[trigger] self@.handlers.contains(o) implies old(
                        self,
                    )@.handlers.contains(o) && self@.handlers.get(o) == old(self)@.handlers.get(
                        o,
                    ) by {
                        assert(before.handlers.contains(o));
                        if o.index() == k.index() {
                            assert(o.generation() == k.generation());
                        }
                    }
                    assert forall|o: Key|
                        old(self)@.handlers.contains(o) && !(#[trigger] self@.handlers.contains(
                            o,
                        )) implies depends_on(
                        old(self)@.handlers.get(o).unwrap(),
                        event,
                        component,
                    ) by {
                        if before.handlers.contains(o) {
                            if o.index() != k.index() {
                                assert(self@.handlers.get(o) == before.handlers.get(o));
                            } else {
                                assert(o.generation() == k.generation());
                                assert(o == k);
                            }
                        }
                    }
                    assert forall|j: int| 0 <= j < i + 1 implies !self@.handlers.contains(
                        #[trigger] keys@[j],
                    ) || !depends_on(
                        old(self)@.handlers.get(keys@[j]).unwrap(),
                        event,
                        component,
                    ) by {
                        if j < i {
                            if self@.handlers.contains(keys@[j]) {
                                assert(before.handlers.contains(keys@[j]));
                            }
                        }
                    }
                }
            }
            i = i + 1;
        }
        proof {
            assert forall|k: Key| #[trigger]
                self@.handlers.contains(k) <==> old(self)@.handlers.contains(k) && !depends_on(
                    old(self)@.handlers.get(k).unwrap(),
                    event,
                    component,
                ) by {
                if self@.handlers.contains(k) {
                    assert(old(self)@.handlers.keys().contains(k));
                    let j = choose|j: int| 0 <= j < keys@.len() && keys@[j] == k;
                    assert(!self@.handlers.contains(keys@[j]) || !depends_on(
                        old(self)@.handlers.get(keys@[j]).unwrap(),
                        event,
                        component,
                    ));
                }
            }
        }
    }

    /// The handlers that listen to the event `event`, by ascending index: the
    /// handlers to run when the event is sent.
    pub fn send(&self, event: EventId) -> (r: Vec<HandlerId>)
        requires
            self.wf(),
        ensures
            forall|h: HandlerId| #[trigger]
                r@.contains(h) <==> self@.handlers.contains(h.0) && self@.handlers.get(
                    h.0,
                ).unwrap().event == event,
            forall|i: int, j: int|
                0 <= i < j < r@.len() ==> (#[trigger] r@[i]).0.index() < (#[trigger] r@[j]).0.index(),
    {
        let keys = self.handlers.ids();
        proof {
            crate::slot_map::lemma_keys(self@.handlers);
        }
        let mut out: Vec<HandlerId> = Vec::new();
        let mut i: usize = 0;
        while i < keys.len()
            invariant
                i <= keys@.len(),
                keys@ == self@.handlers.keys(),
                forall|k: Key| #[trigger]
                    self@.handlers.keys().contains(k) <==> self@.handlers.contains(k),
                forall|a: int, b: int|
                    0 <= a < b < keys@.len() ==> (#[trigger] keys@[a]).index() < (
                    #[trigger] keys@[b]).index(),
                forall|a: int|
                    0 <= a < out@.len() ==> self@.handlers.contains((#[trigger] out@[a]).0)
                        && self@.handlers.get(out@[a].0).unwrap().event == event,
                forall|j: int|
                    0 <= j < i && self@.handlers.get(#[trigger] keys@[j]).unwrap().event == event
                        ==> out@.contains(HandlerId(keys@[j])),
                forall|a: int, b: int|
                    0 <= a < b < out@.len() ==> (#[trigger] out@[a]).0.index() < (
                    #[trigger] out@[b]).0.index(),
                i < keys@.len() ==> forall|a: int|
                    0 <= a < out@.len() ==> (#[trigger] out@[a]).0.index() < keys@[i as int].index(),
            decreases keys@.len() - i,
        {
            let k = keys[i];
            proof {
                assert(self@.handlers.keys().contains(k));
            }
            let listening = match self.handlers.get(HandlerId(k)) {
                Some(h) => h.event.0.index() == event.0.index() && h.event.0.generation()
                    == event.0.generation(),
                None => false,
            };
            let ghost before = out@;
            if listening {
                out.push(HandlerId(k));
            }
            proof {
                assert forall|j: int|
                    0 <= j < i + 1 && self@.handlers.get(#[trigger] keys@[j]).unwrap().event
                        == event implies out@.contains(HandlerId(keys@[j])) by {
                    if j < i {
                        assert(before.contains(HandlerId(keys@[j])));
                        let a = choose|a: int| 0 <= a < before.len() && before[a] == HandlerId(keys@[j]);
                        assert(out@[a] == HandlerId(keys@[j]));
                    } else {
                        assert(out@[before.len() as int] == HandlerId(k));
                    }
                }
                assert forall|a: int| 0 <= a < out@.len() implies self@.handlers.contains(
                    (#[trigger] out@[a]).0,
                ) && self@.handlers.get(out@[a].0).unwrap().event == event by {
                    if a < before.len() {
                        assert(out@[a] == before[a]);
                    }
                }
                if i + 1 < keys@.len() {
                    assert forall|a: int| 0 <= a < out@.len() implies (#[trigger] out@[a]).0.index()
                        < keys@[i + 1].index() by {
                        assert(keys@[i as int].index() < keys@[i + 1].index());
                        if a < before.len() {
                            assert(before[a] == out@[a]);
                        }
                    }
                }
            }
            i = i + 1;
        }
        proof {
            assert forall|h: HandlerId| #[trigger]
                out@.contains(h) <==> self@.handlers.contains(h.0) && self@.handlers.get(
                    h.0,
                ).unwrap().event == event by {
                if out@.contains(h) {
                    let a = choose|a: int| 0 <= a < out@.len() && out@[a] == h;
                    assert(self@.handlers.contains(out@[a].0));
                }
                if self@.handlers.contains(h.0) && self@.handlers.get(h.0).unwrap().event == event {
                    assert(self@.handlers.keys().contains(h.0));
                    let j = choose|j: int| 0 <= j < keys@.len() && keys@[j] == h.0;
                    assert(out@.contains(HandlerId(keys@[j])));
                }
            }
        }
        out
    }

    /// The value that the entity `entity` has for the component `component`;
    /// `None` when either is not live or the entity lacks the component.
    pub fn get(&self, entity: EntityId, component: ComponentId) -> (r: Option<&V>)
        requires
            self.wf(),
        ensures
            r is Some <==> self@.component_value(entity, component) is Some,
            r matches Some(v) ==> self@.component_value(entity, component) == Some(*v),
    {
        if !self.components.contains(component) {
            return None;
        }
        let loc = match self.entities.get(entity) {
            Some(loc) => loc,
            None => {
                return None;
            },
        };
        proof {
            assert(self@.location_ok(entity.0));
        }
        match self.archetypes.get(loc.archetype) {
            Some(arch) => arch.get(loc.row, component.index()),
            None => None,
        }
    }
}

} // verus!
