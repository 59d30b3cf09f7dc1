//! The state of a world and what keeps it consistent.
//!
//! [`WorldView`] is the mathematical state of a world. Its predicates say when
//! the tables of a world agree with each other, and its lemmas show that each
//! step that a world takes keeps them in agreement.

use crate::archetype::archetype_at;
use crate::archetype::archetypes_wf;
use crate::archetype::find_composition;
use crate::archetype::{Archetype, ArchetypeIdx};
use crate::component::lemma_added_wf;
use crate::component::lemma_same_components_precede;
use crate::component::{ComponentDescriptor, ComponentId, ComponentIdx, ComponentInfo};
use crate::entity::{EntityId, EntityLocation};
use crate::event::{EventId, EventKind};
use crate::handler::{HandlerId, HandlerInfo};
use crate::slot_map::lemma_generation_safety;
use crate::slot_map::lemma_insert;
use crate::slot_map::lemma_precedes_transitive;
use crate::slot_map::lemma_remove;
use crate::slot_map::lemma_set_at;
use crate::slot_map::{Key, SlotMapView};
use vstd::prelude::*;

verus! {

/// The mathematical state of a [`World`].
pub struct WorldView<V> {
    pub components: SlotMapView<ComponentInfo>,
    pub archetypes: Seq<Option<Archetype<V>>>,
    pub entities: SlotMapView<EntityLocation>,
    pub handlers: SlotMapView<HandlerInfo>,
    pub events: SlotMapView<EventKind>,
}

impl<V> WorldView<V> {
    /// There is an archetype at `a`, and its composition includes the
    /// component index `c`.
    pub open spec fn includes(self, a: int, c: int) -> bool {
        &&& 0 <= a < self.archetypes.len()
        &&& self.archetypes[a] is Some
        &&& 0 <= c <= 0xffff_ffff
        &&& self.archetypes[a].unwrap().has(ComponentIdx(c as u32))
    }

    /// There is a component at index `c`, and its member-of set names the
    /// archetype index `a`.
    pub open spec fn member(self, c: int, a: int) -> bool {
        &&& self.components.occupied(c)
        &&& 0 <= a <= 0xffff_ffff
        &&& self.components.info(c).member_of@.contains(ArchetypeIdx(a as u32))
    }

    /// Membership consistency: the composition of an archetype includes a
    /// component exactly when the member-of set of the component names the
    /// archetype.
    pub open spec fn membership_wf(self) -> bool {
        forall|a: int, c: int|
            #![trigger self.includes(a, c)]
            #![trigger self.member(c, a)]
            self.includes(a, c) <==> self.member(c, a)
    }

    /// The archetype at `a`.
    pub open spec fn archetype(self, a: int) -> Archetype<V> {
        self.archetypes[a].unwrap()
    }

    /// Where a live entity is stored there is a row, and the row is the
    /// entity's.
    pub open spec fn location_ok(self, k: Key) -> bool {
        self.entities.contains(k) ==> {
            let loc = self.entities.get(k).unwrap();
            &&& archetype_at(self.archetypes, loc.archetype.0 as int) is Some
            &&& loc.row < self.archetype(loc.archetype.0 as int).rows@.len()
            &&& self.archetype(loc.archetype.0 as int).rows@[loc.row as int].entity == EntityId(k)
        }
    }

    /// There is a row `r` in the archetype at `a`.
    pub open spec fn has_row(self, a: int, r: int) -> bool {
        &&& 0 <= a < self.archetypes.len()
        &&& self.archetypes[a] is Some
        &&& 0 <= r < self.archetype(a).rows@.len()
    }

    /// The entity of a row is live and stored in that row.
    pub open spec fn row_ok(self, a: int, r: int) -> bool {
        self.has_row(a, r) ==> {
            let k = self.archetype(a).rows@[r].entity.0;
            &&& self.entities.contains(k)
            &&& self.entities.get(k).unwrap().archetype.0 == a
            &&& self.entities.get(k).unwrap().row == r
        }
    }

    /// The handler at the occupied slot `i`.
    pub open spec fn handler(self, i: int) -> HandlerInfo {
        self.handlers.slots[i].value.unwrap()
    }

    /// A handler carries its identifier, listens to a registered event, and
    /// accesses registered components without conflict.
    pub open spec fn handler_ok(self, i: int) -> bool {
        self.handlers.occupied(i) ==> {
            &&& self.handler(i).id == HandlerId(
                Key::make(i as u32, self.handlers.slots[i].generation),
            )
            &&& self.events.contains(self.handler(i).event.0)
            &&& self.handler(i).access.wf()
            &&& forall|j: int|
                0 <= j < self.handler(i).access@.len() ==> self.components.occupied(
                    (#[trigger] self.handler(i).access@[j]).0.0 as int,
                )
        }
    }

    /// An event that is tied to a component is listed by that component, which
    /// is registered.
    pub open spec fn event_ok(self, i: int) -> bool {
        self.events.occupied(i) ==> {
            let id = EventId(
                Key::make(i as u32, self.events.slots[i].generation),
            );
            match self.events.slots[i].value.unwrap() {
                EventKind::Normal => true,
                EventKind::Insert(c) => self.components.contains(c.0) && self.components.info(
                    c.0.index() as int,
                ).insert_events@.contains(id),
                EventKind::Remove(c) => self.components.contains(c.0) && self.components.info(
                    c.0.index() as int,
                ).remove_events@.contains(id),
            }
        }
    }

    /// Every event that a component lists is registered and tied to that
    /// component.
    pub open spec fn listed_ok(self, c: int) -> bool {
        self.components.occupied(c) ==> {
            &&& forall|j: int|
                0 <= j < self.components.info(c).insert_events@.len() ==> self.events.get(
                    (#[trigger] self.components.info(c).insert_events@[j]).0,
                ) == Some(EventKind::Insert(self.components.info(c).id))
            &&& forall|j: int|
                0 <= j < self.components.info(c).remove_events@.len() ==> self.events.get(
                    (#[trigger] self.components.info(c).remove_events@[j]).0,
                ) == Some(EventKind::Remove(self.components.info(c).id))
        }
    }

    /// The state is consistent.
    pub open spec fn wf(self) -> bool {
        &&& self.components.registry_wf()
        &&& archetypes_wf(self.archetypes)
        &&& self.entities.wf()
        &&& self.handlers.wf()
        &&& self.events.wf()
        &&& self.membership_wf()
        &&& forall|k: Key| #[trigger] self.location_ok(k)
        &&& forall|a: int, r: int| #[trigger] self.row_ok(a, r)
        &&& forall|i: int| #[trigger] self.handler_ok(i)
        &&& forall|i: int| #[trigger] self.event_ok(i)
        &&& forall|c: int| #[trigger] self.listed_ok(c)
    }

    /// The composition of the archetype at `a` without the component index
    /// `c`.
    pub open spec fn remainder(self, a: int, c: int) -> Seq<ComponentIdx> {
        let components = self.archetype(a).components@;
        components.remove(components.index_of(ComponentIdx(c as u32)))
    }

    /// In `now`, the archetype at `a` has lost the component index `c`: it is
    /// deleted where an archetype of `self` has the composition that is left,
    /// and else it is kept, with that composition and without entities.
    pub open spec fn detached(self, now: Self, a: int, c: int) -> bool {
        if find_composition(self.archetypes, self.remainder(a, c)) is Some {
            archetype_at(now.archetypes, a) is None
        } else {
            &&& archetype_at(now.archetypes, a) matches Some(x)
            &&& x.components@ == self.remainder(a, c)
            &&& x.rows@.len() == 0
            &&& x.index == ArchetypeIdx(a as u32)
        }
    }

    /// `later` can be reached from `self`: in each table no slot is lost, no
    /// generation shrinks, and a retired slot stays retired.
    pub open spec fn precedes(self, later: Self) -> bool {
        &&& self.components.precedes(later.components)
        &&& self.entities.precedes(later.entities)
        &&& self.handlers.precedes(later.handlers)
        &&& self.events.precedes(later.events)
    }

    /// The entity `k` is live and has the component at index `c`.
    pub open spec fn entity_has(self, k: Key, c: int) -> bool {
        self.entities.contains(k) && self.includes(
            self.entities.get(k).unwrap().archetype.0 as int,
            c,
        )
    }

    /// The handler `h` depends on the component `id`: it accesses the
    /// component, or it listens to an event that is tied to it.
    pub open spec fn handler_depends(self, h: HandlerInfo, id: ComponentId) -> bool {
        ||| h.access.references(ComponentIdx(id.0.index()))
        ||| self.events.get(h.event.0) matches Some(kind) && kind.spec_component() == Some(id)
    }

    /// `now` is a state in the course of removing the component `id` from the
    /// state `self`: the component is still registered; every other component
    /// is as it was but for its member-of set; what is gone of handlers, events
    /// and entities depended on the component; and every archetype is as it
    /// was, or included the component, no longer does, and has no entities.
    pub open spec fn cascading(self, now: Self, id: ComponentId) -> bool {
        let c = id.0.index() as int;
        &&& self.precedes(now)
        &&& now.components.contains(id.0)
        &&& now.components.slots.len() == self.components.slots.len()
        &&& now.components.free == self.components.free
        &&& forall|d: int|
            0 <= d < self.components.slots.len() ==> {
                &&& (#[trigger] now.components.slots[d]).generation
                    == self.components.slots[d].generation
                &&& now.components.slots[d].value is Some == self.components.slots[d].value is Some
                &&& now.components.slots[d].value is Some ==> now.components.info(
                    d,
                ).same_descriptor(self.components.info(d))
                &&& now.components.slots[d].value is Some && d != c ==> now.components.info(
                    d,
                ).same_but_members(self.components.info(d))
            }
        &&& forall|k: Key| #[trigger]
            now.handlers.contains(k) ==> self.handlers.contains(k) && now.handlers.get(k)
                == self.handlers.get(k)
        &&& forall|k: Key|
            self.handlers.contains(k) && !(#[trigger] now.handlers.contains(k))
                ==> self.handler_depends(self.handlers.get(k).unwrap(), id)
        &&& forall|k: Key| #[trigger]
            now.events.contains(k) ==> self.events.contains(k) && now.events.get(k)
                == self.events.get(k)
        &&& forall|k: Key|
            self.events.contains(k) && !(#[trigger] now.events.contains(k)) ==> self.events.get(
                k,
            ).unwrap().spec_component() == Some(id)
        &&& forall|k: Key| #[trigger]
            now.entities.contains(k) ==> self.entities.contains(k) && now.entities.get(k)
                == self.entities.get(k)
        &&& forall|k: Key|
            self.entities.contains(k) && !(#[trigger] now.entities.contains(k)) ==> self.entity_has(
                k,
                c,
            )
        &&& now.archetypes.len() == self.archetypes.len()
        &&& forall|a: int|
            #[trigger] archetype_at(now.archetypes, a) == archetype_at(self.archetypes, a) || {
                &&& self.includes(a, c)
                &&& !now.includes(a, c)
                &&& archetype_at(now.archetypes, a) matches Some(x) ==> x.rows@.len() == 0
                &&& self.detached(now, a, c)
            }
    }

    /// `post` is the state after removing the component `id` from the state
    /// `self` with everything that depended on it: the component is gone; of
    /// the entities, handlers and events exactly those are left that did not
    /// depend on it, unchanged; and no archetype includes it.
    pub open spec fn cascaded(self, post: Self, id: ComponentId) -> bool {
        let c = id.0.index() as int;
        &&& !post.components.contains(id.0)
        &&& forall|k: Key| #[trigger]
            post.components.contains(k) <==> self.components.contains(k) && k != id.0
        &&& forall|k: Key| #[trigger]
            post.components.contains(k) ==> post.components.get(k).unwrap().same_but_members(
                self.components.get(k).unwrap(),
            )
        &&& forall|k: Key| #[trigger]
            post.entities.contains(k) <==> self.entities.contains(k) && !self.entity_has(k, c)
        &&& forall|k: Key| #[trigger]
            post.entities.contains(k) ==> post.entities.get(k) == self.entities.get(k)
        &&& forall|k: EntityId, d: ComponentId|
            post.entities.contains(k.0) && post.components.contains(d.0)
                ==> #[trigger] post.component_value(k, d) == self.component_value(k, d)
        &&& forall|k: Key| #[trigger]
            post.handlers.contains(k) <==> self.handlers.contains(k) && !self.handler_depends(
                self.handlers.get(k).unwrap(),
                id,
            )
        &&& forall|k: Key| #[trigger]
            post.handlers.contains(k) ==> post.handlers.get(k) == self.handlers.get(k)
        &&& forall|k: Key| #[trigger]
            post.events.contains(k) <==> self.events.contains(k) && self.events.get(
                k,
            ).unwrap().spec_component() != Some(id)
        &&& forall|k: Key| #[trigger]
            post.events.contains(k) ==> post.events.get(k) == self.events.get(k)
        &&& forall|a: int| !#[trigger] post.includes(a, c)
        &&& forall|a: int|
            !self.includes(a, c) ==> #[trigger] archetype_at(post.archetypes, a) == archetype_at(
                self.archetypes,
                a,
            )
        &&& forall|a: int| #[trigger] self.includes(a, c) ==> self.detached(post, a, c)
        &&& post.archetypes.len() == self.archetypes.len()
        &&& self.components.remove(id.0).precedes(post.components)
        &&& self.precedes(post)
    }

    /// The value that the entity `e` has for the component `c`, if both are
    /// live and the entity has the component.
    pub open spec fn component_value(self, e: EntityId, c: ComponentId) -> Option<V> {
        if self.entities.contains(e.0) && self.components.contains(c.0) {
            let loc = self.entities.get(e.0).unwrap();
            self.archetype(loc.archetype.0 as int).value(
                loc.row as int,
                ComponentIdx(c.0.index()),
            )
        } else {
            None
        }
    }
}

/// The two tables hold archetypes at the same indices, with the same
/// compositions.
pub open spec fn same_compositions<V>(
    pre: Seq<Option<Archetype<V>>>,
    post: Seq<Option<Archetype<V>>>,
) -> bool {
    &&& post.len() == pre.len()
    &&& forall|a: int|
        0 <= a < pre.len() ==> {
            &&& (#[trigger] post[a]) is Some == pre[a] is Some
            &&& post[a] is Some ==> post[a].unwrap().components@ == pre[a].unwrap().components@
        }
}

/// One of the first `i` members of the composition is the component index `c`.
pub open spec fn among_first(components: Seq<ComponentIdx>, i: int, c: int) -> bool {
    exists|j: int| 0 <= j < i && j < components.len() && (#[trigger] components[j]).0 == c
}

/// A handler is to be removed with the event `event` or with the component
/// `component`: it listens to the one or accesses the other.
pub open spec fn depends_on(
    h: HandlerInfo,
    event: Option<EventId>,
    component: Option<ComponentIdx>,
) -> bool {
    ||| event == Some(h.event)
    ||| component matches Some(c) && h.access.references(c)
}

/// Membership stays consistent while neither a composition nor a member-of
/// set changes.
pub proof fn lemma_membership_same<V>(pre: WorldView<V>, post: WorldView<V>)
    requires
        pre.membership_wf(),
        same_compositions(pre.archetypes, post.archetypes),
        post.components.slots.len() == pre.components.slots.len(),
        forall|c: int|
            0 <= c < pre.components.slots.len() ==> (#[trigger] post.components.slots[c]).value
                is Some == pre.components.slots[c].value is Some && (post.components.slots[c].value
                is Some ==> post.components.info(c).member_of@ == pre.components.info(
                c,
            ).member_of@),
    ensures
        post.membership_wf(),
        forall|a: int, c: int| #[trigger] post.includes(a, c) == pre.includes(a, c),
        forall|a: int, c: int| #[trigger] post.member(c, a) == pre.member(c, a),
{
    assert forall|a: int, c: int| #[trigger] post.includes(a, c) == pre.includes(a, c) by {
        if 0 <= a < pre.archetypes.len() {
            assert(post.archetypes[a] is Some == pre.archetypes[a] is Some);
        }
    }
    assert forall|a: int, c: int| #[trigger] post.member(c, a) == pre.member(c, a) by {
        if 0 <= c < pre.components.slots.len() {
            assert(post.components.slots[c].value is Some == pre.components.slots[c].value is Some);
        }
    }
    assert forall|a: int, c: int|
        #![trigger post.includes(a, c)]
        #![trigger post.member(c, a)]
        post.includes(a, c) <==> post.member(c, a) by {
        assert(pre.includes(a, c) <==> pre.member(c, a));
        assert(post.includes(a, c) == pre.includes(a, c));
        assert(post.member(c, a) == pre.member(c, a));
    }
}

/// Handlers and events stay in order while they do not change and the
/// registry changes at most in its member-of sets.
pub proof fn lemma_dependents_same<V>(pre: WorldView<V>, post: WorldView<V>)
    requires
        forall|i: int| #[trigger] pre.handler_ok(i),
        forall|i: int| #[trigger] pre.event_ok(i),
        forall|c: int| #[trigger] pre.listed_ok(c),
        post.handlers == pre.handlers,
        post.events == pre.events,
        post.components.same_but_members(pre.components),
    ensures
        forall|i: int| #[trigger] post.handler_ok(i),
        forall|i: int| #[trigger] post.event_ok(i),
        forall|c: int| #[trigger] post.listed_ok(c),
{
    assert forall|c: int| post.components.occupied(c) == pre.components.occupied(c) by {
        if 0 <= c < pre.components.slots.len() {
            assert(post.components.slots[c].value is Some == pre.components.slots[c].value is Some);
        }
    }
    assert forall|i: int| #[trigger] post.handler_ok(i) by {
        assert(pre.handler_ok(i));
        if post.handlers.occupied(i) {
            assert forall|j: int| 0 <= j < post.handler(i).access@.len() implies post.components.occupied(
                (#[trigger] post.handler(i).access@[j]).0.0 as int,
            ) by {
                assert(pre.components.occupied(pre.handler(i).access@[j].0.0 as int));
            }
        }
    }
    assert forall|i: int| #[trigger] post.event_ok(i) by {
        assert(pre.event_ok(i));
        if post.events.occupied(i) {
            match post.events.slots[i].value.unwrap() {
                EventKind::Normal => {},
                EventKind::Insert(c) => {
                    assert(pre.components.occupied(c.0.index() as int));
                    assert(post.components.slots[c.0.index() as int].generation
                        == pre.components.slots[c.0.index() as int].generation);
                },
                EventKind::Remove(c) => {
                    assert(pre.components.occupied(c.0.index() as int));
                    assert(post.components.slots[c.0.index() as int].generation
                        == pre.components.slots[c.0.index() as int].generation);
                },
            }
        }
    }
    assert forall|c: int| #[trigger] post.listed_ok(c) by {
        assert(pre.listed_ok(c));
        if post.components.occupied(c) {
            assert(pre.components.occupied(c));
            assert(post.components.slots[c].generation == pre.components.slots[c].generation);
        }
    }
}

/// Registering a component keeps the world consistent.
pub proof fn lemma_add_component_wf<V>(pre: WorldView<V>, desc: ComponentDescriptor, post: WorldView<V>)
    requires
        pre.wf(),
        pre.components.can_add(desc),
        pre.components.added(desc, post.components),
        post.archetypes == pre.archetypes,
        post.entities == pre.entities,
        post.handlers == pre.handlers,
        post.events == pre.events,
    ensures
        pre.precedes(post),
        post.wf(),
{
    if pre.components.registered_as(desc) is None {
        lemma_insert(pre.components, post.components.get(pre.components.next_key().unwrap()).unwrap());
    }
    lemma_added_wf(pre.components, desc, post.components);
    if pre.components.registered_as(desc) is Some {
        assert(post == pre);
    } else {
        let k = pre.components.next_key().unwrap();
        let info = post.components.get(k).unwrap();
        lemma_insert(pre.components, info);
        assert forall|c: int| #[trigger] pre.components.occupied(c) implies post.components.occupied(
            c,
        ) && post.components.slots[c] == pre.components.slots[c] by {}
        assert forall|a: int, c: int|
            #![trigger post.includes(a, c)]
            #![trigger post.member(c, a)]
            post.includes(a, c) <==> post.member(c, a) by {
            if post.includes(a, c) {
                assert(pre.includes(a, c));
                assert(pre.member(c, a));
            }
            if post.member(c, a) {
                if c == k.index() {
                    assert(info.member_of@.len() == 0);
                } else {
                    assert(pre.components.occupied(c));
                    assert(pre.member(c, a));
                    assert(pre.includes(a, c));
                }
            }
        }
        assert forall|key: Key| #[trigger] post.location_ok(key) by {
            assert(pre.location_ok(key));
        }
        assert forall|a: int, r: int| #[trigger] post.row_ok(a, r) by {
            assert(pre.row_ok(a, r));
        }
        assert forall|i: int| #[trigger] post.handler_ok(i) by {
            assert(pre.handler_ok(i));
        }
        assert forall|i: int| #[trigger] post.event_ok(i) by {
            assert(pre.event_ok(i));
            if post.events.occupied(i) {
                match post.events.slots[i].value.unwrap() {
                    EventKind::Normal => {},
                    EventKind::Insert(c) => {
                        assert(pre.components.occupied(c.0.index() as int));
                    },
                    EventKind::Remove(c) => {
                        assert(pre.components.occupied(c.0.index() as int));
                    },
                }
            }
        }
        assert forall|c: int| #[trigger] post.listed_ok(c) by {
            if c != k.index() {
                assert(pre.listed_ok(c));
                if post.components.occupied(c) {
                    assert(pre.components.occupied(c));
                }
            }
        }
    }
}

/// Adding an entity without components keeps the world consistent.
pub proof fn lemma_spawn_wf<V>(pre: WorldView<V>, post: WorldView<V>, id: EntityId)
    requires
        pre.wf(),
        pre.entities.next_key() == Some(id.0),
        post.components == pre.components,
        post.handlers == pre.handlers,
        post.events == pre.events,
        post.entities == pre.entities.insert(
            EntityLocation { archetype: ArchetypeIdx(0), row: pre.archetype(0).rows@.len() as usize },
        ),
        pre.archetype(0).rows@.len() <= usize::MAX,
        archetypes_wf(post.archetypes),
        post.archetypes.len() == pre.archetypes.len(),
        post.archetype(0).components == pre.archetype(0).components,
        post.archetype(0).rows@.len() == pre.archetype(0).rows@.len() + 1,
        post.archetype(0).rows@.last().entity == id,
        forall|r: int|
            0 <= r < pre.archetype(0).rows@.len() ==> #[trigger] post.archetype(0).rows@[r]
                == pre.archetype(0).rows@[r],
        forall|a: int| a != 0 ==> #[trigger] archetype_at(post.archetypes, a) == archetype_at(
            pre.archetypes,
            a,
        ),
    ensures
        pre.precedes(post),
        post.wf(),
{
    let n = pre.archetype(0).rows@.len() as int;
    let loc = EntityLocation { archetype: ArchetypeIdx(0), row: n as usize };
    lemma_insert(pre.entities, loc);
    assert forall|a: int| 0 <= a < pre.archetypes.len() implies (#[trigger] post.archetypes[a])
        is Some == pre.archetypes[a] is Some && (post.archetypes[a] is Some ==> post.archetype(
        a,
    ).components == pre.archetype(a).components) by {
        if a != 0 {
            assert(archetype_at(post.archetypes, a) == archetype_at(pre.archetypes, a));
        }
    }
    assert forall|a: int, c: int|
        #![trigger post.includes(a, c)]
        #![trigger post.member(c, a)]
        post.includes(a, c) <==> post.member(c, a) by {
        assert(pre.includes(a, c) <==> pre.member(c, a));
        assert(post.member(c, a) == pre.member(c, a));
        if 0 <= a < pre.archetypes.len() {
            assert(post.archetypes[a] is Some == pre.archetypes[a] is Some);
        }
        assert(post.includes(a, c) == pre.includes(a, c));
    }
    assert forall|key: Key| #[trigger] post.location_ok(key) by {
        assert(pre.location_ok(key));
        if post.entities.contains(key) {
            if key == id.0 {
                assert(post.entities.get(key) == Some(loc));
            } else {
                assert(key.index() != id.0.index()) by {
                    if key.index() == id.0.index() {
                        assert(post.entities.slots[key.index() as int].generation
                            == id.0.generation());
                    }
                }
                assert(post.entities.get(key) == pre.entities.get(key));
                let l = pre.entities.get(key).unwrap();
                if l.archetype.0 != 0 {
                    assert(archetype_at(post.archetypes, l.archetype.0 as int) == archetype_at(
                        pre.archetypes,
                        l.archetype.0 as int,
                    ));
                } else {
                    assert(post.archetype(0).rows@[l.row as int] == pre.archetype(0).rows@[l.row as int]);
                }
            }
        }
    }
    assert forall|a: int, r: int| #[trigger] post.row_ok(a, r) by {
        assert(pre.row_ok(a, r));
        if post.has_row(a, r) {
            if a != 0 {
                assert(archetype_at(post.archetypes, a) == archetype_at(pre.archetypes, a));
                assert(pre.has_row(a, r));
                let e = pre.archetype(a).rows@[r].entity;
                assert(pre.entities.contains(e.0));
                assert(e.0.index() != id.0.index());
                assert(post.entities.get(e.0) == pre.entities.get(e.0));
            } else if r < n {
                assert(post.archetype(0).rows@[r] == pre.archetype(0).rows@[r]);
                assert(pre.has_row(a, r));
                let e = pre.archetype(a).rows@[r].entity;
                assert(pre.entities.contains(e.0));
                assert(e.0.index() != id.0.index());
                assert(post.entities.get(e.0) == pre.entities.get(e.0));
            } else {
                assert(post.archetype(0).rows@[r] == post.archetype(0).rows@.last());
                assert(post.entities.get(id.0) == Some(loc));
            }
        }
    }
    assert forall|i: int| #[trigger] post.handler_ok(i) by {
        assert(pre.handler_ok(i));
    }
    assert forall|i: int| #[trigger] post.event_ok(i) by {
        assert(pre.event_ok(i));
    }
    assert forall|c: int| #[trigger] post.listed_ok(c) by {
        assert(pre.listed_ok(c));
    }
}

/// Taking the row of a live entity out of its archetype, forgetting the
/// entity, and recording the new place of the row that took its place keeps
/// entities and rows in order.
pub proof fn lemma_detach_row<V>(pre: WorldView<V>, post: WorldView<V>, e: EntityId)
    requires
        pre.wf(),
        pre.entities.contains(e.0),
        post.components == pre.components,
        post.handlers == pre.handlers,
        post.events == pre.events,
        archetypes_wf(post.archetypes),
        post.archetypes.len() == pre.archetypes.len(),
        ({
            let loc = pre.entities.get(e.0).unwrap();
            let a = loc.archetype.0 as int;
            let rows = pre.archetype(a).rows@;
            &&& post.archetypes[a] is Some
            &&& post.archetype(a).components == pre.archetype(a).components
            &&& post.archetype(a).rows@ == crate::map::swap_removed(rows, loc.row as int)
            &&& forall|b: int| b != a ==> #[trigger] archetype_at(post.archetypes, b) == archetype_at(
                pre.archetypes,
                b,
            )
            &&& post.entities == (if loc.row < rows.len() - 1 {
                pre.entities.remove(e.0).set_at(rows.last().entity.0.index(), loc)
            } else {
                pre.entities.remove(e.0)
            })
        }),
    ensures
        pre.precedes(post),
        pre.entities.remove(e.0).precedes(post.entities),
        post.wf(),
        !post.entities.contains(e.0),
        forall|k: Key| k != e.0 ==> #[trigger] post.entities.contains(k) == pre.entities.contains(k),
        forall|k: EntityId, c: ComponentId|
            k != e ==> #[trigger] post.component_value(k, c) == pre.component_value(k, c),
{
    assert(pre.entities.remove(e.0).precedes(post.entities) && pre.entities.precedes(
        post.entities,
    )) by {
        let loc = pre.entities.get(e.0).unwrap();
        let rows = pre.archetype(loc.archetype.0 as int).rows@;
        let mid = pre.entities.remove(e.0);
        lemma_remove(pre.entities, e.0);
        if loc.row < rows.len() - 1 {
            lemma_set_at(mid, rows.last().entity.0.index(), loc);
            lemma_precedes_transitive(pre.entities, mid, post.entities);
        }
    }
    let loc = pre.entities.get(e.0).unwrap();
    let a = loc.archetype.0 as int;
    let rows = pre.archetype(a).rows@;
    let last = rows.len() - 1;
    assert(pre.location_ok(e.0));
    assert(rows[loc.row as int].entity == e);
    let mid = pre.entities.remove(e.0);
    lemma_remove(pre.entities, e.0);
    let moved = rows.last().entity;
    assert(pre.row_ok(a, last));
    assert(pre.entities.get(moved.0).unwrap().row == last);
    if loc.row < last {
        assert(moved.0.index() != e.0.index()) by {
            if moved.0.index() == e.0.index() {
                assert(moved.0.generation() == e.0.generation());
                assert(moved.0 == e.0);
            }
        }
        assert(mid.get(moved.0) == pre.entities.get(moved.0));
        lemma_set_at(mid, moved.0.index(), loc);
        assert(mid.occupied(moved.0.index() as int));
        assert(post.entities.get(moved.0) == Some(loc));
    }
    assert(same_compositions(pre.archetypes, post.archetypes)) by {
        assert forall|b: int| 0 <= b < pre.archetypes.len() implies {
            &&& (#[trigger] post.archetypes[b]) is Some == pre.archetypes[b] is Some
            &&& post.archetypes[b] is Some ==> post.archetypes[b].unwrap().components@
                == pre.archetypes[b].unwrap().components@
        } by {
            if b != a {
                assert(archetype_at(post.archetypes, b) == archetype_at(pre.archetypes, b));
            }
        }
    }
    lemma_membership_same(pre, post);
    lemma_dependents_same(pre, post);
    assert forall|k: Key| k != e.0 implies #[trigger] post.entities.contains(k)
        == pre.entities.contains(k) && (k != moved.0 && pre.entities.contains(k)
        ==> post.entities.get(k) == pre.entities.get(k)) by {
        if k.index() != e.0.index() {
            assert(mid.get(k) == pre.entities.get(k));
        } else {
            assert(!mid.contains(k));
            assert(!pre.entities.contains(k));
        }
        if loc.row < last {
            if k.index() != moved.0.index() {
                assert(post.entities.get(k) == mid.get(k));
            } else {
                assert(post.entities.contains(k) == mid.contains(k));
            }
        }
    }
    assert forall|k: Key| #[trigger] post.location_ok(k) by {
        assert(pre.location_ok(k));
        if post.entities.contains(k) {
            assert(k != e.0);
            if loc.row < last && k == moved.0 {
                assert(post.archetype(a).rows@[loc.row as int] == rows[last]);
            } else {
                assert(post.entities.get(k) == pre.entities.get(k));
                let l = pre.entities.get(k).unwrap();
                let b = l.archetype.0 as int;
                if b != a {
                    assert(archetype_at(post.archetypes, b) == archetype_at(pre.archetypes, b));
                } else {
                    assert(pre.row_ok(a, l.row as int));
                    assert(l.row != last) by {
                        if l.row == last {
                            assert(rows[last].entity == EntityId(k));
                        }
                    }
                    assert(l.row != loc.row) by {
                        if l.row == loc.row {
                            assert(rows[loc.row as int].entity == EntityId(k));
                        }
                    }
                    assert(post.archetype(a).rows@[l.row as int] == rows[l.row as int]);
                }
            }
        }
    }
    assert forall|b: int, r: int| #[trigger] post.row_ok(b, r) by {
        if post.has_row(b, r) {
            if b != a {
                assert(archetype_at(post.archetypes, b) == archetype_at(pre.archetypes, b));
                assert(pre.row_ok(b, r));
                let k = pre.archetype(b).rows@[r].entity;
                assert(pre.entities.contains(k.0));
                assert(k != e);
                assert(k != moved);
                assert(post.entities.get(k.0) == pre.entities.get(k.0));
            } else if r == loc.row {
                assert(post.archetype(a).rows@[r] == rows[last]);
            } else {
                assert(post.archetype(a).rows@[r] == rows[r]);
                assert(pre.row_ok(a, r));
                let k = rows[r].entity;
                assert(pre.entities.contains(k.0));
                assert(k != e);
                assert(k != moved);
                assert(post.entities.get(k.0) == pre.entities.get(k.0));
            }
        }
    }
    assert forall|k: EntityId, c: ComponentId| k != e implies #[trigger] post.component_value(k, c)
        == pre.component_value(k, c) by {
        assert(post.entities.contains(k.0) == pre.entities.contains(k.0));
        if pre.entities.contains(k.0) && pre.components.contains(c.0) {
            assert(pre.location_ok(k.0));
            let l = pre.entities.get(k.0).unwrap();
            let b = l.archetype.0 as int;
            if loc.row < last && k == moved {
                assert(post.archetype(a).rows@[loc.row as int] == rows[last]);
            } else {
                assert(k.0 != moved.0) by {
                    if k.0 == moved.0 {
                        assert(loc.row == last);
                        assert(rows[last].entity == e);
                    }
                }
                assert(post.entities.get(k.0) == pre.entities.get(k.0));
                if b != a {
                    assert(archetype_at(post.archetypes, b) == archetype_at(pre.archetypes, b));
                } else {
                    assert(pre.row_ok(a, l.row as int));
                    assert(l.row != last) by {
                        if l.row == last {
                            assert(rows[last].entity == k);
                        }
                    }
                    assert(l.row != loc.row) by {
                        if l.row == loc.row {
                            assert(rows[loc.row as int].entity == k);
                        }
                    }
                    assert(post.archetype(a).rows@[l.row as int] == rows[l.row as int]);
                }
            }
        }
    }
}

/// Storing a new archetype without entities and naming it in the member-of set
/// of each component of its composition keeps the world consistent.
pub proof fn lemma_create_archetype_wf<V>(pre: WorldView<V>, post: WorldView<V>, idx: ArchetypeIdx)
    requires
        pre.wf(),
        archetypes_wf(post.archetypes),
        post.components.registry_wf(),
        archetype_at(pre.archetypes, idx.0 as int) is None,
        idx.0 < post.archetypes.len(),
        pre.archetypes.len() <= post.archetypes.len(),
        post.archetypes[idx.0 as int] is Some,
        post.archetype(idx.0 as int).rows@.len() == 0,
        forall|j: int|
            0 <= j < post.archetype(idx.0 as int).components@.len() ==> pre.components.occupied(
                (#[trigger] post.archetype(idx.0 as int).components@[j]).0 as int,
            ),
        forall|a: int| a != idx.0 ==> #[trigger] archetype_at(post.archetypes, a) == archetype_at(
            pre.archetypes,
            a,
        ),
        post.entities == pre.entities,
        post.handlers == pre.handlers,
        post.events == pre.events,
        post.components.same_but_members(pre.components),
        forall|c: int, y: ArchetypeIdx|
            pre.components.occupied(c) ==> (#[trigger] post.components.info(c).member_of@.contains(y)
                <==> (pre.components.info(c).member_of@.contains(y) || (y == idx && among_first(
                post.archetype(idx.0 as int).components@,
                post.archetype(idx.0 as int).components@.len() as int,
                c,
            )))),
    ensures
        pre.precedes(post),
        post.wf(),
        forall|k: EntityId, c: ComponentId| #[trigger]
            post.component_value(k, c) == pre.component_value(k, c),
        forall|k: Key, d: int| #[trigger] post.entity_has(k, d) == pre.entity_has(k, d),
{
    lemma_same_components_precede(pre.components, post.components);
    let n = idx.0 as int;
    let comps = post.archetype(n).components@;
    assert forall|k: Key, d: int| #[trigger] post.entity_has(k, d) == pre.entity_has(k, d) by {
        if pre.entities.contains(k) {
            assert(pre.location_ok(k));
            let l = pre.entities.get(k).unwrap();
            assert(l.archetype.0 != n);
            assert(archetype_at(post.archetypes, l.archetype.0 as int) == archetype_at(
                pre.archetypes,
                l.archetype.0 as int,
            ));
        }
    }
    assert forall|c: int| post.components.occupied(c) == pre.components.occupied(c) by {
        if 0 <= c < pre.components.slots.len() {
            assert(post.components.slots[c].value is Some == pre.components.slots[c].value is Some);
        }
    }
    assert forall|a: int, c: int|
        #![trigger post.includes(a, c)]
        #![trigger post.member(c, a)]
        post.includes(a, c) <==> post.member(c, a) by {
        assert(pre.includes(a, c) <==> pre.member(c, a));
        if a != n {
            assert(archetype_at(post.archetypes, a) == archetype_at(pre.archetypes, a));
            assert(post.includes(a, c) == pre.includes(a, c));
            if pre.components.occupied(c) && 0 <= a <= 0xffff_ffff {
                assert(post.components.info(c).member_of@.contains(ArchetypeIdx(a as u32))
                    <==> pre.components.info(c).member_of@.contains(ArchetypeIdx(a as u32)));
            }
        } else {
            assert(!pre.includes(n, c));
            if post.includes(n, c) {
                let j = choose|j: int| 0 <= j < comps.len() && comps[j] == ComponentIdx(c as u32);
                assert(pre.components.occupied(comps[j].0 as int));
                assert(among_first(comps, comps.len() as int, c));
                assert(post.components.info(c).member_of@.contains(idx));
            }
            if post.member(c, n) {
                assert(pre.components.occupied(c));
                assert(post.components.info(c).member_of@.contains(idx));
                assert(!pre.member(c, n));
                assert(among_first(comps, comps.len() as int, c));
                let j = choose|j: int| 0 <= j < comps.len() && j < comps.len() && (#[trigger] comps[j]).0 == c;
                assert(comps[j] == ComponentIdx(c as u32));
            }
        }
    }
    assert forall|k: Key| #[trigger] post.location_ok(k) by {
        assert(pre.location_ok(k));
        if post.entities.contains(k) {
            let l = pre.entities.get(k).unwrap();
            assert(l.archetype.0 != n);
            assert(archetype_at(post.archetypes, l.archetype.0 as int) == archetype_at(
                pre.archetypes,
                l.archetype.0 as int,
            ));
        }
    }
    assert forall|a: int, r: int| #[trigger] post.row_ok(a, r) by {
        if post.has_row(a, r) {
            assert(a != n);
            assert(archetype_at(post.archetypes, a) == archetype_at(pre.archetypes, a));
            assert(pre.row_ok(a, r));
        }
    }
    lemma_dependents_same(pre, post);
    assert forall|k: EntityId, c: ComponentId| #[trigger]
        post.component_value(k, c) == pre.component_value(k, c) by {
        assert(post.components.contains(c.0) == pre.components.contains(c.0)) by {
            if 0 <= c.0.index() < pre.components.slots.len() {
                assert(post.components.slots[c.0.index() as int].generation
                    == pre.components.slots[c.0.index() as int].generation);
            }
        }
        if pre.entities.contains(k.0) {
            assert(pre.location_ok(k.0));
            let l = pre.entities.get(k.0).unwrap();
            assert(l.archetype.0 != n);
            assert(archetype_at(post.archetypes, l.archetype.0 as int) == archetype_at(
                pre.archetypes,
                l.archetype.0 as int,
            ));
        }
    }
}

/// Replacing one value of a live entity keeps the world consistent and
/// changes no other value.
pub proof fn lemma_replace_wf<V>(
    pre: WorldView<V>,
    post: WorldView<V>,
    e: EntityId,
    c: ComponentId,
    value: V,
)
    requires
        pre.wf(),
        pre.entities.contains(e.0),
        pre.components.contains(c.0),
        post.components == pre.components,
        post.entities == pre.entities,
        post.handlers == pre.handlers,
        post.events == pre.events,
        archetypes_wf(post.archetypes),
        post.archetypes.len() == pre.archetypes.len(),
        ({
            let loc = pre.entities.get(e.0).unwrap();
            let a = loc.archetype.0 as int;
            let ci = ComponentIdx(c.0.index());
            &&& pre.archetype(a).has(ci)
            &&& post.archetypes[a] is Some
            &&& post.archetype(a).components == pre.archetype(a).components
            &&& post.archetype(a).rows@.len() == pre.archetype(a).rows@.len()
            &&& post.archetype(a).rows@[loc.row as int].entity == e
            &&& post.archetype(a).rows@[loc.row as int].values@ == pre.archetype(
                a,
            ).rows@[loc.row as int].values@.update(pre.archetype(a).components@.index_of(ci), value)
            &&& forall|r: int|
                0 <= r < pre.archetype(a).rows@.len() && r != loc.row ==> (
                #[trigger] post.archetype(a).rows@[r]) == pre.archetype(a).rows@[r]
            &&& forall|b: int| b != a ==> #[trigger] archetype_at(post.archetypes, b) == archetype_at(
                pre.archetypes,
                b,
            )
        }),
    ensures
        pre.precedes(post),
        post.wf(),
        post.component_value(e, c) == Some(value),
        forall|k: EntityId, d: ComponentId|
            !(k == e && d == c) ==> #[trigger] post.component_value(k, d) == pre.component_value(
                k,
                d,
            ),
        forall|k: Key, d: int| #[trigger] post.entity_has(k, d) == pre.entity_has(k, d),
        pre.entity_has(e.0, c.0.index() as int),
{
    let loc = pre.entities.get(e.0).unwrap();
    let a = loc.archetype.0 as int;
    let ci = ComponentIdx(c.0.index());
    let comps = pre.archetype(a).components@;
    let p = comps.index_of(ci);
    assert(pre.location_ok(e.0));
    assert(0 <= p < comps.len() && comps[p] == ci);
    assert(same_compositions(pre.archetypes, post.archetypes)) by {
        assert forall|b: int| 0 <= b < pre.archetypes.len() implies {
            &&& (#[trigger] post.archetypes[b]) is Some == pre.archetypes[b] is Some
            &&& post.archetypes[b] is Some ==> post.archetypes[b].unwrap().components@
                == pre.archetypes[b].unwrap().components@
        } by {
            if b != a {
                assert(archetype_at(post.archetypes, b) == archetype_at(pre.archetypes, b));
            }
        }
    }
    lemma_membership_same(pre, post);
    lemma_dependents_same(pre, post);
    assert forall|k: Key, d: int| #[trigger] post.entity_has(k, d) == pre.entity_has(k, d) by {
        if pre.entities.contains(k) {
            let l = pre.entities.get(k).unwrap();
            assert(post.includes(l.archetype.0 as int, d) == pre.includes(l.archetype.0 as int, d));
        }
    }
    assert forall|k: Key| #[trigger] post.location_ok(k) by {
        assert(pre.location_ok(k));
        if post.entities.contains(k) {
            let l = pre.entities.get(k).unwrap();
            let b = l.archetype.0 as int;
            if b != a {
                assert(archetype_at(post.archetypes, b) == archetype_at(pre.archetypes, b));
            } else if l.row != loc.row {
                assert(post.archetype(a).rows@[l.row as int] == pre.archetype(a).rows@[l.row as int]);
            } else {
                assert(pre.archetype(a).rows@[l.row as int].entity == EntityId(k));
            }
        }
    }
    assert forall|b: int, r: int| #[trigger] post.row_ok(b, r) by {
        if post.has_row(b, r) {
            if b != a {
                assert(archetype_at(post.archetypes, b) == archetype_at(pre.archetypes, b));
            } else if r != loc.row {
                assert(post.archetype(a).rows@[r] == pre.archetype(a).rows@[r]);
            }
            assert(pre.row_ok(b, r));
        }
    }
    assert forall|k: EntityId, d: ComponentId| !(k == e && d == c) implies #[trigger] post.component_value(
        k,
        d,
    ) == pre.component_value(k, d) by {
        if pre.entities.contains(k.0) && pre.components.contains(d.0) {
            assert(pre.location_ok(k.0));
            let l = pre.entities.get(k.0).unwrap();
            let b = l.archetype.0 as int;
            let di = ComponentIdx(d.0.index());
            if b != a {
                assert(archetype_at(post.archetypes, b) == archetype_at(pre.archetypes, b));
            } else if l.row != loc.row {
                assert(post.archetype(a).rows@[l.row as int] == pre.archetype(a).rows@[l.row as int]);
            } else {
                assert(k == e);
                assert(d.0.index() != c.0.index()) by {
                    if d.0.index() == c.0.index() {
                        assert(d.0.generation() == c.0.generation());
                        assert(d.0 == c.0);
                    }
                }
                if comps.contains(di) {
                    let q = comps.index_of(di);
                    assert(0 <= q < comps.len() && comps[q] == di);
                    assert(q != p);
                }
            }
        }
    }
}

/// Moving a live entity to the archetype whose composition has one component
/// more, with a value for that component, keeps the world consistent and
/// changes no other value.
pub proof fn lemma_move_wf<V>(
    pre: WorldView<V>,
    post: WorldView<V>,
    e: EntityId,
    c: ComponentId,
    value: V,
    target: ArchetypeIdx,
    place: int,
)
    requires
        pre.wf(),
        pre.entities.contains(e.0),
        pre.components.contains(c.0),
        post.components == pre.components,
        post.handlers == pre.handlers,
        post.events == pre.events,
        archetypes_wf(post.archetypes),
        post.archetypes.len() == pre.archetypes.len(),
        archetype_at(pre.archetypes, target.0 as int) is Some,
        ({
            let loc = pre.entities.get(e.0).unwrap();
            let a = loc.archetype.0 as int;
            let t = target.0 as int;
            let ci = ComponentIdx(c.0.index());
            let rows = pre.archetype(a).rows@;
            let there = pre.archetype(t).rows@;
            &&& 0 <= place <= pre.archetype(a).components@.len()
            &&& forall|j: int| 0 <= j < place ==> pre.archetype(a).components@[j].0 < ci.0
            &&& forall|j: int|
                place <= j < pre.archetype(a).components@.len() ==> ci.0 < pre.archetype(
                    a,
                ).components@[j].0
            &&& pre.archetype(t).components@ == pre.archetype(a).components@.insert(place, ci)
            &&& post.archetypes[a] is Some
            &&& post.archetype(a).components == pre.archetype(a).components
            &&& post.archetype(a).rows@ == crate::map::swap_removed(rows, loc.row as int)
            &&& post.archetypes[t] is Some
            &&& post.archetype(t).components == pre.archetype(t).components
            &&& post.archetype(t).rows@.len() == there.len() + 1
            &&& there.len() <= usize::MAX
            &&& forall|r: int| 0 <= r < there.len() ==> (#[trigger] post.archetype(t).rows@[r]) == there[r]
            &&& post.archetype(t).rows@.last().entity == e
            &&& post.archetype(t).rows@.last().values@ == rows[loc.row as int].values@.insert(
                place,
                value,
            )
            &&& forall|b: int|
                b != a && b != t ==> #[trigger] archetype_at(post.archetypes, b) == archetype_at(
                    pre.archetypes,
                    b,
                )
            &&& post.entities == (if loc.row < rows.len() - 1 {
                pre.entities.set_at(rows.last().entity.0.index(), loc)
            } else {
                pre.entities
            }).set_at(e.0.index(), EntityLocation { archetype: target, row: there.len() as usize })
        }),
    ensures
        pre.precedes(post),
        post.wf(),
        post.component_value(e, c) == Some(value),
        forall|k: Key| #[trigger] post.entities.contains(k) == pre.entities.contains(k),
        forall|k: EntityId, d: ComponentId|
            !(k == e && d == c) ==> #[trigger] post.component_value(k, d) == pre.component_value(
                k,
                d,
            ),
        forall|k: Key, d: int|
            k != e.0 ==> #[trigger] post.entity_has(k, d) == pre.entity_has(k, d),
        forall|d: int| #[trigger]
            post.entity_has(e.0, d) <==> pre.entity_has(e.0, d) || d == c.0.index(),
        !pre.entity_has(e.0, c.0.index() as int),
{
    assert(pre.entities.precedes(post.entities)) by {
        let loc = pre.entities.get(e.0).unwrap();
        let rows = pre.archetype(loc.archetype.0 as int).rows@;
        let there = pre.archetype(target.0 as int).rows@;
        let here = EntityLocation { archetype: target, row: there.len() as usize };
        if loc.row < rows.len() - 1 {
            let step = pre.entities.set_at(rows.last().entity.0.index(), loc);
            lemma_set_at(pre.entities, rows.last().entity.0.index(), loc);
            lemma_set_at(step, e.0.index(), here);
            lemma_precedes_transitive(pre.entities, step, post.entities);
        } else {
            lemma_set_at(pre.entities, e.0.index(), here);
        }
    }
    let loc = pre.entities.get(e.0).unwrap();
    let a = loc.archetype.0 as int;
    let t = target.0 as int;
    let ci = ComponentIdx(c.0.index());
    let rows = pre.archetype(a).rows@;
    let there = pre.archetype(t).rows@;
    let last = rows.len() - 1;
    let source = pre.archetype(a).components@;
    let dest = pre.archetype(t).components@;
    let here = EntityLocation { archetype: target, row: there.len() as usize };
    assert(pre.location_ok(e.0));
    crate::archetype::lemma_insert_ascending(source, place, ci);
    assert(a != t) by {
        if a == t {
            assert(dest.len() == source.len() + 1);
        }
    }
    let moved = rows.last().entity;
    assert(pre.row_ok(a, last));
    let step = if loc.row < last {
        pre.entities.set_at(moved.0.index(), loc)
    } else {
        pre.entities
    };
    if loc.row < last {
        assert(moved.0.index() != e.0.index()) by {
            if moved.0.index() == e.0.index() {
                assert(moved.0.generation() == e.0.generation());
                assert(moved.0 == e.0);
            }
        }
        lemma_set_at(pre.entities, moved.0.index(), loc);
    }
    lemma_set_at(step, e.0.index(), here);
    assert(step.occupied(e.0.index() as int));
    assert(post.entities.get(e.0) == Some(here));
    assert forall|k: Key| #[trigger] post.entities.contains(k) == pre.entities.contains(k) by {
        assert(step.contains(k) == pre.entities.contains(k));
    }
    assert forall|k: Key|
        pre.entities.contains(k) && k != e.0 && !(loc.row < last && k == moved.0)
        implies #[trigger] post.entities.get(k) == pre.entities.get(k) by {
        assert(k.index() != e.0.index()) by {
            if k.index() == e.0.index() {
                assert(k.generation() == e.0.generation());
            }
        }
        assert(post.entities.get(k) == step.get(k));
        if loc.row < last {
            assert(k.index() != moved.0.index()) by {
                if k.index() == moved.0.index() {
                    assert(k.generation() == moved.0.generation());
                }
            }
        }
    }
    if loc.row < last {
        assert(step.get(moved.0) == Some(loc));
        assert(post.entities.get(moved.0) == Some(loc));
    }
    assert(same_compositions(pre.archetypes, post.archetypes)) by {
        assert forall|b: int| 0 <= b < pre.archetypes.len() implies {
            &&& (#[trigger] post.archetypes[b]) is Some == pre.archetypes[b] is Some
            &&& post.archetypes[b] is Some ==> post.archetypes[b].unwrap().components@
                == pre.archetypes[b].unwrap().components@
        } by {
            if b != a && b != t {
                assert(archetype_at(post.archetypes, b) == archetype_at(pre.archetypes, b));
            }
        }
    }
    lemma_membership_same(pre, post);
    lemma_dependents_same(pre, post);
    assert forall|d: int| #[trigger]
        post.entity_has(e.0, d) <==> pre.entity_has(e.0, d) || d == c.0.index() by {
        assert(post.includes(t, d) == pre.includes(t, d));
        assert(post.includes(a, d) == pre.includes(a, d));
        if 0 <= d <= 0xffff_ffff {
            assert(dest.contains(ComponentIdx(d as u32)) <==> (ComponentIdx(d as u32) == ci
                || source.contains(ComponentIdx(d as u32))));
        }
    }
    assert forall|k: Key, d: int| k != e.0 implies #[trigger] post.entity_has(k, d)
        == pre.entity_has(k, d) by {
        if pre.entities.contains(k) {
            assert(pre.location_ok(k));
            let l = pre.entities.get(k).unwrap();
            if loc.row < last && k == moved.0 {
                assert(post.includes(a, d) == pre.includes(a, d));
            } else {
                assert(post.entities.get(k) == pre.entities.get(k));
                assert(post.includes(l.archetype.0 as int, d) == pre.includes(
                    l.archetype.0 as int,
                    d,
                ));
            }
        }
    }
    assert forall|k: Key| #[trigger] post.location_ok(k) by {
        assert(pre.location_ok(k));
        if post.entities.contains(k) {
            if k == e.0 {
                assert(post.archetype(t).rows@[there.len() as int] == post.archetype(
                    t,
                ).rows@.last());
            } else if loc.row < last && k == moved.0 {
                assert(post.archetype(a).rows@[loc.row as int] == rows[last]);
            } else {
                assert(post.entities.get(k) == pre.entities.get(k));
                let l = pre.entities.get(k).unwrap();
                let b = l.archetype.0 as int;
                if b == a {
                    assert(pre.row_ok(a, l.row as int));
                    assert(l.row != last) by {
                        if l.row == last {
                            assert(rows[last].entity == EntityId(k));
                        }
                    }
                    assert(l.row != loc.row) by {
                        if l.row == loc.row {
                            assert(rows[loc.row as int].entity == EntityId(k));
                        }
                    }
                    assert(post.archetype(a).rows@[l.row as int] == rows[l.row as int]);
                } else if b == t {
                    assert(post.archetype(t).rows@[l.row as int] == there[l.row as int]);
                } else {
                    assert(archetype_at(post.archetypes, b) == archetype_at(pre.archetypes, b));
                }
            }
        }
    }
    assert forall|b: int, r: int| #[trigger] post.row_ok(b, r) by {
        if post.has_row(b, r) {
            if b == a {
                if r == loc.row {
                    assert(post.archetype(a).rows@[r] == rows[last]);
                } else {
                    assert(post.archetype(a).rows@[r] == rows[r]);
                    assert(pre.row_ok(a, r));
                    let k = rows[r].entity;
                    assert(k != e);
                    assert(k != moved);
                    assert(post.entities.get(k.0) == pre.entities.get(k.0));
                }
            } else if b == t {
                if r < there.len() {
                    assert(post.archetype(t).rows@[r] == there[r]);
                    assert(pre.row_ok(t, r));
                    let k = there[r].entity;
                    assert(k != e);
                    assert(k != moved);
                    assert(post.entities.get(k.0) == pre.entities.get(k.0));
                } else {
                    assert(post.archetype(t).rows@[r] == post.archetype(t).rows@.last());
                }
            } else {
                assert(archetype_at(post.archetypes, b) == archetype_at(pre.archetypes, b));
                assert(pre.row_ok(b, r));
                let k = pre.archetype(b).rows@[r].entity;
                assert(k != e);
                assert(k != moved);
                assert(post.entities.get(k.0) == pre.entities.get(k.0));
            }
        }
    }
    assert(post.component_value(e, c) == Some(value)) by {
        assert(post.archetype(t).rows@[there.len() as int] == post.archetype(t).rows@.last());
        assert(dest.contains(ci));
        assert(dest.index_of(ci) == place);
        assert(rows[loc.row as int].values@.len() == source.len());
    }
    assert forall|k: EntityId, d: ComponentId| !(k == e && d == c) implies #[trigger] post.component_value(
        k,
        d,
    ) == pre.component_value(k, d) by {
        assert(post.entities.contains(k.0) == pre.entities.contains(k.0));
        if pre.entities.contains(k.0) && pre.components.contains(d.0) {
            assert(pre.location_ok(k.0));
            let l = pre.entities.get(k.0).unwrap();
            let b = l.archetype.0 as int;
            let di = ComponentIdx(d.0.index());
            if k == e {
                assert(d.0.index() != c.0.index()) by {
                    if d.0.index() == c.0.index() {
                        assert(d.0.generation() == c.0.generation());
                        assert(d.0 == c.0);
                    }
                }
                assert(post.archetype(t).rows@[there.len() as int] == post.archetype(
                    t,
                ).rows@.last());
                assert(rows[loc.row as int].values@.len() == source.len());
                assert(dest.contains(di) <==> source.contains(di));
                if source.contains(di) {
                    let q = source.index_of(di);
                    assert(0 <= q < source.len() && source[q] == di);
                    assert(dest.index_of(di) == (if q < place {
                        q
                    } else {
                        q + 1
                    }));
                }
            } else if loc.row < last && k == moved {
                assert(post.archetype(a).rows@[loc.row as int] == rows[last]);
            } else {
                assert(k.0 != moved.0) by {
                    if k.0 == moved.0 {
                        assert(rows[last].entity == e);
                    }
                }
                assert(post.entities.get(k.0) == pre.entities.get(k.0));
                if b == a {
                    assert(pre.row_ok(a, l.row as int));
                    assert(l.row != last) by {
                        if l.row == last {
                            assert(rows[last].entity == k);
                        }
                    }
                    assert(l.row != loc.row) by {
                        if l.row == loc.row {
                            assert(rows[loc.row as int].entity == k);
                        }
                    }
                    assert(post.archetype(a).rows@[l.row as int] == rows[l.row as int]);
                } else if b == t {
                    assert(post.archetype(t).rows@[l.row as int] == there[l.row as int]);
                } else {
                    assert(archetype_at(post.archetypes, b) == archetype_at(pre.archetypes, b));
                }
            }
        }
    }
}

/// Registering a handler that listens to a registered event and accesses
/// registered components without conflict keeps the world consistent.
pub proof fn lemma_add_handler_wf<V>(pre: WorldView<V>, post: WorldView<V>, info: HandlerInfo)
    requires
        pre.wf(),
        pre.handlers.next_key() is Some,
        info.id == HandlerId(pre.handlers.next_key().unwrap()),
        pre.events.contains(info.event.0),
        info.access.wf(),
        forall|j: int|
            0 <= j < info.access@.len() ==> pre.components.occupied(
                (#[trigger] info.access@[j]).0.0 as int,
            ),
        post.handlers == pre.handlers.insert(info),
        post.components == pre.components,
        post.archetypes == pre.archetypes,
        post.entities == pre.entities,
        post.events == pre.events,
    ensures
        pre.precedes(post),
        post.wf(),
{
    lemma_insert(pre.handlers, info);
    let k = pre.handlers.next_key().unwrap();
    assert forall|key: Key| #[trigger] post.location_ok(key) by {
        assert(pre.location_ok(key));
    }
    assert forall|a: int, r: int| #[trigger] post.row_ok(a, r) by {
        assert(pre.row_ok(a, r));
    }
    assert forall|a: int, c: int|
        #![trigger post.includes(a, c)]
        #![trigger post.member(c, a)]
        post.includes(a, c) <==> post.member(c, a) by {
        assert(pre.includes(a, c) <==> pre.member(c, a));
    }
    assert forall|i: int| #[trigger] post.handler_ok(i) by {
        assert(pre.handler_ok(i));
        if post.handlers.occupied(i) && i != k.index() {
            assert(pre.handlers.occupied(i));
            assert(post.handlers.slots[i] == pre.handlers.slots[i]);
        }
    }
    assert forall|i: int| #[trigger] post.event_ok(i) by {
        assert(pre.event_ok(i));
    }
    assert forall|c: int| #[trigger] post.listed_ok(c) by {
        assert(pre.listed_ok(c));
    }
}

/// Removing a handler keeps the world consistent.
pub proof fn lemma_remove_handler_wf<V>(pre: WorldView<V>, post: WorldView<V>, id: HandlerId)
    requires
        pre.wf(),
        post.handlers == pre.handlers.remove(id.0),
        post.components == pre.components,
        post.archetypes == pre.archetypes,
        post.entities == pre.entities,
        post.events == pre.events,
    ensures
        pre.precedes(post),
        post.wf(),
{
    lemma_remove(pre.handlers, id.0);
    assert forall|k: Key| #[trigger] post.location_ok(k) by {
        assert(pre.location_ok(k));
    }
    assert forall|a: int, r: int| #[trigger] post.row_ok(a, r) by {
        assert(pre.row_ok(a, r));
    }
    assert forall|a: int, c: int|
        #![trigger post.includes(a, c)]
        #![trigger post.member(c, a)]
        post.includes(a, c) <==> post.member(c, a) by {
        assert(pre.includes(a, c) <==> pre.member(c, a));
    }
    assert forall|i: int| #[trigger] post.handler_ok(i) by {
        assert(pre.handler_ok(i));
        if post.handlers.occupied(i) {
            assert(pre.handlers.occupied(i));
            assert(post.handlers.slots[i] == pre.handlers.slots[i]);
        }
    }
    assert forall|i: int| #[trigger] post.event_ok(i) by {
        assert(pre.event_ok(i));
    }
    assert forall|c: int| #[trigger] post.listed_ok(c) by {
        assert(pre.listed_ok(c));
    }
}

/// Registering an event, and listing it with the component that it is tied
/// to, keeps the world consistent.
pub proof fn lemma_add_event_wf<V>(pre: WorldView<V>, post: WorldView<V>, kind: EventKind, id: EventId)
    requires
        pre.wf(),
        pre.events.next_key() == Some(id.0),
        post.events == pre.events.insert(kind),
        post.archetypes == pre.archetypes,
        post.entities == pre.entities,
        post.handlers == pre.handlers,
        post.components.registry_wf(),
        post.components.same_but_events(pre.components),
        kind.spec_component() matches Some(c) ==> pre.components.contains(c.0),
        forall|d: int, y: EventId|
            pre.components.occupied(d) ==> (#[trigger] post.components.info(d).insert_events@.contains(
                y,
            ) <==> (pre.components.info(d).insert_events@.contains(y) || (y == id && kind
                == EventKind::Insert(pre.components.info(d).id)))),
        forall|d: int, y: EventId|
            pre.components.occupied(d) ==> (#[trigger] post.components.info(d).remove_events@.contains(
                y,
            ) <==> (pre.components.info(d).remove_events@.contains(y) || (y == id && kind
                == EventKind::Remove(pre.components.info(d).id)))),
    ensures
        pre.precedes(post),
        post.wf(),
        forall|k: EntityId, c: ComponentId| #[trigger]
            post.component_value(k, c) == pre.component_value(k, c),
{
    lemma_same_components_precede(pre.components, post.components);
    lemma_insert(pre.events, kind);
    assert forall|c: int| post.components.occupied(c) == pre.components.occupied(c) by {
        if 0 <= c < pre.components.slots.len() {
            assert(post.components.slots[c].value is Some == pre.components.slots[c].value is Some);
        }
    }
    assert forall|c: ComponentId| post.components.contains(c.0) == pre.components.contains(c.0) by {
        if 0 <= c.0.index() < pre.components.slots.len() {
            assert(post.components.slots[c.0.index() as int].generation
                == pre.components.slots[c.0.index() as int].generation);
        }
    }
    assert forall|a: int, c: int|
        #![trigger post.includes(a, c)]
        #![trigger post.member(c, a)]
        post.includes(a, c) <==> post.member(c, a) by {
        assert(pre.includes(a, c) <==> pre.member(c, a));
        if 0 <= c < pre.components.slots.len() {
            assert(post.components.slots[c].value is Some == pre.components.slots[c].value is Some);
        }
    }
    assert forall|key: Key| #[trigger] post.location_ok(key) by {
        assert(pre.location_ok(key));
    }
    assert forall|a: int, r: int| #[trigger] post.row_ok(a, r) by {
        assert(pre.row_ok(a, r));
    }
    assert forall|i: int| #[trigger] post.handler_ok(i) by {
        assert(pre.handler_ok(i));
        if post.handlers.occupied(i) {
            assert forall|j: int| 0 <= j < post.handler(i).access@.len() implies post.components.occupied(
                (#[trigger] post.handler(i).access@[j]).0.0 as int,
            ) by {
                assert(pre.components.occupied(pre.handler(i).access@[j].0.0 as int));
            }
        }
    }
    assert forall|i: int| #[trigger] post.event_ok(i) by {
        assert(pre.event_ok(i));
        if post.events.occupied(i) {
            let ev = EventId(Key::make(i as u32, post.events.slots[i].generation));
            if i == id.0.index() {
                assert(post.events.get(id.0) == Some(kind));
                assert(ev == id);
                match kind {
                    EventKind::Normal => {},
                    EventKind::Insert(c) => {
                        assert(pre.components.occupied(c.0.index() as int));
                    },
                    EventKind::Remove(c) => {
                        assert(pre.components.occupied(c.0.index() as int));
                    },
                }
            } else {
                assert(pre.events.occupied(i));
                assert(post.events.slots[i] == pre.events.slots[i]);
                match post.events.slots[i].value.unwrap() {
                    EventKind::Normal => {},
                    EventKind::Insert(c) => {
                        assert(pre.components.occupied(c.0.index() as int));
                        assert(post.components.contains(c.0) == pre.components.contains(c.0));
                    },
                    EventKind::Remove(c) => {
                        assert(pre.components.occupied(c.0.index() as int));
                        assert(post.components.contains(c.0) == pre.components.contains(c.0));
                    },
                }
            }
        }
    }
    assert forall|c: int| #[trigger] post.listed_ok(c) by {
        assert(pre.listed_ok(c));
        if post.components.occupied(c) {
            assert(pre.components.occupied(c));
            let now = post.components.info(c);
            let was = pre.components.info(c);
            assert forall|j: int| 0 <= j < now.insert_events@.len() implies post.events.get(
                (#[trigger] now.insert_events@[j]).0,
            ) == Some(EventKind::Insert(now.id)) by {
                let y = now.insert_events@[j];
                assert(now.insert_events@.contains(y));
                if was.insert_events@.contains(y) {
                    let q = choose|q: int| 0 <= q < was.insert_events@.len() && was.insert_events@[q] == y;
                    assert(pre.events.get(was.insert_events@[q].0) == Some(EventKind::Insert(was.id)));
                    assert(pre.events.contains(y.0));
                }
            }
            assert forall|j: int| 0 <= j < now.remove_events@.len() implies post.events.get(
                (#[trigger] now.remove_events@[j]).0,
            ) == Some(EventKind::Remove(now.id)) by {
                let y = now.remove_events@[j];
                assert(now.remove_events@.contains(y));
                if was.remove_events@.contains(y) {
                    let q = choose|q: int| 0 <= q < was.remove_events@.len() && was.remove_events@[q] == y;
                    assert(pre.events.get(was.remove_events@[q].0) == Some(EventKind::Remove(was.id)));
                    assert(pre.events.contains(y.0));
                }
            }
        }
    }
    assert forall|k: EntityId, c: ComponentId| #[trigger]
        post.component_value(k, c) == pre.component_value(k, c) by {
        assert(post.components.contains(c.0) == pre.components.contains(c.0));
    }
}

/// Removing an event to which no handler listens, and striking it from the
/// component that it is tied to, keeps the world consistent.
pub proof fn lemma_remove_event_wf<V>(pre: WorldView<V>, post: WorldView<V>, id: EventId)
    requires
        pre.wf(),
        pre.events.contains(id.0),
        forall|i: int| pre.handlers.occupied(i) ==> (#[trigger] pre.handler(i)).event != id,
        post.events == pre.events.remove(id.0),
        post.archetypes == pre.archetypes,
        post.entities == pre.entities,
        post.handlers == pre.handlers,
        post.components.registry_wf(),
        post.components.same_but_events(pre.components),
        forall|d: int, y: EventId|
            pre.components.occupied(d) ==> (#[trigger] post.components.info(d).insert_events@.contains(
                y,
            ) <==> (pre.components.info(d).insert_events@.contains(y) && y != id)),
        forall|d: int, y: EventId|
            pre.components.occupied(d) ==> (#[trigger] post.components.info(d).remove_events@.contains(
                y,
            ) <==> (pre.components.info(d).remove_events@.contains(y) && y != id)),
    ensures
        pre.precedes(post),
        post.wf(),
        forall|k: EntityId, c: ComponentId| #[trigger]
            post.component_value(k, c) == pre.component_value(k, c),
{
    lemma_same_components_precede(pre.components, post.components);
    lemma_remove(pre.events, id.0);
    assert forall|c: int| post.components.occupied(c) == pre.components.occupied(c) by {
        if 0 <= c < pre.components.slots.len() {
            assert(post.components.slots[c].value is Some == pre.components.slots[c].value is Some);
        }
    }
    assert forall|c: ComponentId| post.components.contains(c.0) == pre.components.contains(c.0) by {
        if 0 <= c.0.index() < pre.components.slots.len() {
            assert(post.components.slots[c.0.index() as int].generation
                == pre.components.slots[c.0.index() as int].generation);
        }
    }
    assert forall|a: int, c: int|
        #![trigger post.includes(a, c)]
        #![trigger post.member(c, a)]
        post.includes(a, c) <==> post.member(c, a) by {
        assert(pre.includes(a, c) <==> pre.member(c, a));
        if 0 <= c < pre.components.slots.len() {
            assert(post.components.slots[c].value is Some == pre.components.slots[c].value is Some);
        }
    }
    assert forall|key: Key| #[trigger] post.location_ok(key) by {
        assert(pre.location_ok(key));
    }
    assert forall|a: int, r: int| #[trigger] post.row_ok(a, r) by {
        assert(pre.row_ok(a, r));
    }
    assert forall|i: int| #[trigger] post.handler_ok(i) by {
        assert(pre.handler_ok(i));
        if post.handlers.occupied(i) {
            let h = post.handler(i);
            assert(h.event != id);
            assert(pre.events.contains(h.event.0));
            assert(post.events.contains(h.event.0)) by {
                if h.event.0.index() == id.0.index() {
                    assert(h.event.0.generation() == id.0.generation());
                    assert(h.event.0 == id.0);
                } else {
                    assert(post.events.get(h.event.0) == pre.events.get(h.event.0));
                }
            }
            assert forall|j: int| 0 <= j < h.access@.len() implies post.components.occupied(
                (#[trigger] h.access@[j]).0.0 as int,
            ) by {
                assert(pre.components.occupied(pre.handler(i).access@[j].0.0 as int));
            }
        }
    }
    assert forall|i: int| #[trigger] post.event_ok(i) by {
        assert(pre.event_ok(i));
        if post.events.occupied(i) {
            assert(i != id.0.index());
            assert(pre.events.occupied(i));
            assert(post.events.slots[i] == pre.events.slots[i]);
            let ev = EventId(Key::make(i as u32, post.events.slots[i].generation));
            assert(ev != id);
            match post.events.slots[i].value.unwrap() {
                EventKind::Normal => {},
                EventKind::Insert(c) => {
                    assert(pre.components.occupied(c.0.index() as int));
                    assert(post.components.contains(c.0) == pre.components.contains(c.0));
                },
                EventKind::Remove(c) => {
                    assert(pre.components.occupied(c.0.index() as int));
                    assert(post.components.contains(c.0) == pre.components.contains(c.0));
                },
            }
        }
    }
    assert forall|c: int| #[trigger] post.listed_ok(c) by {
        assert(pre.listed_ok(c));
        if post.components.occupied(c) {
            assert(pre.components.occupied(c));
            let now = post.components.info(c);
            let was = pre.components.info(c);
            assert forall|j: int| 0 <= j < now.insert_events@.len() implies post.events.get(
                (#[trigger] now.insert_events@[j]).0,
            ) == Some(EventKind::Insert(now.id)) by {
                let y = now.insert_events@[j];
                assert(now.insert_events@.contains(y));
                assert(was.insert_events@.contains(y) && y != id);
                let q = choose|q: int| 0 <= q < was.insert_events@.len() && was.insert_events@[q] == y;
                assert(pre.events.get(was.insert_events@[q].0) == Some(EventKind::Insert(was.id)));
                assert(pre.events.contains(y.0));
                if y.0.index() == id.0.index() {
                    assert(y.0.generation() == id.0.generation());
                    assert(y.0 == id.0);
                }
            }
            assert forall|j: int| 0 <= j < now.remove_events@.len() implies post.events.get(
                (#[trigger] now.remove_events@[j]).0,
            ) == Some(EventKind::Remove(now.id)) by {
                let y = now.remove_events@[j];
                assert(now.remove_events@.contains(y));
                assert(was.remove_events@.contains(y) && y != id);
                let q = choose|q: int| 0 <= q < was.remove_events@.len() && was.remove_events@[q] == y;
                assert(pre.events.get(was.remove_events@[q].0) == Some(EventKind::Remove(was.id)));
                assert(pre.events.contains(y.0));
                if y.0.index() == id.0.index() {
                    assert(y.0.generation() == id.0.generation());
                    assert(y.0 == id.0);
                }
            }
        }
    }
    assert forall|k: EntityId, c: ComponentId| #[trigger]
        post.component_value(k, c) == pre.component_value(k, c) by {
        assert(post.components.contains(c.0) == pre.components.contains(c.0));
    }
}

/// Removing every entity of an archetype, then deleting the archetype or
/// dropping a component from its composition, and striking the archetype from
/// the member-of set of each component that it no longer includes, keeps the
/// world consistent.
pub proof fn lemma_detach_archetype_wf<V>(
    pre: WorldView<V>,
    post: WorldView<V>,
    idx: ArchetypeIdx,
    c: ComponentIdx,
)
    requires
        pre.entities.precedes(post.entities),
        pre.wf(),
        pre.includes(idx.0 as int, c.0 as int),
        archetypes_wf(post.archetypes),
        post.components.registry_wf(),
        post.entities.wf(),
        post.archetypes.len() == pre.archetypes.len(),
        forall|b: int| b != idx.0 ==> #[trigger] archetype_at(post.archetypes, b) == archetype_at(
            pre.archetypes,
            b,
        ),
        post.archetypes[idx.0 as int] matches Some(x) ==> x.rows@.len() == 0 && x.components@
            == pre.archetype(idx.0 as int).components@.remove(
            pre.archetype(idx.0 as int).components@.index_of(c),
        ),
        forall|k: Key| #[trigger]
            post.entities.contains(k) <==> pre.entities.contains(k) && pre.entities.get(
                k,
            ).unwrap().archetype != idx,
        forall|k: Key| #[trigger]
            post.entities.contains(k) ==> post.entities.get(k) == pre.entities.get(k),
        post.components.same_but_members(pre.components),
        forall|d: int, y: ArchetypeIdx|
            pre.components.occupied(d) ==> (#[trigger] post.components.info(d).member_of@.contains(y)
                <==> (pre.components.info(d).member_of@.contains(y) && (y != idx || post.includes(
                idx.0 as int,
                d,
            )))),
        post.handlers == pre.handlers,
        post.events == pre.events,
    ensures
        pre.precedes(post),
        post.wf(),
        !post.includes(idx.0 as int, c.0 as int),
{
    lemma_same_components_precede(pre.components, post.components);
    let n = idx.0 as int;
    let comps = pre.archetype(n).components@;
    let p = comps.index_of(c);
    assert(0 <= p < comps.len() && comps[p] == c);
    crate::archetype::lemma_remove_ascending(comps, p);
    assert forall|d: int| post.components.occupied(d) == pre.components.occupied(d) by {
        if 0 <= d < pre.components.slots.len() {
            assert(post.components.slots[d].value is Some == pre.components.slots[d].value is Some);
        }
    }
    assert forall|a: int, d: int|
        #![trigger post.includes(a, d)]
        #![trigger post.member(d, a)]
        post.includes(a, d) <==> post.member(d, a) by {
        assert(pre.includes(a, d) <==> pre.member(d, a));
        if a != n {
            assert(archetype_at(post.archetypes, a) == archetype_at(pre.archetypes, a));
            assert(post.includes(a, d) == pre.includes(a, d));
            if pre.components.occupied(d) && 0 <= a <= 0xffff_ffff {
                assert(post.components.info(d).member_of@.contains(ArchetypeIdx(a as u32))
                    <==> pre.components.info(d).member_of@.contains(ArchetypeIdx(a as u32)));
            }
        } else {
            if post.includes(n, d) {
                assert(comps.contains(ComponentIdx(d as u32)));
                assert(pre.includes(n, d));
                assert(pre.member(d, n));
                assert(post.components.info(d).member_of@.contains(idx));
            }
            if post.member(d, n) {
                assert(pre.components.occupied(d));
                assert(post.components.info(d).member_of@.contains(idx));
            }
        }
    }
    assert forall|k: Key| #[trigger] post.location_ok(k) by {
        assert(pre.location_ok(k));
        if post.entities.contains(k) {
            let l = pre.entities.get(k).unwrap();
            assert(l.archetype.0 != n);
            assert(archetype_at(post.archetypes, l.archetype.0 as int) == archetype_at(
                pre.archetypes,
                l.archetype.0 as int,
            ));
        }
    }
    assert forall|a: int, r: int| #[trigger] post.row_ok(a, r) by {
        if post.has_row(a, r) {
            assert(a != n);
            assert(archetype_at(post.archetypes, a) == archetype_at(pre.archetypes, a));
            assert(pre.row_ok(a, r));
            let k = pre.archetype(a).rows@[r].entity.0;
            assert(post.entities.contains(k));
        }
    }
    lemma_dependents_same(pre, post);
}

/// Removing a component that no archetype includes, no handler accesses and
/// no event is tied to keeps the world consistent.
pub proof fn lemma_remove_component_wf<V>(pre: WorldView<V>, post: WorldView<V>, id: ComponentId)
    requires
        pre.wf(),
        pre.components.contains(id.0),
        pre.components.info(id.0.index() as int).member_of@.len() == 0,
        pre.components.info(id.0.index() as int).insert_events@.len() == 0,
        pre.components.info(id.0.index() as int).remove_events@.len() == 0,
        forall|i: int|
            pre.handlers.occupied(i) ==> !(#[trigger] pre.handler(i)).access.references(
                ComponentIdx(id.0.index()),
            ),
        post.components == pre.components.remove(id.0),
        post.components.registry_wf(),
        post.archetypes == pre.archetypes,
        post.entities == pre.entities,
        post.handlers == pre.handlers,
        post.events == pre.events,
    ensures
        pre.precedes(post),
        post.wf(),
        forall|a: int| !#[trigger] post.includes(a, id.0.index() as int),
{
    let n = id.0.index() as int;
    lemma_remove(pre.components, id.0);
    assert(pre.components.occupied(n));
    assert(pre.components.info(n).id == id);
    assert forall|d: int| d != n implies post.components.occupied(d) == pre.components.occupied(d)
        && (pre.components.occupied(d) ==> post.components.slots[d] == pre.components.slots[d]) by {}
    assert forall|a: int| !#[trigger] post.includes(a, n) by {
        assert(pre.includes(a, n) <==> pre.member(n, a));
    }
    assert forall|a: int, d: int|
        #![trigger post.includes(a, d)]
        #![trigger post.member(d, a)]
        post.includes(a, d) <==> post.member(d, a) by {
        assert(pre.includes(a, d) <==> pre.member(d, a));
        if d == n {
            assert(!post.includes(a, n));
        }
    }
    assert forall|k: Key| #[trigger] post.location_ok(k) by {
        assert(pre.location_ok(k));
    }
    assert forall|a: int, r: int| #[trigger] post.row_ok(a, r) by {
        assert(pre.row_ok(a, r));
    }
    assert forall|i: int| #[trigger] post.handler_ok(i) by {
        assert(pre.handler_ok(i));
        if post.handlers.occupied(i) {
            let h = post.handler(i);
            assert forall|j: int| 0 <= j < h.access@.len() implies post.components.occupied(
                (#[trigger] h.access@[j]).0.0 as int,
            ) by {
                assert(pre.components.occupied(h.access@[j].0.0 as int));
                if h.access@[j].0.0 == n {
                    assert(h.access@[j].0 == ComponentIdx(id.0.index()));
                    assert(h.access.references(ComponentIdx(id.0.index())));
                }
            }
        }
    }
    assert forall|i: int| #[trigger] post.event_ok(i) by {
        assert(pre.event_ok(i));
        if post.events.occupied(i) {
            let ev = EventId(Key::make(i as u32, post.events.slots[i].generation));
            match post.events.slots[i].value.unwrap() {
                EventKind::Normal => {},
                EventKind::Insert(c) => {
                    assert(pre.components.occupied(c.0.index() as int));
                    if c.0.index() == n {
                        assert(c.0.generation() == id.0.generation());
                        assert(pre.components.info(n).insert_events@.contains(ev));
                    }
                    assert(post.components.get(c.0) == pre.components.get(c.0));
                },
                EventKind::Remove(c) => {
                    assert(pre.components.occupied(c.0.index() as int));
                    if c.0.index() == n {
                        assert(c.0.generation() == id.0.generation());
                        assert(pre.components.info(n).remove_events@.contains(ev));
                    }
                    assert(post.components.get(c.0) == pre.components.get(c.0));
                },
            }
        }
    }
    assert forall|d: int| #[trigger] post.listed_ok(d) by {
        assert(pre.listed_ok(d));
    }
}

/// Reachability of worlds is transitive.
pub proof fn lemma_world_precedes_transitive<V>(a: WorldView<V>, b: WorldView<V>, c: WorldView<V>)
    requires
        a.precedes(b),
        b.precedes(c),
    ensures
        a.precedes(c),
{
    lemma_precedes_transitive(a.components, b.components, c.components);
    lemma_precedes_transitive(a.entities, b.entities, c.entities);
    lemma_precedes_transitive(a.handlers, b.handlers, c.handlers);
    lemma_precedes_transitive(a.events, b.events, c.events);
}

/// The removal of a component starts in the state itself.
pub proof fn lemma_cascading_start<V>(w: WorldView<V>, id: ComponentId)
    requires
        w.components.contains(id.0),
    ensures
        w.cascading(w, id),
{
}

/// Removing the handlers that access the component is a step of its removal.
pub proof fn lemma_cascading_handlers<V>(
    first: WorldView<V>,
    pre: WorldView<V>,
    post: WorldView<V>,
    id: ComponentId,
    event: Option<EventId>,
    component: Option<ComponentIdx>,
)
    requires
        pre.precedes(post),
        first.cascading(pre, id),
        component matches Some(c) ==> c == ComponentIdx(id.0.index()),
        event matches Some(e) ==> pre.events.get(e.0) matches Some(kind) && kind.spec_component()
            == Some(id),
        forall|k: Key| #[trigger]
            post.handlers.contains(k) <==> pre.handlers.contains(k) && !depends_on(
                pre.handlers.get(k).unwrap(),
                event,
                component,
            ),
        forall|k: Key| #[trigger]
            post.handlers.contains(k) ==> post.handlers.get(k) == pre.handlers.get(k),
        post.components == pre.components,
        post.archetypes == pre.archetypes,
        post.entities == pre.entities,
        post.events == pre.events,
    ensures
        first.cascading(post, id),
{
    lemma_world_precedes_transitive(first, pre, post);
    let c = id.0.index() as int;
    assert forall|k: Key|
        first.handlers.contains(k) && !(#[trigger] post.handlers.contains(k))
        implies first.handler_depends(first.handlers.get(k).unwrap(), id) by {
        if pre.handlers.contains(k) {
            let h = pre.handlers.get(k).unwrap();
            assert(depends_on(h, event, component));
            assert(first.handlers.get(k) == pre.handlers.get(k));
            if event == Some(h.event) {
                assert(pre.events.contains(h.event.0));
                assert(first.events.get(h.event.0) == pre.events.get(h.event.0));
            }
        }
    }
    assert forall|a: int|
        #[trigger] archetype_at(post.archetypes, a) == archetype_at(first.archetypes, a) || {
            &&& first.includes(a, id.0.index() as int)
            &&& !post.includes(a, id.0.index() as int)
            &&& archetype_at(post.archetypes, a) matches Some(x) ==> x.rows@.len() == 0
            &&& first.detached(post, a, c)
        } by {
        assert(archetype_at(pre.archetypes, a) == archetype_at(first.archetypes, a) || {
            &&& first.includes(a, id.0.index() as int)
            &&& !pre.includes(a, id.0.index() as int)
            &&& archetype_at(pre.archetypes, a) matches Some(x) ==> x.rows@.len() == 0
            &&& first.detached(pre, a, c)
        });
    }
}

/// Removing an event that is tied to the component is a step of its removal.
pub proof fn lemma_cascading_event<V>(
    first: WorldView<V>,
    pre: WorldView<V>,
    post: WorldView<V>,
    id: ComponentId,
    event: EventId,
)
    requires
        pre.precedes(post),
        first.cascading(pre, id),
        pre.wf(),
        pre.events.get(event.0) matches Some(kind) && kind.spec_component() == Some(id),
        post.events == pre.events.remove(event.0),
        forall|k: Key| #[trigger]
            post.handlers.contains(k) <==> pre.handlers.contains(k) && pre.handlers.get(
                k,
            ).unwrap().event != event,
        forall|k: Key| #[trigger]
            post.handlers.contains(k) ==> post.handlers.get(k) == pre.handlers.get(k),
        post.components.same_but_events(pre.components),
        forall|d: int|
            0 <= d < pre.components.slots.len() && d != id.0.index()
                ==> #[trigger] post.components.slots[d] == pre.components.slots[d],
        post.archetypes == pre.archetypes,
        post.entities == pre.entities,
    ensures
        first.cascading(post, id),
{
    lemma_world_precedes_transitive(first, pre, post);
    let c = id.0.index() as int;
    lemma_remove(pre.events, event.0);
    assert(post.components.slots[c].generation == pre.components.slots[c].generation);
    assert forall|d: int| 0 <= d < first.components.slots.len() implies {
        &&& (#[trigger] post.components.slots[d]).generation == first.components.slots[d].generation
        &&& post.components.slots[d].value is Some == first.components.slots[d].value is Some
        &&& post.components.slots[d].value is Some ==> post.components.info(d).same_descriptor(
            first.components.info(d),
        )
        &&& post.components.slots[d].value is Some && d != c ==> post.components.info(
            d,
        ).same_but_members(first.components.info(d))
    } by {
        assert(pre.components.slots[d].generation == first.components.slots[d].generation);
        if d != c {
            assert(post.components.slots[d] == pre.components.slots[d]);
        }
    }
    assert forall|k: Key|
        first.handlers.contains(k) && !(#[trigger] post.handlers.contains(k))
        implies first.handler_depends(first.handlers.get(k).unwrap(), id) by {
        if pre.handlers.contains(k) {
            let h = pre.handlers.get(k).unwrap();
            assert(h.event == event);
            assert(first.handlers.get(k) == pre.handlers.get(k));
            assert(pre.events.contains(event.0));
            assert(first.events.get(event.0) == pre.events.get(event.0));
        }
    }
    assert forall|k: Key| #[trigger] post.events.contains(k) implies first.events.contains(k)
        && post.events.get(k) == first.events.get(k) by {
        assert(pre.events.contains(k));
        if k.index() == event.0.index() {
            assert(k.generation() == event.0.generation());
        }
    }
    assert forall|k: Key|
        first.events.contains(k) && !(#[trigger] post.events.contains(k)) implies first.events.get(
        k,
    ).unwrap().spec_component() == Some(id) by {
        if pre.events.contains(k) {
            if k.index() != event.0.index() {
                assert(post.events.get(k) == pre.events.get(k));
            } else {
                assert(k.generation() == event.0.generation());
                assert(k == event.0);
                assert(first.events.get(k) == pre.events.get(k));
            }
        }
    }
    assert forall|a: int|
        #[trigger] archetype_at(post.archetypes, a) == archetype_at(first.archetypes, a) || {
            &&& first.includes(a, c)
            &&& !post.includes(a, c)
            &&& archetype_at(post.archetypes, a) matches Some(x) ==> x.rows@.len() == 0
            &&& first.detached(post, a, c)
        } by {
        assert(archetype_at(pre.archetypes, a) == archetype_at(first.archetypes, a) || {
            &&& first.includes(a, c)
            &&& !pre.includes(a, c)
            &&& archetype_at(pre.archetypes, a) matches Some(x) ==> x.rows@.len() == 0
            &&& first.detached(pre, a, c)
        });
    }
}

/// Detaching an archetype that includes the component is a step of its
/// removal.
pub proof fn lemma_cascading_archetype<V>(
    first: WorldView<V>,
    pre: WorldView<V>,
    post: WorldView<V>,
    id: ComponentId,
    idx: ArchetypeIdx,
)
    requires
        pre.precedes(post),
        first.wf(),
        first.cascading(pre, id),
        pre.wf(),
        pre.includes(idx.0 as int, id.0.index() as int),
        !post.includes(idx.0 as int, id.0.index() as int),
        pre.detached(post, idx.0 as int, id.0.index() as int),
        post.archetypes.len() == pre.archetypes.len(),
        forall|b: int| b != idx.0 ==> #[trigger] archetype_at(post.archetypes, b) == archetype_at(
            pre.archetypes,
            b,
        ),
        post.archetypes[idx.0 as int] matches Some(x) ==> x.rows@.len() == 0,
        forall|k: Key| #[trigger]
            post.entities.contains(k) <==> pre.entities.contains(k) && pre.entities.get(
                k,
            ).unwrap().archetype != idx,
        forall|k: Key| #[trigger]
            post.entities.contains(k) ==> post.entities.get(k) == pre.entities.get(k),
        post.components.same_but_members(pre.components),
        post.handlers == pre.handlers,
        post.events == pre.events,
    ensures
        first.cascading(post, id),
{
    lemma_world_precedes_transitive(first, pre, post);
    let c = id.0.index() as int;
    let n = idx.0 as int;
    assert(post.components.slots[c].generation == pre.components.slots[c].generation);
    assert(archetype_at(pre.archetypes, n) == archetype_at(first.archetypes, n) || {
        &&& first.includes(n, c)
        &&& !pre.includes(n, c)
        &&& archetype_at(pre.archetypes, n) matches Some(x) ==> x.rows@.len() == 0
        &&& first.detached(pre, n, c)
    });
    assert(first.includes(n, c));
    assert(archetype_at(pre.archetypes, n) == archetype_at(first.archetypes, n));
    let rest = first.remainder(n, c);
    assert(rest == pre.remainder(n, c));
    let ci = ComponentIdx(c as u32);
    crate::archetype::lemma_remove_ascending(
        first.archetype(n).components@,
        first.archetype(n).components@.index_of(ci),
    );
    assert(!rest.contains(ci));
    assert(find_composition(pre.archetypes, rest) is Some <==> find_composition(
        first.archetypes,
        rest,
    ) is Some) by {
        if find_composition(pre.archetypes, rest) is Some {
            let b = choose|b: int|
                0 <= b < pre.archetypes.len() && (#[trigger] pre.archetypes[b]) is Some
                    && pre.archetypes[b].unwrap().components@ == rest;
            assert(archetype_at(pre.archetypes, b) == archetype_at(first.archetypes, b) || {
                &&& first.includes(b, c)
                &&& !pre.includes(b, c)
                &&& archetype_at(pre.archetypes, b) matches Some(x) ==> x.rows@.len() == 0
                &&& first.detached(pre, b, c)
            });
            if archetype_at(pre.archetypes, b) == archetype_at(first.archetypes, b) {
                assert(first.archetypes[b] is Some && first.archetypes[b].unwrap().components@
                    == rest);
            } else {
                assert(b != n);
                assert(first.archetypes[b] is Some && first.archetypes[n] is Some);
                assert(pre.archetype(b).components@ == first.remainder(b, c));
                crate::archetype::lemma_remove_injective(
                    first.archetype(b).components@,
                    first.archetype(n).components@,
                    ci,
                );
            }
        }
        if find_composition(first.archetypes, rest) is Some {
            let b = choose|b: int|
                0 <= b < first.archetypes.len() && (#[trigger] first.archetypes[b]) is Some
                    && first.archetypes[b].unwrap().components@ == rest;
            assert(!first.includes(b, c));
            assert(archetype_at(pre.archetypes, b) == archetype_at(first.archetypes, b) || {
                &&& first.includes(b, c)
                &&& !pre.includes(b, c)
                &&& archetype_at(pre.archetypes, b) matches Some(x) ==> x.rows@.len() == 0
                &&& first.detached(pre, b, c)
            });
            assert(pre.archetypes[b] is Some && pre.archetypes[b].unwrap().components@ == rest);
        }
    }
    assert(first.detached(post, n, c));
    assert forall|d: int| 0 <= d < first.components.slots.len() implies {
        &&& (#[trigger] post.components.slots[d]).generation == first.components.slots[d].generation
        &&& post.components.slots[d].value is Some == first.components.slots[d].value is Some
        &&& post.components.slots[d].value is Some ==> post.components.info(d).same_descriptor(
            first.components.info(d),
        )
        &&& post.components.slots[d].value is Some && d != c ==> post.components.info(
            d,
        ).same_but_members(first.components.info(d))
    } by {
        assert(pre.components.slots[d].generation == first.components.slots[d].generation);
    }
    assert forall|k: Key|
        first.entities.contains(k) && !(#[trigger] post.entities.contains(k))
        implies first.entity_has(k, c) by {
        if pre.entities.contains(k) {
            assert(first.entities.get(k) == pre.entities.get(k));
        }
    }
    assert forall|a: int|
        #[trigger] archetype_at(post.archetypes, a) == archetype_at(first.archetypes, a) || {
            &&& first.includes(a, c)
            &&& !post.includes(a, c)
            &&& archetype_at(post.archetypes, a) matches Some(x) ==> x.rows@.len() == 0
            &&& first.detached(post, a, c)
        } by {
        assert(archetype_at(pre.archetypes, a) == archetype_at(first.archetypes, a) || {
            &&& first.includes(a, c)
            &&& !pre.includes(a, c)
            &&& archetype_at(pre.archetypes, a) matches Some(x) ==> x.rows@.len() == 0
            &&& first.detached(pre, a, c)
        });
        if a != n {
            assert(archetype_at(post.archetypes, a) == archetype_at(pre.archetypes, a));
        }
    }
}

/// While a component is being removed, no archetype that included it and has
/// been dealt with includes it any more; at the end this holds of all.
pub proof fn lemma_cascaded_archetypes<V>(
    first: WorldView<V>,
    pre: WorldView<V>,
    id: ComponentId,
)
    requires
        first.cascading(pre, id),
        forall|a: int| !#[trigger] pre.includes(a, id.0.index() as int),
    ensures
        forall|a: int|
            #[trigger] first.includes(a, id.0.index() as int) ==> first.detached(
                pre,
                a,
                id.0.index() as int,
            ),
{
    let c = id.0.index() as int;
    assert forall|a: int| #[trigger] first.includes(a, c) implies first.detached(pre, a, c) by {
        assert(archetype_at(pre.archetypes, a) == archetype_at(first.archetypes, a) || {
            &&& first.includes(a, c)
            &&& !pre.includes(a, c)
            &&& archetype_at(pre.archetypes, a) matches Some(x) ==> x.rows@.len() == 0
            &&& first.detached(pre, a, c)
        });
        if archetype_at(pre.archetypes, a) == archetype_at(first.archetypes, a) {
            assert(pre.includes(a, c));
        }
    }
}

/// Once nothing depends on the component any more, taking it out of the
/// registry completes its removal.
pub proof fn lemma_cascaded_end<V>(
    first: WorldView<V>,
    pre: WorldView<V>,
    post: WorldView<V>,
    id: ComponentId,
)
    requires
        first.wf(),
        first.cascading(pre, id),
        pre.wf(),
        pre.components.info(id.0.index() as int).member_of@.len() == 0,
        pre.components.info(id.0.index() as int).insert_events@.len() == 0,
        pre.components.info(id.0.index() as int).remove_events@.len() == 0,
        forall|i: int|
            pre.handlers.occupied(i) ==> !(#[trigger] pre.handler(i)).access.references(
                ComponentIdx(id.0.index()),
            ),
        post.components == pre.components.remove(id.0),
        post.archetypes == pre.archetypes,
        post.entities == pre.entities,
        post.handlers == pre.handlers,
        post.events == pre.events,
    ensures
        first.cascaded(post, id),
{
    assert(first.precedes(post)) by {
        lemma_remove(pre.components, id.0);
        lemma_world_precedes_transitive(first, pre, post);
    }
    let c = id.0.index() as int;
    lemma_remove(pre.components, id.0);
    assert(pre.components.occupied(c));
    assert(pre.components.info(c).id == id);
    assert forall|a: int| !#[trigger] post.includes(a, c) by {
        assert(pre.includes(a, c) <==> pre.member(c, a));
    }
    assert forall|a: int| !#[trigger] pre.includes(a, c) by {
        assert(pre.includes(a, c) <==> pre.member(c, a));
    }
    lemma_cascaded_archetypes(first, pre, id);
    assert(first.components.remove(id.0).precedes(post.components)) by {
        let gone = first.components.remove(id.0);
        assert(first.components.contains(id.0)) by {
            assert(pre.components.slots[c].generation == first.components.slots[c].generation);
        }
        assert forall|i: int| 0 <= i < gone.slots.len() implies (#[trigger] gone.slots[i]).generation
            <= post.components.slots[i].generation by {
            assert(pre.components.slots[i].generation == first.components.slots[i].generation);
        }
        assert forall|i: int| #[trigger] gone.retired(i) implies post.components.retired(i) by {
            assert(pre.components.slots[i].generation == first.components.slots[i].generation);
            assert(gone.free =~= post.components.free);
        }
    }
    assert forall|a: int| #[trigger] first.includes(a, c) implies first.detached(post, a, c) by {
        assert(first.detached(pre, a, c));
    }
    assert forall|k: Key| #[trigger]
        post.components.contains(k) <==> first.components.contains(k) && k != id.0 by {
        if 0 <= k.index() < first.components.slots.len() {
            assert(pre.components.slots[k.index() as int].generation
                == first.components.slots[k.index() as int].generation);
        }
        if pre.components.contains(k) && k != id.0 {
            assert(k.index() != id.0.index()) by {
                if k.index() == id.0.index() {
                    assert(k.generation() == id.0.generation());
                }
            }
            assert(post.components.get(k) == pre.components.get(k));
        }
    }
    assert forall|k: Key| #[trigger] post.components.contains(k) implies post.components.get(
        k,
    ).unwrap().same_but_members(first.components.get(k).unwrap()) by {
        assert(pre.components.contains(k));
        assert(k.index() != id.0.index());
        assert(post.components.get(k) == pre.components.get(k));
        assert(pre.components.slots[k.index() as int].generation
            == first.components.slots[k.index() as int].generation);
    }
    assert forall|k: Key| pre.entities.contains(k) implies {
        let a = pre.entities.get(k).unwrap().archetype.0 as int;
        &&& archetype_at(pre.archetypes, a) == archetype_at(first.archetypes, a)
        &&& !first.includes(a, c)
    } by {
        let a = pre.entities.get(k).unwrap().archetype.0 as int;
        assert(pre.location_ok(k));
        assert(archetype_at(pre.archetypes, a) == archetype_at(first.archetypes, a) || {
            &&& first.includes(a, c)
            &&& !pre.includes(a, c)
            &&& archetype_at(pre.archetypes, a) matches Some(x) ==> x.rows@.len() == 0
            &&& first.detached(pre, a, c)
        });
        assert(!pre.includes(a, c));
    }
    assert forall|k: Key| #[trigger]
        post.entities.contains(k) <==> first.entities.contains(k) && !first.entity_has(k, c) by {
        if pre.entities.contains(k) {
            assert(first.entities.get(k) == pre.entities.get(k));
        }
    }
    assert forall|k: EntityId, d: ComponentId|
        post.entities.contains(k.0) && post.components.contains(d.0)
        implies #[trigger] post.component_value(k, d) == first.component_value(k, d) by {
        assert(first.components.contains(d.0));
        assert(first.entities.get(k.0) == pre.entities.get(k.0));
        let a = pre.entities.get(k.0).unwrap().archetype.0 as int;
        assert(pre.location_ok(k.0));
        assert(archetype_at(pre.archetypes, a) == archetype_at(first.archetypes, a));
    }
    assert forall|k: Key| pre.events.contains(k) implies pre.events.get(
        k,
    ).unwrap().spec_component() != Some(id) by {
        assert(pre.event_ok(k.index() as int));
        let ev = EventId(
            Key::make(k.index(), pre.events.slots[k.index() as int].generation),
        );
        match pre.events.get(k).unwrap() {
            EventKind::Normal => {},
            EventKind::Insert(x) => {
                if x == id {
                    assert(pre.components.info(c).insert_events@.contains(ev));
                }
            },
            EventKind::Remove(x) => {
                if x == id {
                    assert(pre.components.info(c).remove_events@.contains(ev));
                }
            },
        }
    }
    assert forall|k: Key| #[trigger]
        post.events.contains(k) <==> first.events.contains(k) && first.events.get(
            k,
        ).unwrap().spec_component() != Some(id) by {
        if pre.events.contains(k) {
            assert(first.events.get(k) == pre.events.get(k));
        }
    }
    assert forall|k: Key| #[trigger]
        post.handlers.contains(k) <==> first.handlers.contains(k) && !first.handler_depends(
            first.handlers.get(k).unwrap(),
            id,
        ) by {
        if pre.handlers.contains(k) {
            assert(first.handlers.get(k) == pre.handlers.get(k));
            let h = pre.handlers.get(k).unwrap();
            assert(pre.handlers.occupied(k.index() as int));
            assert(h == pre.handler(k.index() as int));
            assert(!h.access.references(ComponentIdx(id.0.index())));
            assert(pre.handler_ok(k.index() as int));
            assert(pre.events.contains(h.event.0));
            assert(first.events.get(h.event.0) == pre.events.get(h.event.0));
        }
    }
    assert forall|a: int| !first.includes(a, c) implies #[trigger] archetype_at(post.archetypes, a)
        == archetype_at(first.archetypes, a) by {
        assert(archetype_at(pre.archetypes, a) == archetype_at(first.archetypes, a) || {
            &&& first.includes(a, c)
            &&& !pre.includes(a, c)
            &&& archetype_at(pre.archetypes, a) matches Some(x) ==> x.rows@.len() == 0
            &&& first.detached(pre, a, c)
        });
    }
}

/// Membership consistency: in a consistent world the composition of the
/// archetype at `a` includes the component at `c` exactly when the member-of
/// set of that component names `a`.
pub proof fn lemma_membership_consistency<V>(w: WorldView<V>, a: ArchetypeIdx, c: ComponentIdx)
    requires
        w.wf(),
    ensures
        (archetype_at(w.archetypes, a.0 as int) matches Some(x) && x.has(c)) <==> (
        w.components.value_at(c.0) matches Some(info) && info.member_of@.contains(a)),
{
    assert(w.includes(a.0 as int, c.0 as int) <==> w.member(c.0 as int, a.0 as int));
}

/// Query correctness: what a fetch takes from the row of a live entity for a
/// registered component is the value that the world gives for that entity and
/// that component, so a fetched record is the record made of the values
/// fetched one by one.
pub proof fn lemma_query_correctness<V>(w: WorldView<V>, e: EntityId, c: ComponentId)
    requires
        w.wf(),
        w.entities.contains(e.0),
        w.components.contains(c.0),
    ensures
        w.archetype(w.entities.get(e.0).unwrap().archetype.0 as int).value(
            w.entities.get(e.0).unwrap().row as int,
            ComponentIdx(c.0.index()),
        ) == w.component_value(e, c),
        w.component_value(e, c) is Some <==> w.entity_has(e.0, c.0.index() as int),
{
    assert(w.location_ok(e.0));
}

/// Cascading completeness: after the removal of a component none of the
/// entities that had it is live, none of the handlers that accessed it is
/// registered, no archetype includes it, and no member-of set names an
/// archetype that is gone.
pub proof fn lemma_cascading_completeness<V>(pre: WorldView<V>, post: WorldView<V>, id: ComponentId)
    requires
        pre.wf(),
        post.wf(),
        pre.components.contains(id.0),
        pre.cascaded(post, id),
    ensures
        forall|k: Key|
            #[trigger] pre.entity_has(k, id.0.index() as int) ==> !post.entities.contains(k),
        forall|k: Key|
            pre.handlers.contains(k) && pre.handlers.get(k).unwrap().access.references(
                ComponentIdx(id.0.index()),
            ) ==> !#[trigger] post.handlers.contains(k),
        forall|i: int, j: int|
            post.handlers.occupied(i) && 0 <= j < post.handler(i).access@.len() ==> (
            #[trigger] post.handler(i).access@[j]).0.0 != id.0.index(),
        forall|a: int| !#[trigger] post.includes(a, id.0.index() as int),
        forall|d: int, a: int| #[trigger] post.member(d, a) ==> post.includes(a, d),
{
    assert forall|i: int, j: int|
        post.handlers.occupied(i) && 0 <= j < post.handler(i).access@.len() implies (
    #[trigger] post.handler(i).access@[j]).0.0 != id.0.index() by {
        assert(post.handler_ok(i));
        assert(post.components.occupied(post.handler(i).access@[j].0.0 as int));
        let k = Key::make(id.0.index(), post.components.slots[id.0.index() as int].generation);
        if post.handler(i).access@[j].0.0 == id.0.index() {
            assert(post.components.contains(k));
            assert(pre.components.contains(k));
        }
    }
    assert forall|d: int, a: int| #[trigger] post.member(d, a) implies post.includes(a, d) by {
        assert(post.includes(a, d) <==> post.member(d, a));
    }
}

/// Generation safety of components: once a component has been removed, its
/// identifier is live in no world reached afterwards, and no such world hands
/// it out again.
pub proof fn lemma_component_never_returns<V>(
    before: WorldView<V>,
    after: WorldView<V>,
    id: ComponentId,
    later: WorldView<V>,
)
    requires
        before.wf(),
        before.components.contains(id.0),
        before.cascaded(after, id),
        after.precedes(later),
        later.wf(),
    ensures
        !later.components.contains(id.0),
        later.components.next_key() != Some(id.0),
        forall|desc: ComponentDescriptor|
            later.components.can_add(desc) && (#[trigger] later.components.add_result(desc)).1
                ==> later.components.add_result(desc).0 != id,
{
    lemma_precedes_transitive(
        before.components.remove(id.0),
        after.components,
        later.components,
    );
    lemma_generation_safety(before.components, id.0, later.components);
}

} // verus!
