//! The component registry.
//!
//! [`Components`] keeps one [`ComponentInfo`] for each registered component,
//! under a generational [`ComponentId`]. A component that is declared with a
//! type key is registered once: declaring it again gives the identifier it
//! already has.

use crate::archetype::ArchetypeIdx;
use crate::event::{EventId, EventSet};
use crate::map::IndexSet;
use crate::mutability::{Mutability, MutabilityMarker};
use crate::slot_map::lemma_insert;
use crate::slot_map::lemma_remove;
use crate::slot_map::lemma_set_at;
use crate::slot_map::{Key, SlotMap, SlotMapView};
use core::alloc::Layout;
use core::any::TypeId;
use vstd::prelude::*;

verus! {

/// `core::any::TypeId`, the type keys of std. They are carried and compared,
/// and nothing else is known of them.
#[verifier::external_type_specification]
#[verifier::external_body]
pub struct ExTypeId(TypeId);

/// `core::alloc::Layout`, the memory layouts of std. They are carried
/// through, and nothing else is known of them.
#[verifier::external_type_specification]
#[verifier::external_body]
pub struct ExLayout(Layout);

/// Compares two type keys with `==`, that is with `PartialEq::eq` of
/// `core::any::TypeId`. Believed of it: the result is `true` exactly when the
/// two keys are the same key.
#[verifier::external_body]
fn same_type_id(a: TypeId, b: TypeId) -> (r: bool)
    ensures
        r == (a == b),
{
    a == b
}

/// Reference to the routine that destroys the values of a component: its place
/// in the caller's table of destructors, or nothing where the values need no
/// destruction.
#[derive(Clone, Copy, PartialEq, Eq, Structural, Hash, Debug)]
pub struct DropFn(pub Option<usize>);

/// Types whose values are attached to entities.
pub trait Component: 'static {
    /// Whether values of this component may be changed in place.
    type Mutability: MutabilityMarker;
}

/// Lightweight identifier of a component: an index and a generation count. The
/// generation count keeps the identifier of a removed component from ever
/// naming a later one.
#[derive(Clone, Copy, PartialEq, Eq, Structural, PartialOrd, Ord, Hash, Debug)]
pub struct ComponentId(pub Key);

impl ComponentId {
    /// The identifier that never names a live component.
    pub open spec fn spec_null() -> ComponentId {
        ComponentId(Key::spec_null())
    }

    /// The identifier that never names a live component.
    pub fn null() -> (id: ComponentId)
        ensures
            id == ComponentId::spec_null(),
    {
        ComponentId(Key::null())
    }

    /// Forms an identifier from an index and a generation count. `None` when
    /// the generation count is zero, which no identifier carries.
    pub fn new(index: u32, generation: u32) -> (r: Option<ComponentId>)
        ensures
            generation == 0 ==> r is None,
            generation != 0 ==> r == Some(ComponentId(Key::make(index, generation))),
    {
        match Key::new(index, generation) {
            Some(k) => Some(ComponentId(k)),
            None => None,
        }
    }

    /// The index of this identifier.
    pub fn index(self) -> (i: ComponentIdx)
        ensures
            i == ComponentIdx(self.0.index()),
    {
        ComponentIdx(self.0.index())
    }

    /// The generation count of this identifier.
    pub fn generation(self) -> (g: u32)
        ensures
            g == self.0.generation(),
            g >= 1,
    {
        self.0.generation()
    }
}

impl Default for ComponentId {
    fn default() -> (id: ComponentId)
        ensures
            id == ComponentId::spec_null(),
    {
        ComponentId::null()
    }
}

/// A [`ComponentId`] without its generation count.
#[derive(Clone, Copy, PartialEq, Eq, Structural, PartialOrd, Ord, Hash, Debug)]
pub struct ComponentIdx(pub u32);

impl ComponentIdx {
    /// The index as a position in a table.
    pub fn index(self) -> (i: usize)
        ensures
            i == self.0,
    {
        self.0 as usize
    }

    /// The index that stands at position `idx` of a table.
    pub fn from_index(idx: usize) -> (i: ComponentIdx)
        requires
            idx <= u32::MAX,
        ensures
            i.0 == idx,
    {
        ComponentIdx(idx as u32)
    }
}

impl Default for ComponentIdx {
    fn default() -> (i: ComponentIdx)
        ensures
            i == ComponentIdx(0),
    {
        ComponentIdx(0)
    }
}

/// The event that follows the registration of a component.
#[derive(Clone, Copy, PartialEq, Eq, Structural, PartialOrd, Ord, Hash, Debug)]
pub struct AddComponent(pub ComponentId);

/// The event that precedes the removal of a component.
#[derive(Clone, Copy, PartialEq, Eq, Structural, PartialOrd, Ord, Hash, Debug)]
pub struct RemoveComponent(pub ComponentId);

/// What is needed to register a component.
#[derive(Debug)]
pub struct ComponentDescriptor {
    /// The name of the component, for diagnostics only.
    pub name: String,
    /// The type key of the component, if it has one. A component with a type
    /// key is registered at most once.
    pub type_id: Option<TypeId>,
    /// The memory layout of the component's values.
    pub layout: Layout,
    /// The destructor of the component's values.
    pub drop: DropFn,
    /// Whether the component's values may be changed in place.
    pub mutability: Mutability,
}

impl Clone for ComponentDescriptor {
    fn clone(&self) -> (r: ComponentDescriptor)
        ensures
            r.name@ == self.name@,
            r.type_id == self.type_id,
            r.layout == self.layout,
            r.drop == self.drop,
            r.mutability == self.mutability,
    {
        ComponentDescriptor {
            name: self.name.clone(),
            type_id: self.type_id,
            layout: self.layout,
            drop: self.drop,
            mutability: self.mutability,
        }
    }
}

/// What the registry knows of one component.
#[derive(Debug)]
pub struct ComponentInfo {
    pub name: String,
    pub id: ComponentId,
    pub type_id: Option<TypeId>,
    pub layout: Layout,
    pub drop: DropFn,
    pub mutability: Mutability,
    /// The events that are sent when this component is inserted, ascending.
    pub insert_events: EventSet,
    /// The events that are sent when this component is removed, ascending.
    pub remove_events: EventSet,
    /// The archetypes that have this component in their composition.
    pub member_of: IndexSet<ArchetypeIdx>,
}

impl ComponentInfo {
    /// The sets of events ascend, and no set holds an item twice.
    pub open spec fn wf(&self) -> bool {
        &&& self.insert_events.wf()
        &&& self.remove_events.wf()
        &&& self.member_of.wf()
    }

    /// The two records differ at most in their member-of sets.
    pub open spec fn same_but_members(&self, other: ComponentInfo) -> bool {
        &&& self.name == other.name
        &&& self.id == other.id
        &&& self.type_id == other.type_id
        &&& self.layout == other.layout
        &&& self.drop == other.drop
        &&& self.mutability == other.mutability
        &&& self.insert_events == other.insert_events
        &&& self.remove_events == other.remove_events
    }

    /// The two records were made from the same descriptor under the same
    /// identifier.
    pub open spec fn same_descriptor(&self, other: ComponentInfo) -> bool {
        &&& self.name == other.name
        &&& self.id == other.id
        &&& self.type_id == other.type_id
        &&& self.layout == other.layout
        &&& self.drop == other.drop
        &&& self.mutability == other.mutability
    }

    /// The two records differ at most in their sets of events.
    pub open spec fn same_but_events(&self, other: ComponentInfo) -> bool {
        &&& self.name == other.name
        &&& self.id == other.id
        &&& self.type_id == other.type_id
        &&& self.layout == other.layout
        &&& self.drop == other.drop
        &&& self.mutability == other.mutability
        &&& self.member_of == other.member_of
    }

    /// The record is the one that registering `desc` under `id` creates.
    pub open spec fn describes(&self, desc: ComponentDescriptor, id: ComponentId) -> bool {
        &&& self.name@ == desc.name@
        &&& self.id == id
        &&& self.type_id == desc.type_id
        &&& self.layout == desc.layout
        &&& self.drop == desc.drop
        &&& self.mutability == desc.mutability
        &&& self.insert_events@ == Seq::<EventId>::empty()
        &&& self.remove_events@ == Seq::<EventId>::empty()
        &&& self.member_of@ == Seq::<ArchetypeIdx>::empty()
    }

    /// The name of the component, for diagnostics only.
    pub fn name(&self) -> (r: &str)
        ensures
            r@ == self.name@,
    {
        self.name.as_str()
    }

    /// The identifier of the component.
    pub fn id(&self) -> (r: ComponentId)
        ensures
            r == self.id,
    {
        self.id
    }

    /// The type key of the component, if it has one.
    pub fn type_id(&self) -> (r: Option<TypeId>)
        ensures
            r == self.type_id,
    {
        self.type_id
    }

    /// The memory layout of the component's values.
    pub fn layout(&self) -> (r: Layout)
        ensures
            r == self.layout,
    {
        self.layout
    }

    /// The destructor of the component's values.
    pub fn drop(&self) -> (r: DropFn)
        ensures
            r == self.drop,
    {
        self.drop
    }

    /// Whether the component's values may be changed in place.
    pub fn mutability(&self) -> (r: Mutability)
        ensures
            r == self.mutability,
    {
        self.mutability
    }

    /// The events that are sent when this component is inserted, in
    /// ascending order.
    pub fn insert_events(&self) -> (r: &EventSet)
        ensures
            *r == self.insert_events,
    {
        &self.insert_events
    }

    /// The events that are sent when this component is removed, in
    /// ascending order.
    pub fn remove_events(&self) -> (r: &EventSet)
        ensures
            *r == self.remove_events,
    {
        &self.remove_events
    }

    /// The archetypes that have this component in their composition.
    pub fn member_of(&self) -> (r: &IndexSet<ArchetypeIdx>)
        ensures
            *r == self.member_of,
    {
        &self.member_of
    }
}

impl SlotMapView<ComponentInfo> {
    /// The record at the occupied slot `index`.
    pub open spec fn info(self, index: int) -> ComponentInfo {
        self.slots[index].value.unwrap()
    }

    /// The state of a registry: every record carries the identifier under which
    /// it is stored, its sets are well formed, and no two records share a type
    /// key.
    pub open spec fn registry_wf(self) -> bool {
        &&& self.wf()
        &&& forall|i: int| #[trigger]
            self.occupied(i) ==> self.info(i).wf() && self.info(i).id == ComponentId(
                Key::make(i as u32, self.slots[i].generation),
            )
        &&& forall|i: int, j: int|
            #![trigger self.occupied(i), self.occupied(j)]
            self.occupied(i) && self.occupied(j) && i != j && self.info(i).type_id is Some
                ==> self.info(i).type_id != self.info(j).type_id
    }

    /// The two registries hold the same components under the same
    /// identifiers, and their records differ at most in the member-of sets.
    pub open spec fn same_but_members(self, other: Self) -> bool {
        &&& self.slots.len() == other.slots.len()
        &&& self.free == other.free
        &&& forall|c: int|
            0 <= c < self.slots.len() ==> {
                &&& (#[trigger] self.slots[c]).generation == other.slots[c].generation
                &&& self.slots[c].value is Some == other.slots[c].value is Some
                &&& self.slots[c].value is Some ==> self.info(c).same_but_members(other.info(c))
            }
    }

    /// The two registries hold the same components under the same
    /// identifiers, and their records differ at most in the sets of events.
    pub open spec fn same_but_events(self, other: Self) -> bool {
        &&& self.slots.len() == other.slots.len()
        &&& self.free == other.free
        &&& forall|c: int|
            0 <= c < self.slots.len() ==> {
                &&& (#[trigger] self.slots[c]).generation == other.slots[c].generation
                &&& self.slots[c].value is Some == other.slots[c].value is Some
                &&& self.slots[c].value is Some ==> self.info(c).same_but_events(other.info(c))
            }
    }

    /// The component that is registered under the type key `t`, if any.
    pub open spec fn find_type(self, t: TypeId) -> Option<ComponentId> {
        if exists|i: int| #[trigger] self.occupied(i) && self.info(i).type_id == Some(t) {
            let i = choose|i: int| #[trigger] self.occupied(i) && self.info(i).type_id == Some(t);
            Some(self.info(i).id)
        } else {
            None
        }
    }

    /// The component that `desc` names by its type key, if it is registered.
    pub open spec fn registered_as(self, desc: ComponentDescriptor) -> Option<ComponentId> {
        match desc.type_id {
            Some(t) => self.find_type(t),
            None => None,
        }
    }

    /// `desc` can be registered: it names a registered component, or an
    /// identifier is left for it.
    pub open spec fn can_add(self, desc: ComponentDescriptor) -> bool {
        self.registered_as(desc) is Some || self.next_key() is Some
    }

    /// What registering `desc` returns: the identifier of the component that
    /// `desc` names and `false`, or the next identifier and `true`.
    pub open spec fn add_result(self, desc: ComponentDescriptor) -> (ComponentId, bool) {
        match self.registered_as(desc) {
            Some(id) => (id, false),
            None => (ComponentId(self.next_key().unwrap()), true),
        }
    }

    /// `post` is the state after registering `desc`: unchanged where `desc`
    /// names a registered component, else with one new record under the next
    /// identifier, made from `desc` and with empty sets.
    pub open spec fn added(self, desc: ComponentDescriptor, post: Self) -> bool {
        match self.registered_as(desc) {
            Some(_) => post == self,
            None => {
                let k = self.next_key().unwrap();
                &&& post.get(k) is Some
                &&& post == self.insert(post.get(k).unwrap())
                &&& post.get(k).unwrap().describes(desc, ComponentId(k))
            },
        }
    }
}

/// A registry whose records differ at most in their member-of sets, or at
/// most in their sets of events, can be reached.
pub proof fn lemma_same_components_precede(
    pre: SlotMapView<ComponentInfo>,
    post: SlotMapView<ComponentInfo>,
)
    requires
        post.same_but_members(pre) || post.same_but_events(pre),
    ensures
        pre.precedes(post),
{
    assert forall|i: int| 0 <= i < pre.slots.len() implies (#[trigger] pre.slots[i]).generation
        == post.slots[i].generation && pre.slots[i].value is Some == post.slots[i].value is Some by {
        assert(post.slots[i].generation == pre.slots[i].generation);
    }
    crate::slot_map::lemma_same_shape_precedes(pre, post);
}

/// In a well-formed registry the component found under a type key is the one
/// live record that carries the key.
pub proof fn lemma_find_type(m: SlotMapView<ComponentInfo>, t: TypeId, i: int)
    requires
        m.registry_wf(),
        m.occupied(i),
        m.info(i).type_id == Some(t),
    ensures
        m.find_type(t) == Some(m.info(i).id),
        m.contains(m.info(i).id.0),
{
    let j = choose|j: int| #[trigger] m.occupied(j) && m.info(j).type_id == Some(t);
    assert(m.occupied(i) && m.occupied(j));
}

/// Idempotent registration: once a descriptor with a type key has been
/// registered, registering it again returns the same identifier, reports that
/// nothing was added, and leaves the registry as it is.
pub proof fn lemma_registration_idempotent(
    pre: SlotMapView<ComponentInfo>,
    desc: ComponentDescriptor,
    mid: SlotMapView<ComponentInfo>,
    post: SlotMapView<ComponentInfo>,
)
    requires
        pre.registry_wf(),
        pre.can_add(desc),
        desc.type_id is Some,
        pre.added(desc, mid),
        mid.added(desc, post),
    ensures
        mid.registry_wf(),
        mid.can_add(desc),
        mid.add_result(desc) == (pre.add_result(desc).0, false),
        post == mid,
{
    lemma_added_wf(pre, desc, mid);
    let t = desc.type_id.unwrap();
    match pre.registered_as(desc) {
        Some(id) => {},
        None => {
            let k = pre.next_key().unwrap();
            let info = mid.get(k).unwrap();
            lemma_insert(pre, info);
            assert(mid.occupied(k.index() as int));
            lemma_find_type(mid, t, k.index() as int);
        },
    }
}

/// Registering a descriptor keeps the registry well formed, and every
/// component that was registered stays so, unchanged.
pub proof fn lemma_added_wf(
    pre: SlotMapView<ComponentInfo>,
    desc: ComponentDescriptor,
    post: SlotMapView<ComponentInfo>,
)
    requires
        pre.registry_wf(),
        pre.can_add(desc),
        pre.added(desc, post),
    ensures
        post.registry_wf(),
        post.contains(pre.add_result(desc).0.0),
        forall|o: Key| #[trigger] pre.contains(o) ==> post.get(o) == pre.get(o),
        forall|o: Key|
            #[trigger] post.contains(o) ==> pre.contains(o) || (o == pre.add_result(desc).0.0
                && pre.add_result(desc).1),
{
    match pre.registered_as(desc) {
        Some(id) => {
            let t = desc.type_id.unwrap();
            let i = choose|i: int| #[trigger] pre.occupied(i) && pre.info(i).type_id == Some(t);
            assert(pre.occupied(i));
        },
        None => {
            let k = pre.next_key().unwrap();
            let info = post.get(k).unwrap();
            lemma_insert(pre, info);
            assert forall|i: int| #[trigger] post.occupied(i) implies post.info(i).wf()
                && post.info(i).id == ComponentId(
                Key::make(i as u32, post.slots[i].generation),
            ) by {
                if i != k.index() {
                    assert(pre.occupied(i));
                    let o = Key::make(i as u32, pre.slots[i].generation);
                    assert(post.get(o) == pre.get(o));
                }
            }
            assert forall|i: int, j: int|
                #![trigger post.occupied(i), post.occupied(j)]
                post.occupied(i) && post.occupied(j) && i != j && post.info(i).type_id is Some
                implies post.info(i).type_id != post.info(j).type_id by {
                let oi = Key::make(i as u32, pre.slots[i].generation);
                let oj = Key::make(j as u32, pre.slots[j].generation);
                if i != k.index() {
                    assert(pre.occupied(i));
                    assert(post.get(oi) == pre.get(oi));
                }
                if j != k.index() {
                    assert(pre.occupied(j));
                    assert(post.get(oj) == pre.get(oj));
                }
                if i != k.index() && j != k.index() {
                    assert(pre.occupied(i) && pre.occupied(j));
                }
            }
            assert forall|o: Key| #[trigger] post.contains(o) implies pre.contains(o) || o
                == k by {
                if o.index() != k.index() {
                    assert(post.get(o) == pre.get(o));
                }
            }
        },
    }
}

/// Replacing a record by one with the same identifier and type key, and with
/// well-formed sets, keeps the registry well formed.
pub proof fn lemma_registry_set_at(m: SlotMapView<ComponentInfo>, index: u32, info: ComponentInfo)
    requires
        m.registry_wf(),
        m.occupied(index as int),
        info.id == m.info(index as int).id,
        info.type_id == m.info(index as int).type_id,
        info.wf(),
    ensures
        m.set_at(index, info).registry_wf(),
        forall|t: TypeId| #[trigger] m.set_at(index, info).find_type(t) == m.find_type(t),
{
    let n = m.set_at(index, info);
    lemma_set_at(m, index, info);
    assert forall|i: int| #[trigger] n.occupied(i) implies n.info(i).wf() && n.info(i).id
        == ComponentId(Key::make(i as u32, n.slots[i].generation)) by {
        assert(m.occupied(i));
    }
    assert forall|i: int, j: int|
        #![trigger n.occupied(i), n.occupied(j)]
        n.occupied(i) && n.occupied(j) && i != j && n.info(i).type_id is Some implies n.info(
        i,
    ).type_id != n.info(j).type_id by {
        assert(m.occupied(i) && m.occupied(j));
    }
    assert forall|t: TypeId| #[trigger] n.find_type(t) == m.find_type(t) by {
        if exists|i: int| #[trigger] m.occupied(i) && m.info(i).type_id == Some(t) {
            let i = choose|i: int| #[trigger] m.occupied(i) && m.info(i).type_id == Some(t);
            assert(n.occupied(i) && n.info(i).type_id == Some(t));
            lemma_find_type(n, t, i);
            lemma_find_type(m, t, i);
        } else {
            if exists|i: int| #[trigger] n.occupied(i) && n.info(i).type_id == Some(t) {
                let i = choose|i: int| #[trigger] n.occupied(i) && n.info(i).type_id == Some(t);
                assert(m.occupied(i));
            }
        }
    }
}

/// The table names every live record of `m` that has a type key, once, and
/// nothing else.
pub open spec fn table_matches(
    table: Seq<(TypeId, ComponentId)>,
    m: SlotMapView<ComponentInfo>,
) -> bool {
    &&& forall|j: int|
        0 <= j < table.len() ==> {
            let e = #[trigger] table[j];
            &&& m.contains(e.1.0)
            &&& m.info(e.1.0.index() as int).type_id == Some(e.0)
        }
    &&& forall|j: int, k: int|
        0 <= j < table.len() && 0 <= k < table.len() && j != k ==> (#[trigger] table[j]).0 != (
        #[trigger] table[k]).0
    &&& forall|i: int| #[trigger]
        m.occupied(i) && m.info(i).type_id is Some ==> exists|j: int|
            0 <= j < table.len() && #[trigger] table[j] == (
                m.info(i).type_id.unwrap(),
                m.info(i).id,
            )
}

/// Replacing a record by any record with the same identifier and type key, and
/// with well-formed sets, keeps the registry and its table of type keys valid.
pub proof fn lemma_registry_replace(
    table: Seq<(TypeId, ComponentId)>,
    m: SlotMapView<ComponentInfo>,
    index: u32,
)
    requires
        m.registry_wf(),
        table_matches(table, m),
        m.occupied(index as int),
    ensures
        forall|info: ComponentInfo|
            info.id == m.info(index as int).id && info.type_id == m.info(index as int).type_id
                && info.wf() ==> (#[trigger] m.set_at(index, info)).registry_wf()
                && table_matches(table, m.set_at(index, info)),
{
    assert forall|info: ComponentInfo|
        info.id == m.info(index as int).id && info.type_id == m.info(index as int).type_id
            && info.wf() implies (#[trigger] m.set_at(index, info)).registry_wf() && table_matches(
        table,
        m.set_at(index, info),
    ) by {
        let n = m.set_at(index, info);
        lemma_registry_set_at(m, index, info);
        lemma_set_at(m, index, info);
        assert forall|j: int| 0 <= j < table.len() implies {
            let e = #[trigger] table[j];
            &&& n.contains(e.1.0)
            &&& n.info(e.1.0.index() as int).type_id == Some(e.0)
        } by {
            let e = table[j];
            assert(m.contains(e.1.0));
        }
        assert forall|i: int| #[trigger] n.occupied(i) && n.info(i).type_id is Some implies exists|
            j: int,
        |
            0 <= j < table.len() && #[trigger] table[j] == (
                n.info(i).type_id.unwrap(),
                n.info(i).id,
            ) by {
            assert(m.occupied(i));
        }
    }
}

/// The component registry.
#[derive(Debug)]
pub struct Components {
    infos: SlotMap<ComponentInfo>,
    by_type_id: Vec<(TypeId, ComponentId)>,
}

impl View for Components {
    type V = SlotMapView<ComponentInfo>;

    closed spec fn view(&self) -> SlotMapView<ComponentInfo> {
        self.infos@
    }
}

impl Components {
    /// The table of type keys names every live record with a type key, once,
    /// and nothing else.
    pub closed spec fn table_wf(&self) -> bool {
        table_matches(self.by_type_id@, self@)
    }

    /// The registry is valid.
    pub open spec fn wf(&self) -> bool {
        self@.registry_wf() && self.table_wf()
    }

    /// An empty registry.
    pub fn new() -> (c: Components)
        ensures
            c@ == SlotMapView::<ComponentInfo>::empty(),
            c.wf(),
    {
        Components { infos: SlotMap::new(), by_type_id: Vec::new() }
    }

    fn find_type_entry(&self, type_id: TypeId) -> (r: Option<usize>)
        requires
            self.wf(),
        ensures
            r matches Some(j) ==> j < self.by_type_id@.len() && self.by_type_id@[j as int].0
                == type_id && self@.find_type(type_id) == Some(self.by_type_id@[j as int].1),
            r is None ==> self@.find_type(type_id) is None,
            r is None ==> forall|j: int|
                0 <= j < self.by_type_id@.len() ==> (#[trigger] self.by_type_id@[j]).0 != type_id,
    {
        let mut j: usize = 0;
        while j < self.by_type_id.len()
            invariant
                self.wf(),
                j <= self.by_type_id@.len(),
                forall|k: int| 0 <= k < j ==> (#[trigger] self.by_type_id@[k]).0 != type_id,
            decreases self.by_type_id@.len() - j,
        {
            if same_type_id(self.by_type_id[j].0, type_id) {
                proof {
                    let e = self.by_type_id@[j as int];
                    assert(self@.occupied(e.1.0.index() as int));
                    lemma_find_type(self@, type_id, e.1.0.index() as int);
                }
                return Some(j);
            }
            j = j + 1;
        }
        proof {
            if self@.find_type(type_id) is Some {
                let i = choose|i: int| #[trigger]
                    self@.occupied(i) && self@.info(i).type_id == Some(type_id);
                assert(self@.occupied(i));
                let k = choose|k: int|
                    0 <= k < self.by_type_id@.len() && #[trigger] self.by_type_id@[k] == (
                        self@.info(i).type_id.unwrap(),
                        self@.info(i).id,
                    );
                assert(self.by_type_id@[k].0 == type_id);
            }
        }
        None
    }

    /// Whether one more component can be registered under a new identifier.
    pub fn has_room(&self) -> (r: bool)
        requires
            self.wf(),
        ensures
            r == self@.next_key() is Some,
    {
        self.infos.next_key().is_some()
    }

    /// Registers `desc`. Where `desc` has a type key under which a component
    /// is registered, returns that component's identifier and `false`.
    /// Otherwise adds a record made from `desc` and returns its new identifier
    /// and `true`.
    pub fn add(&mut self, desc: ComponentDescriptor) -> (r: (ComponentId, bool))
        requires
            old(self).wf(),
            old(self)@.can_add(desc),
        ensures
            final(self).wf(),
            r == old(self)@.add_result(desc),
            old(self)@.added(desc, final(self)@),
    {
        if let Some(type_id) = desc.type_id {
            if let Some(j) = self.find_type_entry(type_id) {
                return (self.by_type_id[j].1, false);
            }
        }
        let k = self.infos.next_key().unwrap();
        let id = ComponentId(k);
        let type_id = desc.type_id;
        let info = ComponentInfo {
            name: desc.name,
            id,
            type_id,
            layout: desc.layout,
            drop: desc.drop,
            mutability: desc.mutability,
            insert_events: EventSet::new(),
            remove_events: EventSet::new(),
            member_of: IndexSet::new(),
        };
        proof {
            lemma_insert(self@, info);
        }
        self.infos.insert(info);
        assert(self@.get(k) == Some(info));
        proof {
            lemma_added_wf(old(self)@, desc, self@);
        }
        if let Some(t) = type_id {
            self.by_type_id.push((t, id));
            proof {
                let table = self.by_type_id@;
                let before = old(self).by_type_id@;
                assert forall|j: int| 0 <= j < table.len() implies {
                    let e = #[trigger] table[j];
                    &&& self@.contains(e.1.0)
                    &&& self@.info(e.1.0.index() as int).type_id == Some(e.0)
                } by {
                    if j < before.len() {
                        let e = before[j];
                        assert(old(self)@.contains(e.1.0));
                        assert(self@.get(e.1.0) == old(self)@.get(e.1.0));
                    }
                }
                assert forall|i: int| #[trigger]
                    self@.occupied(i) && self@.info(i).type_id is Some implies exists|j: int|
                    0 <= j < table.len() && #[trigger] table[j] == (
                        self@.info(i).type_id.unwrap(),
                        self@.info(i).id,
                    ) by {
                    if i == k.index() {
                        assert(table[before.len() as int] == (t, id));
                    } else {
                        assert(old(self)@.occupied(i));
                        let o = Key::make(i as u32, old(self)@.slots[i].generation);
                        assert(self@.get(o) == old(self)@.get(o));
                        let j = choose|j: int|
                            0 <= j < before.len() && #[trigger] before[j] == (
                                old(self)@.info(i).type_id.unwrap(),
                                old(self)@.info(i).id,
                            );
                        assert(table[j] == before[j]);
                    }
                }
            }
        } else {
            proof {
                let table = self.by_type_id@;
                assert forall|j: int| 0 <= j < table.len() implies {
                    let e = #[trigger] table[j];
                    &&& self@.contains(e.1.0)
                    &&& self@.info(e.1.0.index() as int).type_id == Some(e.0)
                } by {
                    let e = table[j];
                    assert(old(self)@.contains(e.1.0));
                    assert(self@.get(e.1.0) == old(self)@.get(e.1.0));
                }
                assert forall|i: int| #[trigger]
                    self@.occupied(i) && self@.info(i).type_id is Some implies exists|j: int|
                    0 <= j < table.len() && #[trigger] table[j] == (
                        self@.info(i).type_id.unwrap(),
                        self@.info(i).id,
                    ) by {
                    assert(i != k.index());
                    assert(old(self)@.occupied(i));
                    let o = Key::make(i as u32, old(self)@.slots[i].generation);
                    assert(self@.get(o) == old(self)@.get(o));
                }
            }
        }
        (id, true)
    }

    /// Removes the component that `component_id` identifies and returns its
    /// record; `None`, with the registry unchanged, when the identifier is not
    /// live. Nothing that depends on the component is touched.
    pub fn remove(&mut self, component_id: ComponentId) -> (r: Option<ComponentInfo>)
        requires
            old(self).wf(),
        ensures
            final(self).wf(),
            r == old(self)@.get(component_id.0),
            final(self)@ == old(self)@.remove(component_id.0),
    {
        let type_id = match self.infos.get(component_id.0) {
            Some(info) => info.type_id,
            None => {
                return None;
            },
        };
        let entry = match type_id {
            Some(t) => self.find_type_entry(t),
            None => None,
        };
        proof {
            lemma_remove(self@, component_id.0);
        }
        let info = self.infos.remove(component_id.0);
        let ghost gone = component_id.0.index() as int;
        proof {
            assert forall|i: int| #[trigger] self@.occupied(i) implies old(self)@.occupied(i)
                && self@.info(i) == old(self)@.info(i) && self@.slots[i].generation == old(
                self,
            )@.slots[i].generation by {
                assert(i != gone);
                let o = Key::make(i as u32, self@.slots[i].generation);
                assert(self@.contains(o));
                assert(old(self)@.contains(o));
                assert(self@.get(o) == old(self)@.get(o));
            }
            assert forall|i: int, j: int|
                #![trigger self@.occupied(i), self@.occupied(j)]
                self@.occupied(i) && self@.occupied(j) && i != j && self@.info(i).type_id is Some
                implies self@.info(i).type_id != self@.info(j).type_id by {
                assert(old(self)@.occupied(i) && old(self)@.occupied(j));
            }
        }
        let ghost before = self.by_type_id@;
        match entry {
            Some(j) => {
                self.by_type_id.swap_remove(j);
                proof {
                    let table = self.by_type_id@;
                    let t = type_id.unwrap();
                    assert(old(self)@.occupied(gone));
                    lemma_find_type(old(self)@, t, gone);
                    assert(before[j as int].1 == component_id);
                    assert forall|a: int| 0 <= a < table.len() implies {
                        let e = #[trigger] table[a];
                        &&& self@.contains(e.1.0)
                        &&& self@.info(e.1.0.index() as int).type_id == Some(e.0)
                    } by {
                        let b = if a == j { before.len() - 1 } else { a };
                        assert(table[a] == before[b]);
                        assert(b != j);
                        assert(before[b].0 != before[j as int].0);
                        let e = before[b];
                        assert(old(self)@.contains(e.1.0));
                        assert(old(self)@.occupied(e.1.0.index() as int) && old(self)@.occupied(gone));
                        assert(e.1.0.index() != gone);
                        assert(self@.get(e.1.0) == old(self)@.get(e.1.0));
                    }
                    assert forall|a: int, b: int|
                        0 <= a < table.len() && 0 <= b < table.len() && a != b implies (
                    #[trigger] table[a]).0 != (#[trigger] table[b]).0 by {
                        let sa = if a == j { before.len() - 1 } else { a };
                        let sb = if b == j { before.len() - 1 } else { b };
                        assert(table[a] == before[sa] && table[b] == before[sb]);
                    }
                    assert forall|i: int| #[trigger]
                        self@.occupied(i) && self@.info(i).type_id is Some implies exists|a: int|
                        0 <= a < table.len() && #[trigger] table[a] == (
                            self@.info(i).type_id.unwrap(),
                            self@.info(i).id,
                        ) by {
                        assert(old(self)@.occupied(i) && old(self)@.occupied(gone));
                        let b = choose|b: int|
                            0 <= b < before.len() && #[trigger] before[b] == (
                                old(self)@.info(i).type_id.unwrap(),
                                old(self)@.info(i).id,
                            );
                        assert(b != j);
                        let a = if b == before.len() - 1 { j as int } else { b };
                        assert(table[a] == before[b]);
                    }
                }
            },
            None => {
                proof {
                    let table = self.by_type_id@;
                    assert(old(self)@.occupied(gone));
                    if type_id is Some {
                        lemma_find_type(old(self)@, type_id.unwrap(), gone);
                    }
                    assert forall|a: int| 0 <= a < table.len() implies {
                        let e = #[trigger] table[a];
                        &&& self@.contains(e.1.0)
                        &&& self@.info(e.1.0.index() as int).type_id == Some(e.0)
                    } by {
                        let e = table[a];
                        assert(old(self)@.contains(e.1.0));
                        assert(old(self)@.occupied(e.1.0.index() as int));
                        assert(e.1.0.index() != gone);
                        assert(self@.get(e.1.0) == old(self)@.get(e.1.0));
                    }
                    assert forall|i: int| #[trigger]
                        self@.occupied(i) && self@.info(i).type_id is Some implies exists|a: int|
                        0 <= a < table.len() && #[trigger] table[a] == (
                            self@.info(i).type_id.unwrap(),
                            self@.info(i).id,
                        ) by {
                        assert(old(self)@.occupied(i));
                    }
                }
            },
        }
        info
    }

    /// The record of the component that `id` identifies; `None` when the
    /// identifier is not live.
    pub fn get(&self, id: ComponentId) -> (r: Option<&ComponentInfo>)
        ensures
            r is Some <==> self@.contains(id.0),
            r matches Some(info) ==> self@.get(id.0) == Some(*info),
    {
        self.infos.get(id.0)
    }

    /// The record of the component that lives at `idx`; `None` when there is
    /// none.
    pub fn get_by_index(&self, idx: ComponentIdx) -> (r: Option<&ComponentInfo>)
        requires
            self@.wf(),
        ensures
            r is Some <==> self@.occupied(idx.0 as int),
            r matches Some(info) ==> self@.value_at(idx.0) == Some(*info),
    {
        match self.infos.get_by_index(idx.0) {
            Some(p) => Some(p.1),
            None => None,
        }
    }

    /// Mutable access to the record of the component that lives at `idx`;
    /// `None` when there is none. What is written through the reference
    /// replaces the record. The registry stays valid as long as the record
    /// keeps its identifier and its type key and its sets stay well formed.
    pub fn get_by_index_mut(&mut self, idx: ComponentIdx) -> (r: Option<&mut ComponentInfo>)
        requires
            old(self).wf(),
        ensures
            r is Some <==> old(self)@.occupied(idx.0 as int),
            r matches Some(info) ==> old(self)@.value_at(idx.0) == Some(*info) && final(self)@
                == old(self)@.set_at(idx.0, *final(info)) && ((final(info).id == info.id
                && final(info).type_id == info.type_id && final(info).wf()) ==> final(self).wf()),
            r is None ==> final(self)@ == old(self)@ && final(self).wf(),
    {
        proof {
            if self@.occupied(idx.0 as int) {
                lemma_registry_replace(self.by_type_id@, self@, idx.0);
            }
        }
        self.infos.get_by_index_mut(idx.0)
    }

    /// The record of the component that is registered under the type key
    /// `type_id`; `None` when there is none.
    pub fn get_by_type_id(&self, type_id: TypeId) -> (r: Option<&ComponentInfo>)
        requires
            self.wf(),
        ensures
            r is Some <==> self@.find_type(type_id) is Some,
            r matches Some(info) ==> self@.find_type(type_id) == Some(info.id) && self@.get(
                info.id.0,
            ) == Some(*info),
    {
        match self.find_type_entry(type_id) {
            Some(j) => {
                let id = self.by_type_id[j].1;
                self.infos.get(id.0)
            },
            None => None,
        }
    }

    /// Whether `id` identifies a registered component.
    pub fn contains(&self, id: ComponentId) -> (r: bool)
        ensures
            r == self@.contains(id.0),
    {
        self.get(id).is_some()
    }

    /// The records of all registered components, by ascending index.
    pub fn iter(&self) -> (r: Vec<&ComponentInfo>)
        ensures
            r@.len() == self@.values().len(),
            forall|j: int| 0 <= j < r@.len() ==> *(#[trigger] r@[j]) == self@.values()[j],
    {
        self.infos.values()
    }

    /// The record of the component that `id` identifies, which must be live.
    pub fn index(&self, id: ComponentId) -> (r: &ComponentInfo)
        requires
            self@.contains(id.0),
        ensures
            self@.get(id.0) == Some(*r),
    {
        match self.get(id) {
            Some(info) => info,
            None => vstd::pervasive::unreached(),
        }
    }

    /// The record of the component that lives at `idx`, which must hold one.
    pub fn index_by_idx(&self, idx: ComponentIdx) -> (r: &ComponentInfo)
        requires
            self@.wf(),
            self@.occupied(idx.0 as int),
        ensures
            self@.value_at(idx.0) == Some(*r),
    {
        match self.get_by_index(idx) {
            Some(info) => info,
            None => vstd::pervasive::unreached(),
        }
    }

    /// The record of the component that is registered under the type key
    /// `type_id`, which must be registered.
    pub fn index_by_type_id(&self, type_id: TypeId) -> (r: &ComponentInfo)
        requires
            self.wf(),
            self@.find_type(type_id) is Some,
        ensures
            self@.find_type(type_id) == Some(r.id),
            self@.get(r.id.0) == Some(*r),
    {
        match self.get_by_type_id(type_id) {
            Some(info) => info,
            None => vstd::pervasive::unreached(),
        }
    }
}

} // verus!
