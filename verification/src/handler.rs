//! Handlers: what is run when an event is sent.

use crate::access::ComponentAccess;
use crate::component::ComponentIdx;
use crate::event::EventId;
use crate::query::Query;
use crate::slot_map::{Key, SlotMap, SlotMapView};
use vstd::prelude::*;

verus! {

/// Identifier of a handler.
#[derive(Clone, Copy, PartialEq, Eq, Structural, PartialOrd, Ord, Hash, Debug)]
pub struct HandlerId(pub Key);

/// What a handler declares when it is registered: the event it listens to and
/// the record of components that it is given.
#[derive(Debug)]
pub struct HandlerConfig {
    pub event: EventId,
    pub query: Query,
}

/// What is known of a registered handler.
#[derive(Debug)]
pub struct HandlerInfo {
    pub id: HandlerId,
    pub event: EventId,
    pub access: ComponentAccess,
}

impl HandlerInfo {
    /// The identifier of the handler.
    pub fn id(&self) -> (r: HandlerId)
        ensures
            r == self.id,
    {
        self.id
    }

    /// The event that the handler listens to.
    pub fn received_event(&self) -> (r: EventId)
        ensures
            r == self.event,
    {
        self.event
    }

    /// The access descriptor of the handler.
    pub fn component_access(&self) -> (r: &ComponentAccess)
        ensures
            *r == self.access,
    {
        &self.access
    }

    /// Whether the handler accesses the component `c`.
    pub fn references_component(&self, c: ComponentIdx) -> (r: bool)
        ensures
            r == self.access.references(c),
    {
        self.access.references_component(c)
    }
}

/// The registered handlers.
#[derive(Debug)]
pub struct Handlers {
    infos: SlotMap<HandlerInfo>,
}

impl View for Handlers {
    type V = SlotMapView<HandlerInfo>;

    closed spec fn view(&self) -> SlotMapView<HandlerInfo> {
        self.infos@
    }
}

impl Handlers {
    /// The table is valid when its state is well formed.
    pub open spec fn wf(&self) -> bool {
        self@.wf()
    }

    /// No handlers.
    pub fn new() -> (h: Handlers)
        ensures
            h@ == SlotMapView::<HandlerInfo>::empty(),
            h.wf(),
    {
        Handlers { infos: SlotMap::new() }
    }

    /// Whether `id` identifies a registered handler.
    pub fn contains(&self, id: HandlerId) -> (r: bool)
        ensures
            r == self@.contains(id.0),
    {
        self.infos.contains(id.0)
    }

    /// What is known of the handler `id`; `None` when it is not registered.
    pub fn get(&self, id: HandlerId) -> (r: Option<&HandlerInfo>)
        ensures
            r is Some <==> self@.contains(id.0),
            r matches Some(info) ==> self@.get(id.0) == Some(*info),
    {
        self.infos.get(id.0)
    }

    /// The identifiers of all registered handlers, by ascending index.
    pub fn ids(&self) -> (r: Vec<Key>)
        requires
            self.wf(),
        ensures
            r@ == self@.keys(),
    {
        self.infos.keys()
    }

    /// The identifier that the next registered handler gets, if any is left.
    pub fn next_id(&self) -> (r: Option<HandlerId>)
        requires
            self.wf(),
        ensures
            r is Some <==> self@.next_key() is Some,
            r matches Some(id) ==> self@.next_key() == Some(id.0),
    {
        match self.infos.next_key() {
            Some(k) => Some(HandlerId(k)),
            None => None,
        }
    }

    /// Registers a handler; `None`, with the table unchanged, when no
    /// identifier is left.
    pub fn add(&mut self, info: HandlerInfo) -> (r: Option<HandlerId>)
        requires
            old(self).wf(),
        ensures
            final(self).wf(),
            r is Some <==> old(self)@.next_key() is Some,
            r matches Some(id) ==> old(self)@.next_key() == Some(id.0),
            final(self)@ == old(self)@.insert(info),
    {
        match self.infos.insert(info) {
            Some(k) => Some(HandlerId(k)),
            None => None,
        }
    }

    /// Removes the handler `id` and returns what was known of it; `None`, with
    /// the table unchanged, when it is not registered.
    pub fn remove(&mut self, id: HandlerId) -> (r: Option<HandlerInfo>)
        requires
            old(self).wf(),
        ensures
            final(self).wf(),
            r == old(self)@.get(id.0),
            final(self)@ == old(self)@.remove(id.0),
    {
        self.infos.remove(id.0)
    }
}

} // verus!
