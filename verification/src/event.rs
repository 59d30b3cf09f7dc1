//! Events: what handlers are run for.

use crate::component::ComponentId;
use crate::slot_map::{Key, SlotMap, SlotMapView};
use vstd::prelude::*;

verus! {

/// Identifier of an event.
#[derive(Clone, Copy, PartialEq, Eq, Structural, PartialOrd, Ord, Hash, Debug)]
pub struct EventId(pub Key);

/// The order of event identifiers: by index, then by generation.
pub open spec fn before(a: EventId, b: EventId) -> bool {
    a.0.index() < b.0.index() || (a.0.index() == b.0.index() && a.0.generation() < b.0.generation())
}

/// Every identifier stands before the next.
pub open spec fn ascending(s: Seq<EventId>) -> bool {
    forall|i: int, j: int| 0 <= i < j < s.len() ==> before(s[i], s[j])
}

/// The place of `x` among the identifiers of `s`: behind the last one that
/// stands before it.
pub open spec fn place_of(s: Seq<EventId>, x: EventId) -> int
    decreases s.len(),
{
    if s.len() == 0 {
        0
    } else if before(s.last(), x) {
        s.len() as int
    } else {
        place_of(s.drop_last(), x)
    }
}

/// The place of `x` in an ascending sequence has every earlier identifier in
/// front of it and none behind it.
pub proof fn lemma_place_splits(s: Seq<EventId>, x: EventId)
    requires
        ascending(s),
    ensures
        0 <= place_of(s, x) <= s.len(),
        forall|j: int| 0 <= j < place_of(s, x) ==> before(#[trigger] s[j], x),
        forall|j: int| place_of(s, x) <= j < s.len() ==> !before(#[trigger] s[j], x),
    decreases s.len(),
{
    if s.len() > 0 {
        let n = s.len() - 1;
        if before(s.last(), x) {
            assert forall|j: int| 0 <= j < s.len() implies before(#[trigger] s[j], x) by {
                if j < n {
                    assert(before(s[j], s[n]));
                }
            }
        } else {
            let t = s.drop_last();
            assert forall|i: int, j: int| 0 <= i < j < t.len() implies before(t[i], t[j]) by {
                assert(t[i] == s[i] && t[j] == s[j]);
            }
            lemma_place_splits(t, x);
            let p = place_of(t, x);
            assert forall|j: int| 0 <= j < p implies before(#[trigger] s[j], x) by {
                assert(t[j] == s[j]);
            }
            assert forall|j: int| p <= j < s.len() implies !before(#[trigger] s[j], x) by {
                if j < n {
                    assert(t[j] == s[j]);
                }
            }
        }
    }
}

/// In an ascending sequence the place of `x` is the one position with only
/// earlier identifiers in front of it and none behind it.
pub proof fn lemma_place_of(s: Seq<EventId>, x: EventId, p: int)
    requires
        ascending(s),
        0 <= p <= s.len(),
        forall|j: int| 0 <= j < p ==> before(#[trigger] s[j], x),
        forall|j: int| p <= j < s.len() ==> !before(#[trigger] s[j], x),
    ensures
        place_of(s, x) == p,
{
    lemma_place_splits(s, x);
    let q = place_of(s, x);
    if p < q {
        assert(before(s[p], x));
    }
    if q < p {
        assert(before(s[q], x));
    }
}

/// An ascending sequence holds no identifier twice.
pub proof fn lemma_ascending_distinct(s: Seq<EventId>)
    requires
        ascending(s),
    ensures
        s.no_duplicates(),
{
    assert forall|i: int, j: int| 0 <= i < s.len() && 0 <= j < s.len() && i != j implies s[i]
        != s[j] by {
        if i < j {
            assert(before(s[i], s[j]));
        } else {
            assert(before(s[j], s[i]));
        }
    }
}

/// Putting an absent identifier at its place in an ascending sequence gives
/// an ascending sequence with that one member more.
pub proof fn lemma_insert_at_place(s: Seq<EventId>, x: EventId)
    requires
        ascending(s),
        !s.contains(x),
    ensures
        0 <= place_of(s, x) <= s.len(),
        ascending(s.insert(place_of(s, x), x)),
        forall|y: EventId|
            #[trigger] s.insert(place_of(s, x), x).contains(y) <==> (y == x || s.contains(y)),
{
    lemma_place_splits(s, x);
    let p = place_of(s, x);
    let t = s.insert(p, x);
    assert forall|j: int| p <= j < s.len() implies before(x, #[trigger] s[j]) by {
        assert(s.contains(s[j]));
        assert(s[j] != x);
        assert(!before(s[j], x));
    }
    assert forall|i: int, j: int| 0 <= i < j < t.len() implies before(t[i], t[j]) by {
        let si = if i < p { i } else { i - 1 };
        let sj = if j < p { j } else { j - 1 };
        if i != p && j != p {
            assert(t[i] == s[si] && t[j] == s[sj]);
            assert(before(s[si], s[sj]));
        } else if i == p {
            assert(t[j] == s[sj]);
        } else {
            assert(t[i] == s[si]);
        }
    }
    assert forall|y: EventId| #[trigger] t.contains(y) <==> (y == x || s.contains(y)) by {
        if t.contains(y) {
            let i = choose|i: int| 0 <= i < t.len() && t[i] == y;
            if i != p {
                let si = if i < p { i } else { i - 1 };
                assert(s[si] == y);
            }
        }
        if s.contains(y) {
            let i = choose|i: int| 0 <= i < s.len() && s[i] == y;
            let ti = if i < p { i } else { i + 1 };
            assert(t[ti] == y);
        }
        if y == x {
            assert(t[p] == y);
        }
    }
}

/// Taking a member out of an ascending sequence gives an ascending sequence
/// with that one member less.
pub proof fn lemma_remove_at(s: Seq<EventId>, p: int)
    requires
        ascending(s),
        0 <= p < s.len(),
    ensures
        ascending(s.remove(p)),
        forall|y: EventId| #[trigger] s.remove(p).contains(y) <==> (y != s[p] && s.contains(y)),
{
    let t = s.remove(p);
    lemma_ascending_distinct(s);
    assert forall|i: int, j: int| 0 <= i < j < t.len() implies before(t[i], t[j]) by {
        let si = if i < p { i } else { i + 1 };
        let sj = if j < p { j } else { j + 1 };
        assert(t[i] == s[si] && t[j] == s[sj]);
        assert(before(s[si], s[sj]));
    }
    assert forall|y: EventId| #[trigger] t.contains(y) <==> (y != s[p] && s.contains(y)) by {
        if t.contains(y) {
            let i = choose|i: int| 0 <= i < t.len() && t[i] == y;
            let si = if i < p { i } else { i + 1 };
            assert(s[si] == y);
        }
        if y != s[p] && s.contains(y) {
            let i = choose|i: int| 0 <= i < s.len() && s[i] == y;
            let ti = if i < p { i } else { i - 1 };
            assert(t[ti] == y);
        }
    }
}

/// A set of event identifiers, kept in ascending order.
#[derive(Debug)]
pub struct EventSet {
    items: Vec<EventId>,
}

impl View for EventSet {
    type V = Seq<EventId>;

    closed spec fn view(&self) -> Seq<EventId> {
        self.items@
    }
}

impl EventSet {
    /// The identifiers ascend, so none occurs twice.
    pub open spec fn wf(&self) -> bool {
        ascending(self@)
    }

    /// The empty set.
    pub fn new() -> (s: EventSet)
        ensures
            s@ == Seq::<EventId>::empty(),
            s.wf(),
    {
        EventSet { items: Vec::new() }
    }

    /// The number of identifiers.
    pub fn len(&self) -> (n: usize)
        ensures
            n == self@.len(),
    {
        self.items.len()
    }

    /// Whether the set has no identifier.
    pub fn is_empty(&self) -> (r: bool)
        ensures
            r == (self@.len() == 0),
    {
        self.items.len() == 0
    }

    /// The identifier at position `i` of the ascending order, if there is one.
    pub fn get_index(&self, i: usize) -> (r: Option<EventId>)
        ensures
            r == (if i < self@.len() {
                Some(self@[i as int])
            } else {
                None
            }),
    {
        if i < self.items.len() {
            Some(self.items[i])
        } else {
            None
        }
    }

    /// The number of identifiers that stand before `x`.
    fn rank(&self, x: EventId) -> (p: usize)
        requires
            self.wf(),
        ensures
            p <= self@.len(),
            p == place_of(self@, x),
            forall|j: int| 0 <= j < p ==> before(#[trigger] self@[j], x),
            forall|j: int| p <= j < self@.len() ==> !before(#[trigger] self@[j], x),
    {
        let mut p: usize = 0;
        while p < self.items.len() && is_before(self.items[p], x)
            invariant
                p <= self.items@.len(),
                forall|j: int| 0 <= j < p ==> before(#[trigger] self.items@[j], x),
            decreases self.items@.len() - p,
        {
            p = p + 1;
        }
        proof {
            assert forall|j: int| p <= j < self@.len() implies !before(#[trigger] self@[j], x) by {
                if j > p {
                    assert(before(self@[p as int], self@[j]));
                }
            }
            lemma_place_of(self@, x, p as int);
        }
        p
    }

    /// Whether `x` is a member.
    pub fn contains(&self, x: EventId) -> (r: bool)
        requires
            self.wf(),
        ensures
            r == self@.contains(x),
    {
        let p = self.rank(x);
        if p < self.items.len() {
            let y = self.items[p];
            proof {
                if self@.contains(x) {
                    let j = choose|j: int| 0 <= j < self@.len() && self@[j] == x;
                    if j > p {
                        assert(before(self@[p as int], self@[j]));
                    }
                }
            }
            y.0.index() == x.0.index() && y.0.generation() == x.0.generation()
        } else {
            proof {
                if self@.contains(x) {
                    let j = choose|j: int| 0 <= j < self@.len() && self@[j] == x;
                    assert(before(self@[j], x));
                }
            }
            false
        }
    }

    /// Puts `x` at its place in the order unless it is a member already.
    /// Returns whether it was put in.
    pub fn insert(&mut self, x: EventId) -> (r: bool)
        requires
            old(self).wf(),
        ensures
            final(self).wf(),
            r == !old(self)@.contains(x),
            final(self)@ == (if r {
                old(self)@.insert(place_of(old(self)@, x), x)
            } else {
                old(self)@
            }),
            forall|y: EventId| #[trigger] final(self)@.contains(y) <==> (y == x || old(self)@.contains(y)),
    {
        if self.contains(x) {
            false
        } else {
            let p = self.rank(x);
            proof {
                lemma_insert_at_place(self@, x);
            }
            self.items.insert(p, x);
            true
        }
    }

    /// Takes `x` out and keeps the order of the others. Returns whether it was
    /// a member.
    pub fn remove(&mut self, x: EventId) -> (r: bool)
        requires
            old(self).wf(),
        ensures
            final(self).wf(),
            r == old(self)@.contains(x),
            final(self)@ == (if r {
                old(self)@.remove(old(self)@.index_of(x))
            } else {
                old(self)@
            }),
            forall|y: EventId| #[trigger] final(self)@.contains(y) <==> (y != x && old(self)@.contains(y)),
    {
        if self.contains(x) {
            let p = self.rank(x);
            proof {
                lemma_ascending_distinct(self@);
                let j = self@.index_of(x);
                assert(0 <= j < self@.len() && self@[j] == x);
                if j < p {
                    assert(before(self@[j], x));
                }
                if j > p {
                    assert(before(self@[p as int], self@[j]));
                }
                assert(j == p);
                lemma_remove_at(self@, p as int);
            }
            self.items.remove(p);
            true
        } else {
            false
        }
    }

    /// The identifiers in ascending order.
    pub fn to_vec(&self) -> (v: Vec<EventId>)
        ensures
            v@ == self@,
    {
        let mut v: Vec<EventId> = Vec::new();
        let mut i: usize = 0;
        while i < self.items.len()
            invariant
                i <= self.items.len(),
                v@ == self.items@.take(i as int),
            decreases self.items.len() - i,
        {
            v.push(self.items[i]);
            assert(self.items@.take(i + 1) =~= self.items@.take(i as int).push(self.items@[i as int]));
            i = i + 1;
        }
        assert(self.items@.take(i as int) =~= self.items@);
        v
    }
}

/// Whether `a` stands before `b` in the order of event identifiers.
pub fn is_before(a: EventId, b: EventId) -> (r: bool)
    ensures
        r == before(a, b),
{
    a.0.index() < b.0.index() || (a.0.index() == b.0.index() && a.0.generation() < b.0.generation())
}

/// What an event is about.
#[derive(Clone, Copy, PartialEq, Eq, Structural, Hash, Debug)]
pub enum EventKind {
    /// An event of the application.
    Normal,
    /// The event that is sent when the given component is inserted.
    Insert(ComponentId),
    /// The event that is sent when the given component is removed.
    Remove(ComponentId),
}

impl EventKind {
    /// The component that the event is tied to, if any.
    pub open spec fn spec_component(self) -> Option<ComponentId> {
        match self {
            EventKind::Normal => None,
            EventKind::Insert(c) => Some(c),
            EventKind::Remove(c) => Some(c),
        }
    }

    /// The component that the event is tied to, if any.
    pub fn component(self) -> (r: Option<ComponentId>)
        ensures
            r == self.spec_component(),
    {
        match self {
            EventKind::Normal => None,
            EventKind::Insert(c) => Some(c),
            EventKind::Remove(c) => Some(c),
        }
    }
}

/// The registered events.
#[derive(Debug)]
pub struct Events {
    kinds: SlotMap<EventKind>,
}

impl View for Events {
    type V = SlotMapView<EventKind>;

    closed spec fn view(&self) -> SlotMapView<EventKind> {
        self.kinds@
    }
}

impl Events {
    /// The table is valid when its state is well formed.
    pub open spec fn wf(&self) -> bool {
        self@.wf()
    }

    /// No events.
    pub fn new() -> (e: Events)
        ensures
            e@ == SlotMapView::<EventKind>::empty(),
            e.wf(),
    {
        Events { kinds: SlotMap::new() }
    }

    /// Whether `id` identifies a registered event.
    pub fn contains(&self, id: EventId) -> (r: bool)
        ensures
            r == self@.contains(id.0),
    {
        self.kinds.contains(id.0)
    }

    /// What the event `id` is about; `None` when it is not registered.
    pub fn get(&self, id: EventId) -> (r: Option<EventKind>)
        ensures
            r == self@.get(id.0),
    {
        match self.kinds.get(id.0) {
            Some(k) => Some(*k),
            None => None,
        }
    }

    /// The identifiers of all registered events, by ascending index.
    pub fn ids(&self) -> (r: Vec<Key>)
        requires
            self.wf(),
        ensures
            r@ == self@.keys(),
    {
        self.kinds.keys()
    }

    /// Whether one more event can be registered.
    pub fn has_room(&self) -> (r: bool)
        requires
            self.wf(),
        ensures
            r == self@.next_key() is Some,
    {
        self.kinds.next_key().is_some()
    }

    /// Registers an event; `None`, with the table unchanged, when no
    /// identifier is left.
    pub fn add(&mut self, kind: EventKind) -> (r: Option<EventId>)
        requires
            old(self).wf(),
        ensures
            final(self).wf(),
            r is Some <==> old(self)@.next_key() is Some,
            r matches Some(id) ==> old(self)@.next_key() == Some(id.0),
            final(self)@ == old(self)@.insert(kind),
    {
        match self.kinds.insert(kind) {
            Some(k) => Some(EventId(k)),
            None => None,
        }
    }

    /// Removes the event `id` and returns what it was about; `None`, with the
    /// table unchanged, when it is not registered.
    pub fn remove(&mut self, id: EventId) -> (r: Option<EventKind>)
        requires
            old(self).wf(),
        ensures
            final(self).wf(),
            r == old(self)@.get(id.0),
            final(self)@ == old(self)@.remove(id.0),
    {
        self.kinds.remove(id.0)
    }
}

} // verus!
