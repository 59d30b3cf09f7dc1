//! A generational slot allocator.
//!
//! A [`SlotMap`] hands out [`Key`]s made of a dense index and a generation
//! count. A slot that is freed is reused under a larger generation, and a slot
//! whose generation can grow no further is retired, so a key that was removed
//! is never handed out again.

use vstd::prelude::*;

verus! {

/// Identifier of a slot: a dense index and the generation of its occupant.
/// The generation of a key is never zero.
#[derive(Clone, Copy, PartialEq, Eq, Structural, PartialOrd, Ord, Hash, Debug)]
pub struct Key {
    pub(crate) index: u32,
    pub(crate) generation: u32,
}

impl Key {
    /// No key has the generation zero.
    #[verifier::type_invariant]
    pub open(crate) spec fn valid(self) -> bool {
        self.generation != 0
    }

    /// The dense index of the slot.
    pub open(crate) spec fn spec_index(self) -> u32 {
        self.index
    }

    /// The generation of the slot's occupant.
    pub open(crate) spec fn spec_generation(self) -> u32 {
        self.generation
    }

    /// The key with the given index and generation.
    pub open(crate) spec fn make(index: u32, generation: u32) -> Key {
        Key { index, generation }
    }

    /// The key that never identifies a live slot.
    pub open spec fn spec_null() -> Key {
        Key::make(0xffff_ffff, 0xffff_ffff)
    }

    /// The key that never identifies a live slot.
    pub fn null() -> (k: Key)
        ensures
            k == Key::spec_null(),
    {
        Key { index: 0xffff_ffff, generation: 0xffff_ffff }
    }

    /// Forms a key from an index and a generation. `None` when the generation
    /// is zero, which no key carries.
    pub fn new(index: u32, generation: u32) -> (r: Option<Key>)
        ensures
            generation == 0 ==> r is None,
            generation != 0 ==> r == Some(Key::make(index, generation)),
    {
        if generation == 0 {
            None
        } else {
            Some(Key { index, generation })
        }
    }

    /// The dense index of the slot.
    #[verifier::when_used_as_spec(spec_index)]
    pub fn index(self) -> (i: u32)
        ensures
            i == self.spec_index(),
    {
        self.index
    }

    /// The generation of the slot's occupant, which is at least one.
    #[verifier::when_used_as_spec(spec_generation)]
    pub fn generation(self) -> (g: u32)
        ensures
            g == self.spec_generation(),
            g >= 1,
    {
        proof {
            use_type_invariant(self);
        }
        self.generation
    }
}

impl Default for Key {
    fn default() -> (k: Key)
        ensures
            k == Key::spec_null(),
    {
        Key::null()
    }
}

/// One slot: the generation of its current (or next) occupant and the value,
/// if it is occupied.
#[derive(Debug)]
pub struct Slot<T> {
    pub generation: u32,
    pub value: Option<T>,
}

/// The mathematical state of a [`SlotMap`]: its slots by index, and the stack
/// of vacant indices that may be reused.
pub struct SlotMapView<T> {
    pub slots: Seq<Slot<T>>,
    pub free: Seq<u32>,
}

impl<T> SlotMapView<T> {
    /// The state with no slots.
    pub open spec fn empty() -> Self {
        SlotMapView { slots: Seq::empty(), free: Seq::empty() }
    }

    /// Every slot has a generation of at least one and an index below the null
    /// index; the free stack names vacant slots, each once.
    pub open spec fn wf(self) -> bool {
        &&& self.slots.len() <= 0xffff_ffff
        &&& forall|i: int| 0 <= i < self.slots.len() ==> (#[trigger] self.slots[i]).generation >= 1
        &&& self.free.no_duplicates()
        &&& forall|j: int|
            0 <= j < self.free.len() ==> (#[trigger] self.free[j]) < self.slots.len()
                && self.slots[self.free[j] as int].value is None
    }

    /// The slot at `index` holds a value.
    pub open spec fn occupied(self, index: int) -> bool {
        0 <= index < self.slots.len() && self.slots[index].value is Some
    }

    /// `k` identifies a live value.
    pub open spec fn contains(self, k: Key) -> bool {
        self.occupied(k.index() as int) && self.slots[k.index() as int].generation == k.generation()
    }

    /// The value that `k` identifies, if it is live.
    pub open spec fn get(self, k: Key) -> Option<T> {
        if self.contains(k) {
            self.slots[k.index() as int].value
        } else {
            None
        }
    }

    /// The key of the value that lives at `index`, if any.
    pub open spec fn key_at(self, index: u32) -> Option<Key> {
        if self.occupied(index as int) {
            Some(Key::make(index, self.slots[index as int].generation))
        } else {
            None
        }
    }

    /// The value that lives at `index`, if any.
    pub open spec fn value_at(self, index: u32) -> Option<T> {
        if self.occupied(index as int) {
            self.slots[index as int].value
        } else {
            None
        }
    }

    /// A vacant slot that is not on the free stack is never used again.
    pub open spec fn retired(self, index: int) -> bool {
        0 <= index < self.slots.len() && self.slots[index].value is None && !self.free.contains(
            index as u32,
        )
    }

    /// The key that the next insertion returns: the top of the free stack under
    /// its slot's generation, else a fresh slot of generation one, else nothing
    /// when every index is taken.
    pub open spec fn next_key(self) -> Option<Key> {
        if self.free.len() > 0 {
            Some(
                Key::make(self.free.last(), self.slots[self.free.last() as int].generation),
            )
        } else if self.slots.len() < 0xffff_ffff {
            Some(Key::make(self.slots.len() as u32, 1))
        } else {
            None
        }
    }

    /// The state after inserting `value`; unchanged when no key is left.
    pub open spec fn insert(self, value: T) -> Self {
        if self.free.len() > 0 {
            let i = self.free.last() as int;
            SlotMapView {
                slots: self.slots.update(
                    i,
                    Slot { generation: self.slots[i].generation, value: Some(value) },
                ),
                free: self.free.drop_last(),
            }
        } else if self.slots.len() < 0xffff_ffff {
            SlotMapView {
                slots: self.slots.push(Slot { generation: 1, value: Some(value) }),
                free: self.free,
            }
        } else {
            self
        }
    }

    /// The state after removing `k`; unchanged when `k` is not live. The slot's
    /// generation grows by one and the slot becomes reusable, unless the
    /// generation is at its maximum: then the slot is retired.
    pub open spec fn remove(self, k: Key) -> Self {
        if !self.contains(k) {
            self
        } else if k.generation() < 0xffff_ffff {
            SlotMapView {
                slots: self.slots.update(
                    k.index() as int,
                    Slot { generation: (k.generation() + 1) as u32, value: None },
                ),
                free: self.free.push(k.index()),
            }
        } else {
            SlotMapView {
                slots: self.slots.update(
                    k.index() as int,
                    Slot { generation: k.generation(), value: None },
                ),
                free: self.free,
            }
        }
    }

    /// The state after replacing the value at the occupied slot `index`.
    pub open spec fn set_at(self, index: u32, value: T) -> Self {
        if self.occupied(index as int) {
            SlotMapView {
                slots: self.slots.update(
                    index as int,
                    Slot { generation: self.slots[index as int].generation, value: Some(value) },
                ),
                free: self.free,
            }
        } else {
            self
        }
    }

    /// `later` can be reached from `self`: no slot is lost, no generation
    /// shrinks, and a retired slot stays retired.
    pub open spec fn precedes(self, later: Self) -> bool {
        &&& self.slots.len() <= later.slots.len()
        &&& forall|i: int|
            0 <= i < self.slots.len() ==> (#[trigger] self.slots[i]).generation
                <= later.slots[i].generation
        &&& forall|i: int| #[trigger] self.retired(i) ==> later.retired(i)
    }

    /// The keys of all live values, by ascending index.
    pub open spec fn keys(self) -> Seq<Key>
        decreases self.slots.len(),
    {
        if self.slots.len() == 0 {
            Seq::empty()
        } else {
            let rest = SlotMapView { slots: self.slots.drop_last(), free: self.free }.keys();
            let i = self.slots.len() - 1;
            if self.slots[i].value is Some {
                rest.push(Key::make(i as u32, self.slots[i].generation))
            } else {
                rest
            }
        }
    }

    /// The number of live values.
    pub open spec fn len(self) -> nat {
        self.keys().len()
    }

    /// All live values, by ascending index.
    pub open spec fn values(self) -> Seq<T>
        decreases self.slots.len(),
    {
        if self.slots.len() == 0 {
            Seq::empty()
        } else {
            let rest = SlotMapView { slots: self.slots.drop_last(), free: self.free }.values();
            match self.slots.last().value {
                Some(v) => rest.push(v),
                None => rest,
            }
        }
    }
}

/// Inserting keeps the state well formed, makes the returned key live with the
/// inserted value, and leaves every other key as it was.
pub proof fn lemma_insert<T>(m: SlotMapView<T>, value: T)
    requires
        m.wf(),
    ensures
        m.insert(value).wf(),
        m.precedes(m.insert(value)),
        m.next_key() is None ==> m.insert(value) == m,
        m.next_key() matches Some(k) ==> {
            &&& k.valid()
            &&& k.index() != 0xffff_ffff
            &&& !m.occupied(k.index() as int)
            &&& m.insert(value).get(k) == Some(value)
            &&& forall|i: int|
                i != k.index() ==> (m.insert(value).occupied(i) <==> #[trigger] m.occupied(i))
            &&& forall|o: Key|
                o.index() != k.index() ==> #[trigger] m.insert(value).get(o) == m.get(o)
            &&& forall|o: Key| #[trigger] m.contains(o) ==> m.insert(value).contains(o)
        },
{
    let n = m.insert(value);
    if m.free.len() > 0 {
        let i = m.free.last();
        assert(m.free[m.free.len() - 1] == i);
        assert forall|j: int| 0 <= j < n.free.len() implies (#[trigger] n.free[j]) < n.slots.len()
            && n.slots[n.free[j] as int].value is None by {
            assert(m.free[j] == n.free[j]);
            assert(m.free[j] != m.free[m.free.len() - 1]);
        }
        assert forall|x: int| #[trigger] m.retired(x) implies n.retired(x) by {
            if n.free.contains(x as u32) {
                let j = choose|j: int| 0 <= j < n.free.len() && n.free[j] == x as u32;
                assert(m.free[j] == x as u32);
            }
        }
    } else if m.slots.len() < 0xffff_ffff {
        assert forall|x: int| #[trigger] m.retired(x) implies n.retired(x) by {}
    }
}

/// Removing a live key keeps the state well formed, makes the key dead, and
/// leaves every other slot as it was.
pub proof fn lemma_remove<T>(m: SlotMapView<T>, k: Key)
    requires
        m.wf(),
    ensures
        m.remove(k).wf(),
        m.precedes(m.remove(k)),
        !m.remove(k).occupied(k.index() as int) || !m.contains(k),
        !m.remove(k).contains(k),
        forall|i: int| i != k.index() ==> (m.remove(k).occupied(i) <==> #[trigger] m.occupied(i)),
        forall|o: Key| o.index() != k.index() ==> #[trigger] m.remove(k).get(o) == m.get(o),
        forall|o: Key| #[trigger] m.remove(k).contains(o) ==> m.contains(o),
{
    let n = m.remove(k);
    if m.contains(k) {
        if k.generation() < 0xffff_ffff {
            assert forall|i: int, j: int|
                0 <= i < n.free.len() && 0 <= j < n.free.len() && i != j implies n.free[i]
                != n.free[j] by {
                if i < m.free.len() {
                    assert(m.free[i] == n.free[i]);
                }
                if j < m.free.len() {
                    assert(m.free[j] == n.free[j]);
                }
            }
            assert forall|j: int| 0 <= j < n.free.len() implies (#[trigger] n.free[j])
                < n.slots.len() && n.slots[n.free[j] as int].value is None by {
                if j < m.free.len() {
                    assert(m.free[j] == n.free[j]);
                }
            }
            assert forall|x: int| #[trigger] m.retired(x) implies n.retired(x) by {
                if n.free.contains(x as u32) {
                    let j = choose|j: int| 0 <= j < n.free.len() && n.free[j] == x as u32;
                    if j < m.free.len() {
                        assert(m.free[j] == x as u32);
                    }
                }
            }
        } else {
            assert forall|x: int| #[trigger] m.retired(x) implies n.retired(x) by {}
        }
    }
}

/// Replacing a live value keeps the state well formed and changes nothing but
/// that value.
pub proof fn lemma_set_at<T>(m: SlotMapView<T>, index: u32, value: T)
    requires
        m.wf(),
    ensures
        m.set_at(index, value).wf(),
        m.precedes(m.set_at(index, value)),
        forall|i: int| m.set_at(index, value).occupied(i) <==> #[trigger] m.occupied(i),
        forall|o: Key| #[trigger] m.set_at(index, value).contains(o) <==> m.contains(o),
        forall|o: Key| o.index() != index ==> #[trigger] m.set_at(index, value).get(o) == m.get(o),
        m.occupied(index as int) ==> m.set_at(index, value).value_at(index) == Some(value),
{
    let n = m.set_at(index, value);
    if m.occupied(index as int) {
        assert forall|j: int| 0 <= j < n.free.len() implies (#[trigger] n.free[j]) < n.slots.len()
            && n.slots[n.free[j] as int].value is None by {
            assert(m.free[j] == n.free[j]);
        }
        assert forall|x: int| #[trigger] m.retired(x) implies n.retired(x) by {}
    }
}

/// The listed keys are exactly the live keys, and their indices ascend.
pub proof fn lemma_keys<T>(m: SlotMapView<T>)
    requires
        m.slots.len() <= 0xffff_ffff,
    ensures
        forall|k: Key| #[trigger] m.keys().contains(k) <==> m.contains(k),
        forall|i: int, j: int|
            0 <= i < j < m.keys().len() ==> (#[trigger] m.keys()[i]).index() < (
            #[trigger] m.keys()[j]).index(),
        forall|i: int| 0 <= i < m.keys().len() ==> (#[trigger] m.keys()[i]).index() < m.slots.len(),
    decreases m.slots.len(),
{
    if m.slots.len() > 0 {
        let rest = SlotMapView { slots: m.slots.drop_last(), free: m.free };
        lemma_keys(rest);
        let n = m.slots.len() - 1;
        let top = Key::make(n as u32, m.slots[n].generation);
        assert forall|k: Key| #[trigger] m.keys().contains(k) <==> m.contains(k) by {
            assert(rest.keys().contains(k) <==> rest.contains(k));
            if m.keys().contains(k) {
                let i = choose|i: int| 0 <= i < m.keys().len() && m.keys()[i] == k;
                if i < rest.keys().len() {
                    assert(rest.keys()[i] == k);
                    assert(rest.keys().contains(k));
                }
            }
            if m.contains(k) {
                if k.index() < n {
                    assert(rest.contains(k));
                    let i = choose|i: int| 0 <= i < rest.keys().len() && rest.keys()[i] == k;
                    assert(m.keys()[i] == k);
                } else {
                    assert(k == top);
                    assert(m.keys()[rest.keys().len() as int] == k);
                }
            }
        }
        assert forall|i: int, j: int| 0 <= i < j < m.keys().len() implies (#[trigger] m.keys()[i]).index()
            < (#[trigger] m.keys()[j]).index() by {
            if j < rest.keys().len() {
                assert(m.keys()[i] == rest.keys()[i] && m.keys()[j] == rest.keys()[j]);
            } else {
                assert(m.keys()[i] == rest.keys()[i]);
            }
        }
        assert forall|i: int| 0 <= i < m.keys().len() implies (#[trigger] m.keys()[i]).index()
            < m.slots.len() by {
            if i < rest.keys().len() {
                assert(m.keys()[i] == rest.keys()[i]);
            }
        }
    }
}

/// A state with the same slots, generations and free stack, whatever its
/// values, can be reached.
pub proof fn lemma_same_shape_precedes<T>(a: SlotMapView<T>, b: SlotMapView<T>)
    requires
        a.slots.len() == b.slots.len(),
        a.free == b.free,
        forall|i: int|
            0 <= i < a.slots.len() ==> (#[trigger] a.slots[i]).generation == b.slots[i].generation
                && a.slots[i].value is Some == b.slots[i].value is Some,
    ensures
        a.precedes(b),
{
    assert forall|i: int| 0 <= i < a.slots.len() implies (#[trigger] a.slots[i]).generation
        <= b.slots[i].generation by {}
    assert forall|i: int| #[trigger] a.retired(i) implies b.retired(i) by {
        assert(a.slots[i].value is Some == b.slots[i].value is Some);
    }
}

/// Reachability is transitive.
pub proof fn lemma_precedes_transitive<T>(a: SlotMapView<T>, b: SlotMapView<T>, c: SlotMapView<T>)
    requires
        a.precedes(b),
        b.precedes(c),
    ensures
        a.precedes(c),
{
    assert forall|i: int| 0 <= i < a.slots.len() implies (#[trigger] a.slots[i]).generation
        <= c.slots[i].generation by {
        assert(a.slots[i].generation <= b.slots[i].generation);
        assert(b.slots[i].generation <= c.slots[i].generation);
    }
    assert forall|i: int| #[trigger] a.retired(i) implies c.retired(i) by {
        assert(b.retired(i));
    }
}

/// Generation safety: once a live key has been removed, no insertion into any
/// state reached afterwards returns that key again.
pub proof fn lemma_generation_safety<T>(
    before: SlotMapView<T>,
    removed: Key,
    later: SlotMapView<T>,
)
    requires
        before.wf(),
        before.contains(removed),
        later.wf(),
        before.remove(removed).precedes(later),
    ensures
        later.next_key() != Some(removed),
        !later.contains(removed) || removed.generation() < later.slots[removed.index() as int].generation,
{
    let mid = before.remove(removed);
    let i = removed.index() as int;
    if removed.generation() < 0xffff_ffff {
        assert(mid.slots[i].generation == removed.generation() + 1);
        assert(mid.slots[i].generation <= later.slots[i].generation);
    } else {
        assert(mid.retired(i)) by {
            if mid.free.contains(i as u32) {
                let j = choose|j: int| 0 <= j < mid.free.len() && mid.free[j] == i as u32;
                assert(before.free[j] == i as u32);
            }
        }
        assert(later.retired(i));
        if later.free.len() > 0 {
            assert(later.free[later.free.len() - 1] == later.free.last());
        }
    }
}

/// A store of values under generational keys.
#[derive(Debug)]
pub struct SlotMap<T> {
    slots: Vec<Slot<T>>,
    free: Vec<u32>,
}

impl<T> View for SlotMap<T> {
    type V = SlotMapView<T>;

    closed spec fn view(&self) -> SlotMapView<T> {
        SlotMapView { slots: self.slots@, free: self.free@ }
    }
}

impl<T> SlotMap<T> {
    /// The store is valid when its state is well formed.
    pub open spec fn wf(&self) -> bool {
        self@.wf()
    }

    /// An empty store.
    pub fn new() -> (m: Self)
        ensures
            m@ == SlotMapView::<T>::empty(),
            m.wf(),
    {
        SlotMap { slots: Vec::new(), free: Vec::new() }
    }

    /// The key that the next insertion will return, if any is left.
    pub fn next_key(&self) -> (r: Option<Key>)
        requires
            self.wf(),
        ensures
            r == self@.next_key(),
    {
        let n = self.free.len();
        if n > 0 {
            let i = self.free[n - 1];
            Some(Key { index: i, generation: self.slots[i as usize].generation })
        } else if self.slots.len() < 0xffff_ffff {
            Some(Key { index: self.slots.len() as u32, generation: 1 })
        } else {
            None
        }
    }

    /// Stores `value` and returns its key; `None`, with the store unchanged,
    /// when no key is left.
    pub fn insert(&mut self, value: T) -> (r: Option<Key>)
        requires
            old(self).wf(),
        ensures
            final(self).wf(),
            r == old(self)@.next_key(),
            final(self)@ == old(self)@.insert(value),
    {
        proof {
            lemma_insert(self@, value);
        }
        let n = self.free.len();
        if n > 0 {
            let i = self.free[n - 1];
            self.free.pop();
            let generation = self.slots[i as usize].generation;
            self.slots[i as usize].value = Some(value);
            assert(self@.slots =~= old(self)@.insert(value).slots);
            assert(self@.free =~= old(self)@.insert(value).free);
            Some(Key { index: i, generation })
        } else if self.slots.len() < 0xffff_ffff {
            let i = self.slots.len() as u32;
            self.slots.push(Slot { generation: 1, value: Some(value) });
            Some(Key { index: i, generation: 1 })
        } else {
            None
        }
    }

    /// Removes the value that `k` identifies and returns it; `None`, with the
    /// store unchanged, when `k` is not live.
    pub fn remove(&mut self, k: Key) -> (r: Option<T>)
        requires
            old(self).wf(),
        ensures
            final(self).wf(),
            r == old(self)@.get(k),
            final(self)@ == old(self)@.remove(k),
    {
        proof {
            lemma_remove(self@, k);
        }
        let i = k.index as usize;
        if i >= self.slots.len() || self.slots[i].generation != k.generation
            || self.slots[i].value.is_none() {
            return None;
        }
        let r = self.slots[i].value.take();
        if k.generation < 0xffff_ffff {
            self.slots[i].generation = k.generation + 1;
            self.free.push(k.index);
        }
        assert(self@.slots =~= old(self)@.remove(k).slots);
        assert(self@.free =~= old(self)@.remove(k).free);
        r
    }

    /// Whether `k` identifies a live value.
    pub fn contains(&self, k: Key) -> (r: bool)
        ensures
            r == self@.contains(k),
    {
        let i = k.index as usize;
        i < self.slots.len() && self.slots[i].generation == k.generation
            && self.slots[i].value.is_some()
    }

    /// The value that `k` identifies; `None` when `k` is stale or unknown.
    pub fn get(&self, k: Key) -> (r: Option<&T>)
        ensures
            r is Some <==> self@.contains(k),
            r matches Some(v) ==> self@.get(k) == Some(*v),
    {
        let i = k.index as usize;
        if i < self.slots.len() && self.slots[i].generation == k.generation {
            self.slots[i].value.as_ref()
        } else {
            None
        }
    }

    /// The key and the value that live at `index`; `None` when the slot is
    /// vacant or does not exist.
    pub fn get_by_index(&self, index: u32) -> (r: Option<(Key, &T)>)
        requires
            self.wf(),
        ensures
            r is Some <==> self@.occupied(index as int),
            r matches Some(p) ==> self@.key_at(index) == Some(p.0) && self@.value_at(index)
                == Some(*p.1),
    {
        let i = index as usize;
        if i < self.slots.len() {
            match &self.slots[i].value {
                Some(v) => Some((Key { index, generation: self.slots[i].generation }, v)),
                None => None,
            }
        } else {
            None
        }
    }

    /// Mutable access to the value that lives at `index`; `None` when the slot
    /// is vacant or does not exist. Whatever is written through the reference
    /// replaces the value; nothing else changes.
    pub fn get_by_index_mut(&mut self, index: u32) -> (r: Option<&mut T>)
        ensures
            r is Some <==> old(self)@.occupied(index as int),
            r matches Some(p) ==> old(self)@.value_at(index) == Some(*p) && final(self)@ == old(
                self,
            )@.set_at(index, *final(p)),
            r is None ==> final(self)@ == old(self)@,
    {
        let i = index as usize;
        if i < self.slots.len() && self.slots[i].value.is_some() {
            self.slots[i].value.as_mut()
        } else {
            None
        }
    }

    /// All live values, by ascending index.
    pub fn values(&self) -> (r: Vec<&T>)
        ensures
            r@.len() == self@.values().len(),
            forall|j: int| 0 <= j < r@.len() ==> *(#[trigger] r@[j]) == self@.values()[j],
    {
        let mut out: Vec<&T> = Vec::new();
        let mut i: usize = 0;
        while i < self.slots.len()
            invariant
                i <= self.slots.len(),
                out@.len() == (SlotMapView {
                    slots: self.slots@.take(i as int),
                    free: self.free@,
                }).values().len(),
                forall|j: int|
                    0 <= j < out@.len() ==> *(#[trigger] out@[j]) == (SlotMapView {
                        slots: self.slots@.take(i as int),
                        free: self.free@,
                    }).values()[j],
            decreases self.slots.len() - i,
        {
            proof {
                assert(self.slots@.take(i + 1).drop_last() =~= self.slots@.take(i as int));
            }
            match &self.slots[i].value {
                Some(v) => {
                    out.push(v);
                },
                None => {},
            }
            i = i + 1;
        }
        proof {
            assert(self.slots@.take(i as int) =~= self.slots@);
        }
        out
    }

    /// The keys of all live values, by ascending index.
    pub fn keys(&self) -> (r: Vec<Key>)
        requires
            self.wf(),
        ensures
            r@ == self@.keys(),
    {
        let mut out: Vec<Key> = Vec::new();
        let mut i: usize = 0;
        while i < self.slots.len()
            invariant
                self.wf(),
                i <= self.slots.len(),
                out@ == (SlotMapView { slots: self.slots@.take(i as int), free: self.free@ }).keys(),
            decreases self.slots.len() - i,
        {
            proof {
                assert(self.slots@.take(i + 1).drop_last() =~= self.slots@.take(i as int));
            }
            if self.slots[i].value.is_some() {
                out.push(Key { index: i as u32, generation: self.slots[i].generation });
            }
            i = i + 1;
        }
        proof {
            assert(self.slots@.take(i as int) =~= self.slots@);
        }
        out
    }
}

} // verus!
