//! Archetypes: the groups of entities that share one set of components.
//!
//! An archetype has a composition, the ascending list of the components that
//! each of its entities carries, and one row of values for each entity.

use crate::component::ComponentIdx;
use crate::entity::EntityId;
use crate::map::SetKey;
use vstd::prelude::*;

verus! {

/// The index of an archetype.
#[derive(Clone, Copy, PartialEq, Eq, Structural, PartialOrd, Ord, Hash, Debug)]
pub struct ArchetypeIdx(pub u32);

impl ArchetypeIdx {
    /// The index of the archetype without components, which always exists.
    pub fn empty() -> (i: ArchetypeIdx)
        ensures
            i == ArchetypeIdx(0),
    {
        ArchetypeIdx(0)
    }
}

impl SetKey for ArchetypeIdx {
    fn same(self, other: ArchetypeIdx) -> (r: bool) {
        self.0 == other.0
    }
}

/// The values of one entity, one for each component of its archetype and in
/// the order of the composition.
#[derive(Debug)]
pub struct Row<V> {
    pub entity: EntityId,
    pub values: Vec<V>,
}

/// Every index is smaller than the next.
pub open spec fn strictly_ascending(s: Seq<ComponentIdx>) -> bool {
    forall|i: int, j: int| 0 <= i < j < s.len() ==> s[i].0 < s[j].0
}

/// An ascending composition holds no component twice, and two ascending
/// compositions with the same members are the same.
pub proof fn lemma_ascending_unique(s: Seq<ComponentIdx>)
    requires
        strictly_ascending(s),
    ensures
        s.no_duplicates(),
{
    assert forall|i: int, j: int| 0 <= i < s.len() && 0 <= j < s.len() && i != j implies s[i]
        != s[j] by {
        if i < j {
            assert(s[i].0 < s[j].0);
        } else {
            assert(s[j].0 < s[i].0);
        }
    }
}

/// Inserting a component at its place in an ascending composition gives an
/// ascending composition with that one member more.
pub proof fn lemma_insert_ascending(s: Seq<ComponentIdx>, p: int, c: ComponentIdx)
    requires
        strictly_ascending(s),
        0 <= p <= s.len(),
        forall|j: int| 0 <= j < p ==> s[j].0 < c.0,
        forall|j: int| p <= j < s.len() ==> c.0 < s[j].0,
    ensures
        strictly_ascending(s.insert(p, c)),
        !s.contains(c),
        s.insert(p, c).index_of(c) == p,
        forall|x: ComponentIdx| #[trigger] s.insert(p, c).contains(x) <==> (x == c || s.contains(x)),
        forall|x: ComponentIdx|
            s.contains(x) ==> #[trigger] s.insert(p, c).index_of(x) == (if s.index_of(x) < p {
                s.index_of(x)
            } else {
                s.index_of(x) + 1
            }),
{
    let t = s.insert(p, c);
    assert forall|i: int, j: int| 0 <= i < j < t.len() implies t[i].0 < t[j].0 by {
        let si = if i < p { i } else { i - 1 };
        let sj = if j < p { j } else { j - 1 };
        if i != p && j != p {
            assert(t[i] == s[si] && t[j] == s[sj]);
        } else if i == p {
            assert(t[j] == s[sj]);
        } else {
            assert(t[i] == s[si]);
        }
    }
    lemma_ascending_unique(t);
    if s.contains(c) {
        let j = choose|j: int| 0 <= j < s.len() && s[j] == c;
        assert(false);
    }
    assert(t[p] == c);
    assert(t.contains(c));
    let q = t.index_of(c);
    assert(0 <= q < t.len() && t[q] == c);
    assert forall|x: ComponentIdx| #[trigger] t.contains(x) <==> (x == c || s.contains(x)) by {
        if t.contains(x) {
            let i = choose|i: int| 0 <= i < t.len() && t[i] == x;
            if i != p {
                let si = if i < p { i } else { i - 1 };
                assert(s[si] == x);
            }
        }
        if s.contains(x) {
            let i = choose|i: int| 0 <= i < s.len() && s[i] == x;
            let ti = if i < p { i } else { i + 1 };
            assert(t[ti] == x);
        }
    }
    assert forall|x: ComponentIdx| s.contains(x) implies #[trigger] t.index_of(x) == (if s.index_of(
        x,
    ) < p {
        s.index_of(x)
    } else {
        s.index_of(x) + 1
    }) by {
        lemma_ascending_unique(s);
        let i = s.index_of(x);
        assert(0 <= i < s.len() && s[i] == x);
        let ti = if i < p { i } else { i + 1 };
        assert(t[ti] == x);
        assert(t.contains(x));
        let k = t.index_of(x);
        assert(0 <= k < t.len() && t[k] == x);
    }
}

/// Removing a member from an ascending composition gives an ascending
/// composition with that one member less.
pub proof fn lemma_remove_ascending(s: Seq<ComponentIdx>, p: int)
    requires
        strictly_ascending(s),
        0 <= p < s.len(),
    ensures
        strictly_ascending(s.remove(p)),
        s.remove(p) != s,
        forall|x: ComponentIdx|
            #[trigger] s.remove(p).contains(x) <==> (x != s[p] && s.contains(x)),
{
    let t = s.remove(p);
    lemma_ascending_unique(s);
    assert forall|i: int, j: int| 0 <= i < j < t.len() implies t[i].0 < t[j].0 by {
        let si = if i < p { i } else { i + 1 };
        let sj = if j < p { j } else { j + 1 };
        assert(t[i] == s[si] && t[j] == s[sj]);
    }
    assert forall|x: ComponentIdx| #[trigger] t.contains(x) <==> (x != s[p] && s.contains(x)) by {
        if t.contains(x) {
            let i = choose|i: int| 0 <= i < t.len() && t[i] == x;
            let si = if i < p { i } else { i + 1 };
            assert(s[si] == x);
        }
        if x != s[p] && s.contains(x) {
            let i = choose|i: int| 0 <= i < s.len() && s[i] == x;
            let ti = if i < p { i } else { i - 1 };
            assert(t[ti] == x);
        }
    }
}

/// Two ascending compositions that include a component and are the same
/// without it are the same.
pub proof fn lemma_remove_injective(s1: Seq<ComponentIdx>, s2: Seq<ComponentIdx>, c: ComponentIdx)
    requires
        strictly_ascending(s1),
        strictly_ascending(s2),
        s1.contains(c),
        s2.contains(c),
        s1.remove(s1.index_of(c)) == s2.remove(s2.index_of(c)),
    ensures
        s1 == s2,
{
    let i1 = s1.index_of(c);
    let i2 = s2.index_of(c);
    let r = s1.remove(i1);
    assert(0 <= i1 < s1.len() && s1[i1] == c);
    assert(0 <= i2 < s2.len() && s2[i2] == c);
    assert(s2.remove(i2).len() == r.len());
    if i1 < i2 {
        assert(r[i1] == s1[i1 + 1]);
        assert(s1[i1].0 < s1[i1 + 1].0);
        assert(s2.remove(i2)[i1] == s2[i1]);
        assert(s2[i1].0 < s2[i2].0);
    }
    if i2 < i1 {
        assert(s2.remove(i2)[i2] == s2[i2 + 1]);
        assert(s2[i2].0 < s2[i2 + 1].0);
        assert(r[i2] == s1[i2]);
        assert(s1[i2].0 < s1[i1].0);
    }
    assert forall|i: int| 0 <= i < s1.len() implies s1[i] == s2[i] by {
        if i < i1 {
            assert(r[i] == s1[i] && s2.remove(i2)[i] == s2[i]);
        } else if i > i1 {
            assert(r[i - 1] == s1[i] && s2.remove(i2)[i - 1] == s2[i]);
        }
    }
    assert(s1 =~= s2);
}

/// One archetype.
#[derive(Debug)]
pub struct Archetype<V> {
    pub index: ArchetypeIdx,
    pub components: Vec<ComponentIdx>,
    pub rows: Vec<Row<V>>,
}

impl<V> Archetype<V> {
    /// The composition ascends, and every row has one value for each component.
    pub open spec fn wf(&self) -> bool {
        &&& strictly_ascending(self.components@)
        &&& forall|r: int|
            0 <= r < self.rows@.len() ==> (#[trigger] self.rows@[r]).values@.len()
                == self.components@.len()
    }

    /// Whether the composition includes `c`.
    pub open spec fn has(&self, c: ComponentIdx) -> bool {
        self.components@.contains(c)
    }

    /// The value of component `c` in row `row`, if the row exists and the
    /// composition includes `c`.
    pub open spec fn value(&self, row: int, c: ComponentIdx) -> Option<V> {
        if 0 <= row < self.rows@.len() && self.has(c) {
            Some(self.rows@[row].values@[self.components@.index_of(c)])
        } else {
            None
        }
    }

    /// The index of this archetype.
    pub fn index(&self) -> (i: ArchetypeIdx)
        ensures
            i == self.index,
    {
        self.index
    }

    /// The composition, ascending.
    pub fn component_indices(&self) -> (r: &Vec<ComponentIdx>)
        ensures
            r@ == self.components@,
    {
        &self.components
    }

    /// The number of entities in this archetype.
    pub fn entity_count(&self) -> (n: usize)
        ensures
            n == self.rows@.len(),
    {
        self.rows.len()
    }

    /// The entity of row `row`, if the row exists.
    pub fn entity_at(&self, row: usize) -> (r: Option<EntityId>)
        ensures
            r == (if row < self.rows@.len() {
                Some(self.rows@[row as int].entity)
            } else {
                None
            }),
    {
        if row < self.rows.len() {
            Some(self.rows[row].entity)
        } else {
            None
        }
    }

    /// The position of `c` in the composition; `None` when the composition
    /// does not include it.
    pub fn column_of(&self, c: ComponentIdx) -> (r: Option<usize>)
        requires
            self.wf(),
        ensures
            r is Some <==> self.has(c),
            r matches Some(p) ==> p == self.components@.index_of(c) && p < self.components@.len()
                && self.components@[p as int] == c,
    {
        let mut p: usize = 0;
        while p < self.components.len()
            invariant
                self.wf(),
                p <= self.components@.len(),
                forall|j: int| 0 <= j < p ==> self.components@[j] != c,
            decreases self.components@.len() - p,
        {
            if self.components[p].0 == c.0 {
                proof {
                    lemma_ascending_unique(self.components@);
                    let q = self.components@.index_of(c);
                    assert(0 <= q < self.components@.len() && self.components@[q] == c);
                }
                return Some(p);
            }
            p = p + 1;
        }
        None
    }

    /// The composition with `c` added at its place, and that place.
    pub fn components_with(&self, c: ComponentIdx) -> (r: (Vec<ComponentIdx>, usize))
        requires
            self.wf(),
            !self.has(c),
        ensures
            r.1 <= self.components@.len(),
            r.0@ == self.components@.insert(r.1 as int, c),
            strictly_ascending(r.0@),
            forall|j: int| 0 <= j < r.1 ==> self.components@[j].0 < c.0,
            forall|j: int| r.1 <= j < self.components@.len() ==> c.0 < self.components@[j].0,
    {
        let mut out: Vec<ComponentIdx> = Vec::new();
        let mut p: usize = 0;
        while p < self.components.len() && self.components[p].0 < c.0
            invariant
                self.wf(),
                p <= self.components@.len(),
                out@ == self.components@.take(p as int),
                forall|j: int| 0 <= j < p ==> self.components@[j].0 < c.0,
            decreases self.components@.len() - p,
        {
            out.push(self.components[p]);
            assert(self.components@.take(p + 1) =~= self.components@.take(p as int).push(
                self.components@[p as int],
            ));
            p = p + 1;
        }
        let place = p;
        out.push(c);
        proof {
            assert forall|j: int| place <= j < self.components@.len() implies c.0
                < self.components@[j].0 by {
                assert(self.components@[place as int].0 >= c.0);
                assert(self.components@.contains(self.components@[place as int]));
                if j > place {
                    assert(self.components@[place as int].0 < self.components@[j].0);
                }
            }
        }
        while p < self.components.len()
            invariant
                place <= p <= self.components@.len(),
                out@ == self.components@.take(p as int).insert(place as int, c),
            decreases self.components@.len() - p,
        {
            out.push(self.components[p]);
            assert(self.components@.take(p + 1).insert(place as int, c) =~= self.components@.take(
                p as int,
            ).insert(place as int, c).push(self.components@[p as int]));
            p = p + 1;
        }
        proof {
            assert(self.components@.take(p as int) =~= self.components@);
            lemma_insert_ascending(self.components@, place as int, c);
        }
        (out, place)
    }

    /// The composition without `c`.
    pub fn components_without(&self, c: ComponentIdx) -> (r: Vec<ComponentIdx>)
        requires
            self.wf(),
            self.has(c),
        ensures
            r@ == self.components@.remove(self.components@.index_of(c)),
            strictly_ascending(r@),
    {
        let place = match self.column_of(c) {
            Some(p) => p,
            None => vstd::pervasive::unreached(),
        };
        let mut out: Vec<ComponentIdx> = Vec::new();
        let mut p: usize = 0;
        while p < self.components.len()
            invariant
                place < self.components@.len(),
                p <= self.components@.len(),
                out@ == (if p <= place {
                    self.components@.take(p as int)
                } else {
                    self.components@.take(p as int).remove(place as int)
                }),
            decreases self.components@.len() - p,
        {
            if p != place {
                out.push(self.components[p]);
            }
            proof {
                let s = self.components@;
                if p < place {
                    assert(s.take(p + 1) =~= s.take(p as int).push(s[p as int]));
                } else if p == place {
                    assert(s.take(p + 1).remove(place as int) =~= s.take(p as int));
                } else {
                    assert(s.take(p + 1).remove(place as int) =~= s.take(p as int).remove(
                        place as int,
                    ).push(s[p as int]));
                }
            }
            p = p + 1;
        }
        proof {
            assert(self.components@.take(p as int) =~= self.components@);
            lemma_remove_ascending(self.components@, place as int);
        }
        out
    }

    /// The value of component `c` in row `row`; `None` when the row does not
    /// exist or the composition does not include `c`.
    pub fn get(&self, row: usize, c: ComponentIdx) -> (r: Option<&V>)
        requires
            self.wf(),
        ensures
            r is Some <==> self.value(row as int, c) is Some,
            r matches Some(v) ==> self.value(row as int, c) == Some(*v),
    {
        if row >= self.rows.len() {
            return None;
        }
        match self.column_of(c) {
            Some(p) => {
                assert(self.rows@[row as int].values@.len() == self.components@.len());
                Some(&self.rows[row].values[p])
            },
            None => None,
        }
    }
}

/// Whether two compositions are the same.
pub fn same_components(a: &Vec<ComponentIdx>, b: &Vec<ComponentIdx>) -> (r: bool)
    ensures
        r == (a@ == b@),
{
    if a.len() != b.len() {
        return false;
    }
    let mut i: usize = 0;
    while i < a.len()
        invariant
            a@.len() == b@.len(),
            i <= a@.len(),
            forall|j: int| 0 <= j < i ==> a@[j] == b@[j],
        decreases a@.len() - i,
    {
        if a[i].0 != b[i].0 {
            return false;
        }
        i = i + 1;
    }
    assert(a@ =~= b@);
    true
}

/// The number of archetypes in a table of slots.
pub open spec fn live_count<V>(s: Seq<Option<Archetype<V>>>) -> nat
    decreases s.len(),
{
    if s.len() == 0 {
        0
    } else {
        live_count(s.drop_last()) + if s.last() is Some {
            1nat
        } else {
            0nat
        }
    }
}

/// Changing one slot changes the count by what the slot gains or loses.
pub proof fn lemma_live_count_update<V>(
    s: Seq<Option<Archetype<V>>>,
    i: int,
    x: Option<Archetype<V>>,
)
    requires
        0 <= i < s.len(),
    ensures
        live_count(s.update(i, x)) + (if s[i] is Some {
            1nat
        } else {
            0nat
        }) == live_count(s) + (if x is Some {
            1nat
        } else {
            0nat
        }),
        live_count(s) <= s.len(),
    decreases s.len(),
{
    if i == s.len() - 1 {
        assert(s.update(i, x).drop_last() =~= s.drop_last());
        lemma_live_count_bound(s.drop_last());
    } else {
        assert(s.update(i, x).drop_last() =~= s.drop_last().update(i, x));
        lemma_live_count_update(s.drop_last(), i, x);
    }
}

/// Two tables that hold archetypes at the same indices hold equally many.
pub proof fn lemma_live_count_same<V>(s: Seq<Option<Archetype<V>>>, t: Seq<Option<Archetype<V>>>)
    requires
        s.len() == t.len(),
        forall|a: int| 0 <= a < s.len() ==> (#[trigger] s[a]) is Some == t[a] is Some,
    ensures
        live_count(s) == live_count(t),
    decreases s.len(),
{
    if s.len() > 0 {
        assert(s[s.len() - 1] is Some == t[s.len() - 1] is Some);
        assert forall|a: int| 0 <= a < s.drop_last().len() implies (#[trigger] s.drop_last()[a])
            is Some == t.drop_last()[a] is Some by {
            assert(s[a] is Some == t[a] is Some);
        }
        lemma_live_count_same(s.drop_last(), t.drop_last());
    }
}

/// A table holds no more archetypes than it has slots.
pub proof fn lemma_live_count_bound<V>(s: Seq<Option<Archetype<V>>>)
    ensures
        live_count(s) <= s.len(),
    decreases s.len(),
{
    if s.len() > 0 {
        lemma_live_count_bound(s.drop_last());
    }
}

/// The state of a table of archetypes: slot zero holds the archetype without
/// components, every archetype is well formed and knows its index, and no two
/// archetypes have the same composition.
pub open spec fn archetypes_wf<V>(s: Seq<Option<Archetype<V>>>) -> bool {
    &&& 1 <= s.len() <= 0xffff_ffff
    &&& s[0] is Some
    &&& s[0].unwrap().components@.len() == 0
    &&& forall|a: int|
        0 <= a < s.len() && (#[trigger] s[a]) is Some ==> s[a].unwrap().wf() && s[a].unwrap().index
            == ArchetypeIdx(a as u32)
    &&& forall|a: int, b: int|
        0 <= a < s.len() && 0 <= b < s.len() && a != b && (#[trigger] s[a]) is Some && (
        #[trigger] s[b]) is Some ==> s[a].unwrap().components@ != s[b].unwrap().components@
}

/// The archetype at index `a`, if there is one.
pub open spec fn archetype_at<V>(s: Seq<Option<Archetype<V>>>, a: int) -> Option<Archetype<V>> {
    if 0 <= a < s.len() {
        s[a]
    } else {
        None
    }
}

/// The index of the archetype whose composition is `components`, if there is
/// one.
pub open spec fn find_composition<V>(
    s: Seq<Option<Archetype<V>>>,
    components: Seq<ComponentIdx>,
) -> Option<ArchetypeIdx> {
    if exists|a: int|
        0 <= a < s.len() && (#[trigger] s[a]) is Some && s[a].unwrap().components@ == components {
        let a = choose|a: int|
            0 <= a < s.len() && (#[trigger] s[a]) is Some && s[a].unwrap().components@
                == components;
        Some(ArchetypeIdx(a as u32))
    } else {
        None
    }
}

/// A new archetype can be stored: a slot is vacant, or a slot can be added.
pub open spec fn has_room<V>(s: Seq<Option<Archetype<V>>>) -> bool {
    s.len() < 0xffff_ffff || exists|a: int| 0 <= a < s.len() && (#[trigger] s[a]) is None
}

/// The slot that the next new archetype takes: the first vacant slot, else a
/// new slot at the end.
pub open spec fn next_slot<V>(s: Seq<Option<Archetype<V>>>) -> int {
    if exists|a: int| 0 <= a < s.len() && (#[trigger] s[a]) is None {
        choose|a: int|
            0 <= a < s.len() && (#[trigger] s[a]) is None && forall|b: int|
                0 <= b < a ==> (#[trigger] s[b]) is Some
    } else {
        s.len() as int
    }
}

/// The table of all archetypes.
#[derive(Debug)]
pub struct Archetypes<V> {
    slots: Vec<Option<Archetype<V>>>,
    count: usize,
}

impl<V> View for Archetypes<V> {
    type V = Seq<Option<Archetype<V>>>;

    closed spec fn view(&self) -> Seq<Option<Archetype<V>>> {
        self.slots@
    }
}

impl<V> Archetypes<V> {
    /// The stored count is the number of archetypes.
    pub closed spec fn count_wf(&self) -> bool {
        self.count == live_count(self.slots@)
    }

    /// The table is valid.
    pub open spec fn wf(&self) -> bool {
        archetypes_wf(self@) && self.count_wf()
    }

    /// The table that holds the archetype without components and no other.
    pub fn new() -> (t: Archetypes<V>)
        ensures
            t.wf(),
            t@.len() == 1,
            t@[0] is Some,
            t@[0].unwrap().rows@.len() == 0,
            live_count(t@) == 1,
    {
        let mut slots: Vec<Option<Archetype<V>>> = Vec::new();
        slots.push(Some(Archetype { index: ArchetypeIdx(0), components: Vec::new(), rows: Vec::new() }));
        proof {
            assert(slots@.drop_last() =~= Seq::empty());
            assert(live_count(slots@.drop_last()) == 0);
        }
        Archetypes { slots, count: 1 }
    }

    /// The number of archetypes.
    pub fn len(&self) -> (n: usize)
        requires
            self.wf(),
        ensures
            n == live_count(self@),
    {
        self.count
    }

    /// The number of slots, vacant ones included.
    pub fn slot_count(&self) -> (n: usize)
        ensures
            n == self@.len(),
    {
        self.slots.len()
    }

    /// The archetype at `idx`; `None` when there is none.
    pub fn get(&self, idx: ArchetypeIdx) -> (r: Option<&Archetype<V>>)
        ensures
            r is Some <==> archetype_at(self@, idx.0 as int) is Some,
            r matches Some(a) ==> archetype_at(self@, idx.0 as int) == Some(*a),
    {
        let i = idx.0 as usize;
        if i < self.slots.len() {
            self.slots[i].as_ref()
        } else {
            None
        }
    }

    /// The archetype without components.
    pub fn empty(&self) -> (r: &Archetype<V>)
        requires
            self.wf(),
        ensures
            self@[0] == Some(*r),
    {
        match self.slots[0].as_ref() {
            Some(a) => a,
            None => vstd::pervasive::unreached(),
        }
    }

    /// The index of the archetype whose composition is `components`; `None`
    /// when there is none.
    pub fn find(&self, components: &Vec<ComponentIdx>) -> (r: Option<ArchetypeIdx>)
        requires
            self.wf(),
        ensures
            r == find_composition(self@, components@),
            r matches Some(idx) ==> archetype_at(self@, idx.0 as int) is Some && archetype_at(
                self@,
                idx.0 as int,
            ).unwrap().components@ == components@,
            r is None ==> forall|a: int|
                0 <= a < self@.len() && (#[trigger] self@[a]) is Some ==> self@[a].unwrap().components@
                    != components@,
    {
        let mut i: usize = 0;
        while i < self.slots.len()
            invariant
                self.wf(),
                i <= self.slots@.len(),
                forall|a: int|
                    0 <= a < i && (#[trigger] self.slots@[a]) is Some
                        ==> self.slots@[a].unwrap().components@ != components@,
            decreases self.slots@.len() - i,
        {
            let found = match &self.slots[i] {
                Some(a) => same_components(&a.components, components),
                None => false,
            };
            if found {
                proof {
                    let s = self@;
                    let a = choose|a: int|
                        0 <= a < s.len() && (#[trigger] s[a]) is Some && s[a].unwrap().components@
                            == components@;
                    assert(s[a] is Some && s[i as int] is Some);
                    assert(a == i);
                }
                return Some(ArchetypeIdx(i as u32));
            }
            i = i + 1;
        }
        None
    }

    /// Stores a new archetype without entities whose composition is
    /// `components`, in the first vacant slot or else in a new one, and returns
    /// its index.
    pub fn create(&mut self, components: Vec<ComponentIdx>) -> (r: ArchetypeIdx)
        requires
            old(self).wf(),
            has_room(old(self)@),
            strictly_ascending(components@),
            find_composition(old(self)@, components@) is None,
        ensures
            final(self).wf(),
            r.0 == next_slot(old(self)@),
            live_count(final(self)@) == live_count(old(self)@) + 1,
            archetype_at(old(self)@, r.0 as int) is None,
            old(self)@.len() <= final(self)@.len() <= old(self)@.len() + 1,
            r.0 < final(self)@.len(),
            final(self)@[r.0 as int] is Some,
            final(self)@[r.0 as int].unwrap().index == r,
            final(self)@[r.0 as int].unwrap().components@ == components@,
            final(self)@[r.0 as int].unwrap().rows@.len() == 0,
            forall|a: int| a != r.0 ==> #[trigger] archetype_at(final(self)@, a) == archetype_at(
                old(self)@,
                a,
            ),
    {
        let mut i: usize = 0;
        while i < self.slots.len() && self.slots[i].is_some()
            invariant
                i <= self.slots@.len(),
                forall|b: int| 0 <= b < i ==> (#[trigger] self.slots@[b]) is Some,
            decreases self.slots@.len() - i,
        {
            i = i + 1;
        }
        proof {
            let s = self@;
            if exists|a: int| 0 <= a < s.len() && (#[trigger] s[a]) is None {
                let a = choose|a: int|
                    0 <= a < s.len() && (#[trigger] s[a]) is None && forall|b: int|
                        0 <= b < a ==> (#[trigger] s[b]) is Some;
                let w = choose|a: int| 0 <= a < s.len() && (#[trigger] s[a]) is None;
                assert(i <= w);
                assert(s[i as int] is None);
                assert(a == i) by {
                    if a < i {
                        assert(s[a] is Some);
                    }
                    if i < a {
                        assert(s[i as int] is Some);
                    }
                }
            } else {
                if i < s.len() {
                    assert(s[i as int] is None);
                }
            }
            assert(i == next_slot(s));
            assert forall|a: int|
                0 <= a < s.len() && (#[trigger] s[a]) is Some implies s[a].unwrap().components@
                != components@ by {
                if s[a].unwrap().components@ == components@ {
                    assert(find_composition(s, components@) is Some);
                }
            }
        }
        let idx = ArchetypeIdx(i as u32);
        let fresh = Archetype { index: idx, components, rows: Vec::new() };
        proof {
            lemma_live_count_full(self.slots@);
        }
        if i < self.slots.len() {
            proof {
                assert(self.slots@[i as int] is None);
                lemma_live_count_update(self.slots@, i as int, Some(fresh));
            }
            self.slots[i] = Some(fresh);
        } else {
            proof {
                lemma_live_count_bound(self.slots@);
                assert(self.slots@.push(Some(fresh)).drop_last() =~= self.slots@);
            }
            self.slots.push(Some(fresh));
        }
        self.count = self.count + 1;
        idx
    }

    /// Removes the archetype at `idx`, which is not the archetype without
    /// components, and returns it; `None`, with the table unchanged, when there
    /// is none.
    pub fn remove(&mut self, idx: ArchetypeIdx) -> (r: Option<Archetype<V>>)
        requires
            old(self).wf(),
            idx.0 != 0,
        ensures
            final(self).wf(),
            r == archetype_at(old(self)@, idx.0 as int),
            final(self)@ == (if r is Some {
                old(self)@.update(idx.0 as int, None)
            } else {
                old(self)@
            }),
    {
        let i = idx.0 as usize;
        if i >= self.slots.len() || self.slots[i].is_none() {
            return None;
        }
        proof {
            lemma_live_count_update(self.slots@, i as int, None);
        }
        let r = self.slots[i].take();
        self.count = self.count - 1;
        assert(self.slots@ =~= old(self)@.update(i as int, None));
        r
    }

    /// Appends a row for `entity` to the archetype at `idx` and returns the
    /// row's position.
    pub fn push_row(&mut self, idx: ArchetypeIdx, entity: EntityId, values: Vec<V>) -> (r: usize)
        requires
            old(self).wf(),
            archetype_at(old(self)@, idx.0 as int) is Some,
            values@.len() == old(self)@[idx.0 as int].unwrap().components@.len(),
        ensures
            final(self).wf(),
            final(self)@.len() == old(self)@.len(),
            r == old(self)@[idx.0 as int].unwrap().rows@.len(),
            final(self)@[idx.0 as int] is Some,
            final(self)@[idx.0 as int].unwrap().index == idx,
            final(self)@[idx.0 as int].unwrap().components == old(self)@[idx.0 as int].unwrap().components,
            final(self)@[idx.0 as int].unwrap().rows@ == old(self)@[idx.0 as int].unwrap().rows@.push(
                Row { entity, values },
            ),
            forall|a: int| a != idx.0 ==> #[trigger] archetype_at(final(self)@, a) == archetype_at(
                old(self)@,
                a,
            ),
    {
        let i = idx.0 as usize;
        let mut a = match self.slots[i].take() {
            Some(a) => a,
            None => vstd::pervasive::unreached(),
        };
        let r = a.rows.len();
        a.rows.push(Row { entity, values });
        proof {
            lemma_live_count_update(old(self).slots@, i as int, Some(a));
            assert(old(self).slots@.update(i as int, None).update(i as int, Some(a))
                =~= old(self).slots@.update(i as int, Some(a)));
        }
        self.slots[i] = Some(a);
        r
    }

    /// Takes row `row` out of the archetype at `idx` by putting the last row in
    /// its place, and returns it.
    pub fn swap_remove_row(&mut self, idx: ArchetypeIdx, row: usize) -> (r: Row<V>)
        requires
            old(self).wf(),
            archetype_at(old(self)@, idx.0 as int) is Some,
            row < old(self)@[idx.0 as int].unwrap().rows@.len(),
        ensures
            final(self).wf(),
            final(self)@.len() == old(self)@.len(),
            r == old(self)@[idx.0 as int].unwrap().rows@[row as int],
            final(self)@[idx.0 as int] is Some,
            final(self)@[idx.0 as int].unwrap().index == idx,
            final(self)@[idx.0 as int].unwrap().components == old(self)@[idx.0 as int].unwrap().components,
            final(self)@[idx.0 as int].unwrap().rows@ == crate::map::swap_removed(
                old(self)@[idx.0 as int].unwrap().rows@,
                row as int,
            ),
            forall|a: int| a != idx.0 ==> #[trigger] archetype_at(final(self)@, a) == archetype_at(
                old(self)@,
                a,
            ),
    {
        let i = idx.0 as usize;
        let mut a = match self.slots[i].take() {
            Some(a) => a,
            None => vstd::pervasive::unreached(),
        };
        let r = a.rows.swap_remove(row);
        proof {
            lemma_live_count_update(old(self).slots@, i as int, Some(a));
            assert(old(self).slots@.update(i as int, None).update(i as int, Some(a))
                =~= old(self).slots@.update(i as int, Some(a)));
        }
        self.slots[i] = Some(a);
        r
    }

    /// Puts `value` in column `column` of row `row` of the archetype at `idx`
    /// and returns the value that was there.
    pub fn replace_value(&mut self, idx: ArchetypeIdx, row: usize, column: usize, value: V) -> (r: V)
        requires
            old(self).wf(),
            archetype_at(old(self)@, idx.0 as int) is Some,
            row < old(self)@[idx.0 as int].unwrap().rows@.len(),
            column < old(self)@[idx.0 as int].unwrap().components@.len(),
        ensures
            final(self).wf(),
            final(self)@.len() == old(self)@.len(),
            r == old(self)@[idx.0 as int].unwrap().rows@[row as int].values@[column as int],
            final(self)@[idx.0 as int] is Some,
            final(self)@[idx.0 as int].unwrap().index == idx,
            final(self)@[idx.0 as int].unwrap().components == old(self)@[idx.0 as int].unwrap().components,
            final(self)@[idx.0 as int].unwrap().rows@.len() == old(self)@[idx.0 as int].unwrap().rows@.len(),
            final(self)@[idx.0 as int].unwrap().rows@[row as int].entity == old(
                self,
            )@[idx.0 as int].unwrap().rows@[row as int].entity,
            final(self)@[idx.0 as int].unwrap().rows@[row as int].values@ == old(
                self,
            )@[idx.0 as int].unwrap().rows@[row as int].values@.update(column as int, value),
            forall|k: int|
                0 <= k < old(self)@[idx.0 as int].unwrap().rows@.len() && k != row ==> (
                #[trigger] final(self)@[idx.0 as int].unwrap().rows@[k]) == old(
                    self,
                )@[idx.0 as int].unwrap().rows@[k],
            forall|a: int| a != idx.0 ==> #[trigger] archetype_at(final(self)@, a) == archetype_at(
                old(self)@,
                a,
            ),
    {
        let i = idx.0 as usize;
        let mut a = match self.slots[i].take() {
            Some(a) => a,
            None => vstd::pervasive::unreached(),
        };
        let ghost before = a.rows@;
        assert(a.rows@[row as int].values@.len() == a.components@.len());
        a.rows[row].values.push(value);
        let r = a.rows[row].values.swap_remove(column);
        proof {
            assert(a.rows@[row as int].values@ =~= before[row as int].values@.update(
                column as int,
                value,
            ));
            lemma_live_count_update(old(self).slots@, i as int, Some(a));
            assert(old(self).slots@.update(i as int, None).update(i as int, Some(a))
                =~= old(self).slots@.update(i as int, Some(a)));
        }
        self.slots[i] = Some(a);
        r
    }

    /// Takes all rows out of the archetype at `idx` and returns them.
    pub fn take_rows(&mut self, idx: ArchetypeIdx) -> (r: Vec<Row<V>>)
        requires
            old(self).wf(),
            archetype_at(old(self)@, idx.0 as int) is Some,
        ensures
            final(self).wf(),
            final(self)@.len() == old(self)@.len(),
            r@ == old(self)@[idx.0 as int].unwrap().rows@,
            final(self)@[idx.0 as int] is Some,
            final(self)@[idx.0 as int].unwrap().index == idx,
            final(self)@[idx.0 as int].unwrap().components == old(self)@[idx.0 as int].unwrap().components,
            final(self)@[idx.0 as int].unwrap().rows@.len() == 0,
            forall|a: int| a != idx.0 ==> #[trigger] archetype_at(final(self)@, a) == archetype_at(
                old(self)@,
                a,
            ),
    {
        let i = idx.0 as usize;
        let a = match self.slots[i].take() {
            Some(a) => a,
            None => vstd::pervasive::unreached(),
        };
        let rows = a.rows;
        let b = Archetype { index: a.index, components: a.components, rows: Vec::new() };
        proof {
            lemma_live_count_update(old(self).slots@, i as int, Some(b));
            assert(old(self).slots@.update(i as int, None).update(i as int, Some(b))
                =~= old(self).slots@.update(i as int, Some(b)));
        }
        self.slots[i] = Some(b);
        rows
    }

    /// Drops `c` from the composition of the archetype at `idx`, which has no
    /// entities. No other archetype may have the composition that is left.
    pub fn drop_component(&mut self, idx: ArchetypeIdx, c: ComponentIdx)
        requires
            old(self).wf(),
            archetype_at(old(self)@, idx.0 as int) is Some,
            old(self)@[idx.0 as int].unwrap().rows@.len() == 0,
            old(self)@[idx.0 as int].unwrap().has(c),
            find_composition(
                old(self)@,
                old(self)@[idx.0 as int].unwrap().components@.remove(
                    old(self)@[idx.0 as int].unwrap().components@.index_of(c),
                ),
            ) is None,
        ensures
            final(self).wf(),
            final(self)@.len() == old(self)@.len(),
            final(self)@[idx.0 as int] is Some,
            final(self)@[idx.0 as int].unwrap().index == idx,
            final(self)@[idx.0 as int].unwrap().components@ == old(
                self,
            )@[idx.0 as int].unwrap().components@.remove(
                old(self)@[idx.0 as int].unwrap().components@.index_of(c),
            ),
            final(self)@[idx.0 as int].unwrap().rows@.len() == 0,
            forall|a: int| a != idx.0 ==> #[trigger] archetype_at(final(self)@, a) == archetype_at(
                old(self)@,
                a,
            ),
    {
        let i = idx.0 as usize;
        let mut a = match self.slots[i].take() {
            Some(a) => a,
            None => vstd::pervasive::unreached(),
        };
        let place = match a.column_of(c) {
            Some(p) => p,
            None => vstd::pervasive::unreached(),
        };
        proof {
            lemma_remove_ascending(a.components@, place as int);
        }
        a.components.remove(place);
        proof {
            let s = old(self)@;
            let left = a.components@;
            assert(i != 0) by {
                assert(s[0].unwrap().components@.len() == 0);
            }
            assert forall|b: int|
                0 <= b < s.len() && (#[trigger] s[b]) is Some implies s[b].unwrap().components@
                != left by {
                if s[b].unwrap().components@ == left {
                    assert(find_composition(s, left) is Some);
                }
            }
            lemma_live_count_update(old(self).slots@, i as int, Some(a));
            assert(old(self).slots@.update(i as int, None).update(i as int, Some(a))
                =~= old(self).slots@.update(i as int, Some(a)));
        }
        self.slots[i] = Some(a);
    }

    /// Whether a new archetype can be stored.
    pub fn has_room(&self) -> (r: bool)
        requires
            self.wf(),
        ensures
            r == has_room(self@),
    {
        if self.slots.len() < 0xffff_ffff {
            return true;
        }
        proof {
            lemma_live_count_full(self@);
        }
        self.count < self.slots.len()
    }
}

/// A table has a vacant slot exactly when it holds fewer archetypes than it
/// has slots.
pub proof fn lemma_live_count_full<V>(s: Seq<Option<Archetype<V>>>)
    ensures
        live_count(s) < s.len() <==> exists|a: int| 0 <= a < s.len() && (#[trigger] s[a]) is None,
        live_count(s) <= s.len(),
    decreases s.len(),
{
    if s.len() > 0 {
        let t = s.drop_last();
        lemma_live_count_full(t);
        if exists|a: int| 0 <= a < t.len() && (#[trigger] t[a]) is None {
            let a = choose|a: int| 0 <= a < t.len() && (#[trigger] t[a]) is None;
            assert(s[a] is None);
        }
        if s.last() is None {
            assert(s[s.len() - 1] is None);
        }
        if exists|a: int| 0 <= a < s.len() && (#[trigger] s[a]) is None {
            let a = choose|a: int| 0 <= a < s.len() && (#[trigger] s[a]) is None;
            if a < t.len() {
                assert(t[a] is None);
            }
        }
    }
}

} // verus!
