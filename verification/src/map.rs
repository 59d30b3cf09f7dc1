//! An insertion-ordered set without duplicates.

use vstd::prelude::*;

verus! {

/// A value that can be a member of an [`IndexSet`]: it is copied freely and
/// compared exactly.
pub trait SetKey: Copy + Sized {
    /// Whether the two values are the same one.
    fn same(self, other: Self) -> (r: bool)
        ensures
            r == (self == other),
    ;
}

impl SetKey for u32 {
    fn same(self, other: u32) -> (r: bool) {
        self == other
    }
}

/// What is left of `s` when the item at `i` is replaced by the last item and
/// the last position is dropped.
pub open spec fn swap_removed<T>(s: Seq<T>, i: int) -> Seq<T> {
    s.update(i, s.last()).drop_last()
}

/// Taking an item out of a sequence without duplicates by swapping leaves a
/// sequence without duplicates that holds every other item and not that one.
pub proof fn lemma_swap_removed<T>(s: Seq<T>, i: int)
    requires
        s.no_duplicates(),
        0 <= i < s.len(),
    ensures
        swap_removed(s, i).no_duplicates(),
        swap_removed(s, i).len() == s.len() - 1,
        !swap_removed(s, i).contains(s[i]),
        forall|x: T| x != s[i] ==> (#[trigger] swap_removed(s, i).contains(x) <==> s.contains(x)),
{
    let r = swap_removed(s, i);
    let n = s.len() - 1;
    assert forall|a: int, b: int| 0 <= a < r.len() && 0 <= b < r.len() && a != b implies r[a]
        != r[b] by {
        let sa = if a == i { n } else { a };
        let sb = if b == i { n } else { b };
        assert(r[a] == s[sa] && r[b] == s[sb]);
    }
    if r.contains(s[i]) {
        let a = choose|a: int| 0 <= a < r.len() && r[a] == s[i];
        let sa = if a == i { n } else { a };
        assert(r[a] == s[sa]);
    }
    assert forall|x: T| x != s[i] implies (#[trigger] r.contains(x) <==> s.contains(x)) by {
        if r.contains(x) {
            let a = choose|a: int| 0 <= a < r.len() && r[a] == x;
            let sa = if a == i { n } else { a };
            assert(r[a] == s[sa]);
        }
        if s.contains(x) {
            let a = choose|a: int| 0 <= a < s.len() && s[a] == x;
            let ra = if a == n { i } else { a };
            assert(r[ra] == s[a]);
        }
    }
}

/// Appending an absent item to a sequence without duplicates leaves a sequence
/// without duplicates that holds the item and what it held before.
pub proof fn lemma_push_absent<T>(s: Seq<T>, x: T)
    requires
        s.no_duplicates(),
        !s.contains(x),
    ensures
        s.push(x).no_duplicates(),
        forall|y: T| #[trigger] s.push(x).contains(y) <==> (y == x || s.contains(y)),
{
    let r = s.push(x);
    assert forall|y: T| #[trigger] r.contains(y) <==> (y == x || s.contains(y)) by {
        if r.contains(y) {
            let a = choose|a: int| 0 <= a < r.len() && r[a] == y;
            if a < s.len() {
                assert(s[a] == y);
            }
        }
        if s.contains(y) {
            let a = choose|a: int| 0 <= a < s.len() && s[a] == y;
            assert(r[a] == y);
        }
        if y == x {
            assert(r[s.len() as int] == y);
        }
    }
}

/// A set that keeps its items in the order in which they were inserted.
#[derive(Debug)]
pub struct IndexSet<T> {
    items: Vec<T>,
}

impl<T> View for IndexSet<T> {
    type V = Seq<T>;

    closed spec fn view(&self) -> Seq<T> {
        self.items@
    }
}

impl<T: SetKey> IndexSet<T> {
    /// No item occurs twice.
    pub open spec fn wf(&self) -> bool {
        self@.no_duplicates()
    }

    /// The empty set.
    pub fn new() -> (s: Self)
        ensures
            s@ == Seq::<T>::empty(),
            s.wf(),
    {
        IndexSet { items: Vec::new() }
    }

    /// The number of items.
    pub fn len(&self) -> (n: usize)
        ensures
            n == self@.len(),
    {
        self.items.len()
    }

    /// Whether the set has no item.
    pub fn is_empty(&self) -> (r: bool)
        ensures
            r == (self@.len() == 0),
    {
        self.items.len() == 0
    }

    /// The position of `x`, if it is a member.
    pub fn get_index_of(&self, x: T) -> (r: Option<usize>)
        ensures
            r is Some <==> self@.contains(x),
            r matches Some(i) ==> i < self@.len() && self@[i as int] == x,
    {
        let mut i: usize = 0;
        while i < self.items.len()
            invariant
                i <= self.items.len(),
                forall|j: int| 0 <= j < i ==> self.items@[j] != x,
            decreases self.items.len() - i,
        {
            if self.items[i].same(x) {
                return Some(i);
            }
            i = i + 1;
        }
        None
    }

    /// Whether `x` is a member.
    pub fn contains(&self, x: T) -> (r: bool)
        ensures
            r == self@.contains(x),
    {
        self.get_index_of(x).is_some()
    }

    /// The item at position `i`, if there is one.
    pub fn get_index(&self, i: usize) -> (r: Option<T>)
        ensures
            r == (if i < self@.len() {
                Some(self@[i as int])
            } else {
                None
            }),
    {
        if i < self.items.len() {
            Some(self.items[i])
        } else {
            None
        }
    }

    /// Inserts `x` at the end unless it is a member already. Returns whether it
    /// was inserted.
    pub fn insert(&mut self, x: T) -> (r: bool)
        requires
            old(self).wf(),
        ensures
            final(self).wf(),
            r == !old(self)@.contains(x),
            final(self)@ == (if r {
                old(self)@.push(x)
            } else {
                old(self)@
            }),
            forall|y: T| #[trigger] final(self)@.contains(y) <==> (y == x || old(self)@.contains(y)),
    {
        if self.contains(x) {
            false
        } else {
            proof {
                lemma_push_absent(self@, x);
            }
            self.items.push(x);
            true
        }
    }

    /// Removes `x` by putting the last item in its place. Returns whether it
    /// was a member.
    pub fn swap_remove(&mut self, x: T) -> (r: bool)
        requires
            old(self).wf(),
        ensures
            final(self).wf(),
            r == old(self)@.contains(x),
            final(self)@ == (if r {
                swap_removed(old(self)@, old(self)@.index_of(x))
            } else {
                old(self)@
            }),
            forall|y: T| #[trigger] final(self)@.contains(y) <==> (y != x && old(self)@.contains(y)),
    {
        match self.get_index_of(x) {
            Some(i) => {
                proof {
                    let j = self@.index_of(x);
                    assert(0 <= j < self@.len() && self@[j] == x);
                    assert(j == i);
                    lemma_swap_removed(self@, i as int);
                }
                self.items.swap_remove(i);
                assert(self@ =~= swap_removed(old(self)@, i as int));
                true
            },
            None => false,
        }
    }

    /// The items in insertion order.
    pub fn to_vec(&self) -> (v: Vec<T>)
        ensures
            v@ == self@,
    {
        let mut v: Vec<T> = Vec::new();
        let mut i: usize = 0;
        while i < self.items.len()
            invariant
                i <= self.items.len(),
                v@ == self.items@.take(i as int),
            decreases self.items.len() - i,
        {
            v.push(self.items[i]);
            assert(self.items@.take(i + 1) =~= self.items@.take(i as int).push(self.items@[i as int]));
            i = i + 1;
        }
        assert(self.items@.take(i as int) =~= self.items@);
        v
    }
}

} // verus!
