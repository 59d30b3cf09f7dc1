//! Access descriptors: which components a query reads and which it writes.

use crate::component::ComponentIdx;
use vstd::prelude::*;

verus! {

/// What a query does with a component.
#[derive(Clone, Copy, PartialEq, Eq, Structural, Hash, Debug)]
pub enum Access {
    /// The component is only read.
    Read,
    /// The component is read and written.
    Write,
}

impl Access {
    /// Two accesses to one component conflict unless both only read.
    pub open spec fn conflicts_with(self, other: Access) -> bool {
        self == Access::Write || other == Access::Write
    }

    /// Whether the access only reads.
    pub fn is_read_only(self) -> (r: bool)
        ensures
            r == (self == Access::Read),
    {
        match self {
            Access::Read => true,
            Access::Write => false,
        }
    }
}

/// Why a handler or a query could not be registered.
#[derive(Clone, Copy, PartialEq, Eq, Structural, Hash, Debug)]
pub enum InitError {
    /// Two fields access the same component, and one of them writes it.
    ConflictingAccess,
    /// A field names a component that is not registered.
    UnknownComponent,
    /// A field writes a component that may not be changed in place.
    ImmutableComponent,
    /// The handler listens to an event that is not registered.
    UnknownEvent,
}

impl InitError {
    /// A description of the error.
    pub fn message(&self) -> (s: String)
        ensures
            s@ == (match *self {
                InitError::ConflictingAccess => "conflicting access to a component"@,
                InitError::UnknownComponent => "no such component"@,
                InitError::ImmutableComponent => "mutable access to an immutable component"@,
                InitError::UnknownEvent => "no such event"@,
            }),
    {
        match self {
            InitError::ConflictingAccess => "conflicting access to a component".to_owned(),
            InitError::UnknownComponent => "no such component".to_owned(),
            InitError::ImmutableComponent => "mutable access to an immutable component".to_owned(),
            InitError::UnknownEvent => "no such event".to_owned(),
        }
    }
}

/// Two of the terms access the same component, and one of them writes it.
pub open spec fn conflicting(terms: Seq<(ComponentIdx, Access)>) -> bool {
    exists|i: int, j: int|
        0 <= i < j < terms.len() && (#[trigger] terms[i]).0 == (#[trigger] terms[j]).0
            && terms[i].1.conflicts_with(terms[j].1)
}

/// The access descriptor of a query: one term for each field, in the order of
/// the fields. It exists only where no two terms conflict.
#[derive(Debug)]
pub struct ComponentAccess {
    terms: Vec<(ComponentIdx, Access)>,
}

impl View for ComponentAccess {
    type V = Seq<(ComponentIdx, Access)>;

    closed spec fn view(&self) -> Seq<(ComponentIdx, Access)> {
        self.terms@
    }
}

impl ComponentAccess {
    /// No two terms conflict.
    pub open spec fn wf(&self) -> bool {
        !conflicting(self@)
    }

    /// Whether some term names `c`.
    pub open spec fn references(&self, c: ComponentIdx) -> bool {
        exists|i: int| 0 <= i < self@.len() && (#[trigger] self@[i]).0 == c
    }

    /// Folds the terms of the fields into one descriptor. Fails when two of
    /// them access the same component and one of them writes it.
    pub fn fold(terms: &Vec<(ComponentIdx, Access)>) -> (r: Result<ComponentAccess, InitError>)
        ensures
            r is Ok <==> !conflicting(terms@),
            r matches Ok(a) ==> a@ == terms@ && a.wf(),
            r matches Err(e) ==> e == InitError::ConflictingAccess,
    {
        let mut out: Vec<(ComponentIdx, Access)> = Vec::new();
        let mut j: usize = 0;
        while j < terms.len()
            invariant
                j <= terms@.len(),
                out@ == terms@.take(j as int),
                !conflicting(terms@.take(j as int)),
            decreases terms@.len() - j,
        {
            let t = terms[j];
            let mut i: usize = 0;
            while i < j
                invariant
                    i <= j < terms@.len(),
                    t == terms@[j as int],
                    forall|k: int|
                        0 <= k < i ==> !((#[trigger] terms@[k]).0 == t.0 && terms@[k].1.conflicts_with(
                            t.1,
                        )),
                decreases j - i,
            {
                let u = terms[i];
                if u.0.0 == t.0.0 && !(u.1.is_read_only() && t.1.is_read_only()) {
                    assert(conflicting(terms@)) by {
                        assert(terms@[i as int].0 == terms@[j as int].0);
                    }
                    return Err(InitError::ConflictingAccess);
                }
                i = i + 1;
            }
            out.push(t);
            proof {
                let now = terms@.take(j + 1);
                assert(now =~= terms@.take(j as int).push(t));
                if conflicting(now) {
                    let (a, b) = choose|a: int, b: int|
                        0 <= a < b < now.len() && (#[trigger] now[a]).0 == (#[trigger] now[b]).0
                            && now[a].1.conflicts_with(now[b].1);
                    if b < j {
                        let before = terms@.take(j as int);
                        assert(before[a] == now[a] && before[b] == now[b]);
                        assert(conflicting(before));
                    } else {
                        assert(now[a] == terms@[a]);
                    }
                }
            }
            j = j + 1;
        }
        proof {
            assert(terms@.take(j as int) =~= terms@);
        }
        Ok(ComponentAccess { terms: out })
    }

    /// The number of terms.
    pub fn len(&self) -> (n: usize)
        ensures
            n == self@.len(),
    {
        self.terms.len()
    }

    /// The term at position `i`, if there is one.
    pub fn term(&self, i: usize) -> (r: Option<(ComponentIdx, Access)>)
        ensures
            r == (if i < self@.len() {
                Some(self@[i as int])
            } else {
                None
            }),
    {
        if i < self.terms.len() {
            Some(self.terms[i])
        } else {
            None
        }
    }

    /// Whether some term names `c`.
    pub fn references_component(&self, c: ComponentIdx) -> (r: bool)
        ensures
            r == self.references(c),
    {
        let mut i: usize = 0;
        while i < self.terms.len()
            invariant
                i <= self.terms@.len(),
                forall|k: int| 0 <= k < i ==> (#[trigger] self.terms@[k]).0 != c,
            decreases self.terms@.len() - i,
        {
            if self.terms[i].0.0 == c.0 {
                assert(self@[i as int].0 == c);
                return true;
            }
            i = i + 1;
        }
        false
    }

    /// Whether every term only reads.
    pub fn is_read_only(&self) -> (r: bool)
        ensures
            r == forall|i: int| 0 <= i < self@.len() ==> (#[trigger] self@[i]).1 == Access::Read,
    {
        let mut i: usize = 0;
        while i < self.terms.len()
            invariant
                i <= self.terms@.len(),
                forall|k: int| 0 <= k < i ==> (#[trigger] self.terms@[k]).1 == Access::Read,
            decreases self.terms@.len() - i,
        {
            if !self.terms[i].1.is_read_only() {
                return false;
            }
            i = i + 1;
        }
        true
    }
}

} // verus!
