//! Composite queries: records whose fields are components.
//!
//! A record is queried as the flat tuple of its fields, in the order in which
//! they are declared. The four operations of a query are the resolution of its
//! state against the registry, the resolution of that state against one
//! archetype, the fetch of one row, and the declaration of its access.

use crate::access::{conflicting, Access, ComponentAccess, InitError};
use crate::archetype::{Archetype, ArchetypeIdx};
use crate::component::{ComponentId, ComponentIdx, ComponentInfo, Components};
use crate::mutability::Mutability;
use crate::slot_map::SlotMapView;
use vstd::prelude::*;

verus! {

/// One field of a record: a component and what the field does with it.
#[derive(Clone, Copy, PartialEq, Eq, Structural, Hash, Debug)]
pub struct FieldQuery {
    pub component: ComponentId,
    pub access: Access,
}

impl FieldQuery {
    /// A field that reads `component`.
    pub fn read(component: ComponentId) -> (f: FieldQuery)
        ensures
            f == (FieldQuery { component, access: Access::Read }),
    {
        FieldQuery { component, access: Access::Read }
    }

    /// A field that writes `component`.
    pub fn write(component: ComponentId) -> (f: FieldQuery)
        ensures
            f == (FieldQuery { component, access: Access::Write }),
    {
        FieldQuery { component, access: Access::Write }
    }
}

/// The flat tuple of the fields of a record, in declared order.
#[derive(Debug)]
pub struct Query {
    pub fields: Vec<FieldQuery>,
}

/// A query of which every field only reads, so that the whole record may be
/// read from many places at once.
#[derive(Debug)]
pub struct ReadOnlyQuery {
    fields: Vec<FieldQuery>,
}

impl View for ReadOnlyQuery {
    type V = Seq<FieldQuery>;

    closed spec fn view(&self) -> Seq<FieldQuery> {
        self.fields@
    }
}

/// Every field only reads.
pub open spec fn all_read_only(fields: Seq<FieldQuery>) -> bool {
    forall|i: int| 0 <= i < fields.len() ==> (#[trigger] fields[i]).access == Access::Read
}

/// The terms that the fields resolve to: the index of each field's component
/// with the field's access.
pub open spec fn terms_of(fields: Seq<FieldQuery>) -> Seq<(ComponentIdx, Access)> {
    Seq::new(fields.len(), |i: int| (ComponentIdx(fields[i].component.0.index()), fields[i].access))
}

/// The field writes a registered component that may not be changed in place.
pub open spec fn writes_immutable_field(
    components: SlotMapView<ComponentInfo>,
    field: FieldQuery,
) -> bool {
    &&& field.access == Access::Write
    &&& components.contains(field.component.0)
    &&& components.get(field.component.0).unwrap().mutability == Mutability::Immutable
}

/// Some field writes a component that may not be changed in place.
pub open spec fn writes_immutable(
    components: SlotMapView<ComponentInfo>,
    fields: Seq<FieldQuery>,
) -> bool {
    exists|i: int| 0 <= i < fields.len() && writes_immutable_field(components, #[trigger] fields[i])
}

/// The state of a query once its components are resolved: one term for each
/// field.
#[derive(Debug)]
pub struct QueryState {
    pub terms: Vec<(ComponentIdx, Access)>,
}

/// The state of a query for one archetype: for each field, its component and
/// the column that holds it.
#[derive(Debug)]
pub struct ArchState {
    pub archetype: ArchetypeIdx,
    pub columns: Vec<(ComponentIdx, usize)>,
}

impl Query {
    /// A query with the given fields.
    pub fn new(fields: Vec<FieldQuery>) -> (q: Query)
        ensures
            q.fields@ == fields@,
    {
        Query { fields }
    }

    /// Resolves the fields against the registry. `None` when a field names a
    /// component that is not registered.
    pub fn new_state(&self, components: &Components) -> (r: Option<QueryState>)
        ensures
            r is Some <==> forall|i: int|
                0 <= i < self.fields@.len() ==> components@.contains(
                    (#[trigger] self.fields@[i]).component.0,
                ),
            r matches Some(s) ==> s.terms@ == terms_of(self.fields@),
    {
        let mut terms: Vec<(ComponentIdx, Access)> = Vec::new();
        let mut i: usize = 0;
        while i < self.fields.len()
            invariant
                i <= self.fields@.len(),
                terms@ == terms_of(self.fields@.take(i as int)),
                forall|k: int|
                    0 <= k < i ==> components@.contains((#[trigger] self.fields@[k]).component.0),
            decreases self.fields@.len() - i,
        {
            let f = self.fields[i];
            if !components.contains(f.component) {
                return None;
            }
            terms.push((f.component.index(), f.access));
            assert(terms@ =~= terms_of(self.fields@.take(i + 1)));
            i = i + 1;
        }
        assert(self.fields@.take(i as int) =~= self.fields@);
        Some(QueryState { terms })
    }

    /// Whether some field writes a component that may not be changed in
    /// place: an immutable component is modified only by replacing its values.
    pub fn writes_immutable(&self, components: &Components) -> (r: bool)
        ensures
            r == writes_immutable(components@, self.fields@),
    {
        let mut i: usize = 0;
        while i < self.fields.len()
            invariant
                i <= self.fields@.len(),
                forall|k: int|
                    0 <= k < i ==> !writes_immutable_field(components@, #[trigger] self.fields@[k]),
            decreases self.fields@.len() - i,
        {
            let f = self.fields[i];
            if !f.access.is_read_only() {
                match components.get(f.component) {
                    Some(info) => {
                        if !info.mutability().is_mutable() {
                            return true;
                        }
                    },
                    None => {},
                }
            }
            i = i + 1;
        }
        false
    }

    /// Whether every field only reads.
    pub fn is_read_only(&self) -> (r: bool)
        ensures
            r == all_read_only(self.fields@),
    {
        let mut i: usize = 0;
        while i < self.fields.len()
            invariant
                i <= self.fields@.len(),
                forall|k: int| 0 <= k < i ==> (#[trigger] self.fields@[k]).access == Access::Read,
            decreases self.fields@.len() - i,
        {
            if !self.fields[i].access.is_read_only() {
                return false;
            }
            i = i + 1;
        }
        true
    }

    /// Derives the read-only variant of the record. It exists exactly when
    /// every field only reads, and it has the same fields.
    pub fn read_only(self) -> (r: Option<ReadOnlyQuery>)
        ensures
            r is Some <==> all_read_only(self.fields@),
            r matches Some(q) ==> q@ == self.fields@,
    {
        if self.is_read_only() {
            Some(ReadOnlyQuery { fields: self.fields })
        } else {
            None
        }
    }
}

impl ReadOnlyQuery {
    /// Every field only reads.
    pub open spec fn wf(&self) -> bool {
        all_read_only(self@)
    }

    /// The record as an ordinary query.
    pub fn into_query(self) -> (q: Query)
        ensures
            q.fields@ == self@,
    {
        Query { fields: self.fields }
    }
}

impl QueryState {
    /// Declares the access of the whole record: the terms of its fields, in
    /// order. Fails when two fields access the same component and one of them
    /// writes it.
    pub fn init(&self) -> (r: Result<ComponentAccess, InitError>)
        ensures
            r is Ok <==> !conflicting(self.terms@),
            r matches Ok(a) ==> a@ == self.terms@ && a.wf(),
            r matches Err(e) ==> e == InitError::ConflictingAccess,
    {
        ComponentAccess::fold(&self.terms)
    }

    /// Resolves the state against one archetype. `None` when the composition
    /// of the archetype lacks a component of the record: the query then does
    /// not apply to the archetype.
    pub fn new_arch_state<V>(&self, arch: &Archetype<V>) -> (r: Option<ArchState>)
        requires
            arch.wf(),
        ensures
            r is Some <==> forall|i: int|
                0 <= i < self.terms@.len() ==> arch.has((#[trigger] self.terms@[i]).0),
            r matches Some(a) ==> a.resolves(self.terms@, arch),
    {
        let mut columns: Vec<(ComponentIdx, usize)> = Vec::new();
        let mut i: usize = 0;
        while i < self.terms.len()
            invariant
                arch.wf(),
                i <= self.terms@.len(),
                columns@.len() == i,
                forall|k: int| 0 <= k < i ==> arch.has((#[trigger] self.terms@[k]).0),
                forall|k: int|
                    0 <= k < i ==> (#[trigger] columns@[k]).0 == self.terms@[k].0 && columns@[k].1
                        == arch.components@.index_of(self.terms@[k].0),
            decreases self.terms@.len() - i,
        {
            let c = self.terms[i].0;
            match arch.column_of(c) {
                Some(p) => {
                    columns.push((c, p));
                },
                None => {
                    return None;
                },
            }
            i = i + 1;
        }
        Some(ArchState { archetype: arch.index(), columns })
    }
}

impl ArchState {
    /// The state was resolved for `arch`: every column is the place of its
    /// component in the composition of `arch`.
    pub open spec fn fits<V>(&self, arch: &Archetype<V>) -> bool {
        &&& self.archetype == arch.index
        &&& forall|i: int|
            0 <= i < self.columns@.len() ==> arch.has((#[trigger] self.columns@[i]).0)
                && self.columns@[i].1 == arch.components@.index_of(self.columns@[i].0)
    }

    /// The state is what resolving `terms` for `arch` gives.
    pub open spec fn resolves<V>(
        &self,
        terms: Seq<(ComponentIdx, Access)>,
        arch: &Archetype<V>,
    ) -> bool {
        &&& self.fits(arch)
        &&& self.columns@.len() == terms.len()
        &&& forall|i: int| 0 <= i < terms.len() ==> (#[trigger] self.columns@[i]).0 == terms[i].0
    }

    /// Fetches the record of row `row`: the value of each field, in the order
    /// of the fields, each being the value that `arch` holds in that row for
    /// the field's component. The state must have been resolved for `arch`,
    /// and the row must exist.
    pub fn get<'a, V>(&self, arch: &'a Archetype<V>, row: usize) -> (r: Vec<&'a V>)
        requires
            arch.wf(),
            self.fits(arch),
            row < arch.rows@.len(),
        ensures
            r@.len() == self.columns@.len(),
            forall|i: int|
                0 <= i < r@.len() ==> arch.value(row as int, self.columns@[i].0) == Some(
                    *(#[trigger] r@[i]),
                ),
    {
        let mut out: Vec<&'a V> = Vec::new();
        let mut i: usize = 0;
        while i < self.columns.len()
            invariant
                arch.wf(),
                self.fits(arch),
                row < arch.rows@.len(),
                i <= self.columns@.len(),
                out@.len() == i,
                forall|k: int|
                    0 <= k < i ==> arch.value(row as int, self.columns@[k].0) == Some(
                        *(#[trigger] out@[k]),
                    ),
            decreases self.columns@.len() - i,
        {
            let p = self.columns[i].1;
            proof {
                let c = self.columns@[i as int].0;
                assert(arch.has(c));
                let q = arch.components@.index_of(c);
                assert(0 <= q < arch.components@.len());
                assert(arch.rows@[row as int].values@.len() == arch.components@.len());
            }
            out.push(&arch.rows[row].values[p]);
            i = i + 1;
        }
        out
    }
}

} // verus!
