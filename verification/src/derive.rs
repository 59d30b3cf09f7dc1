//! The plan by which a record type becomes a composite query.
//!
//! A record type is queried as the flat tuple of the types of its fields, in
//! declared order: every operation of the query is the tuple's, and a fetched
//! record is put together from the fetched tuple, field by field.

use crate::archetype::Archetype;
use crate::query::ArchState;
use vstd::prelude::*;

verus! {

/// One generic parameter of a declaration.
#[derive(Clone, Copy, PartialEq, Eq, Structural, Hash, Debug)]
pub enum GenericParam {
    Lifetime,
    Type,
    Const,
}

/// The fields of a struct: how many there are, and whether they have names.
#[derive(Clone, Copy, PartialEq, Eq, Structural, Hash, Debug)]
pub enum Fields {
    Named(usize),
    Unnamed(usize),
    Unit,
}

impl Fields {
    /// The number of fields.
    pub open spec fn spec_len(self) -> usize {
        match self {
            Fields::Named(n) => n,
            Fields::Unnamed(n) => n,
            Fields::Unit => 0,
        }
    }

    /// The number of fields.
    pub fn len(self) -> (n: usize)
        ensures
            n == self.spec_len(),
    {
        match self {
            Fields::Named(n) => n,
            Fields::Unnamed(n) => n,
            Fields::Unit => 0,
        }
    }
}

/// What a declaration declares.
#[derive(Clone, Copy, PartialEq, Eq, Structural, Hash, Debug)]
pub enum Data {
    Struct(Fields),
    Enum,
    Union,
}

/// The declaration from which a query is derived.
#[derive(Debug)]
pub struct DeriveInput {
    pub generics: Vec<GenericParam>,
    pub data: Data,
}

/// Why no query can be derived from a declaration.
#[derive(Clone, Copy, PartialEq, Eq, Structural, Hash, Debug)]
pub enum DeriveError {
    Enum,
    Union,
}

impl DeriveError {
    /// The message of the error.
    pub fn message(&self) -> (s: String)
        ensures
            s@ == (match *self {
                DeriveError::Enum => "cannot derive `Query` on enums"@,
                DeriveError::Union => "cannot derive `Query` on unions"@,
            }),
    {
        match self {
            DeriveError::Enum => "cannot derive `Query` on enums".to_owned(),
            DeriveError::Union => "cannot derive `Query` on unions".to_owned(),
        }
    }
}

/// How a record is written down from the values of its fields.
#[derive(Clone, Copy, PartialEq, Eq, Structural, Hash, Debug)]
pub enum Assembly {
    /// Each value is bound to the name of its field.
    Named,
    /// Each value stands at the position of its field.
    Positional,
    /// The record has no fields.
    Unit,
}

/// The positions of the lifetimes among the generic parameters, ascending.
pub open spec fn lifetime_positions(generics: Seq<GenericParam>) -> Seq<usize>
    decreases generics.len(),
{
    if generics.len() == 0 {
        Seq::empty()
    } else {
        let rest = lifetime_positions(generics.drop_last());
        if generics.last() == GenericParam::Lifetime {
            rest.push((generics.len() - 1) as usize)
        } else {
            rest
        }
    }
}

/// The positions `0` to `n - 1`, in order.
pub open spec fn in_order(n: usize) -> Seq<usize> {
    Seq::new(n as nat, |i: int| i as usize)
}

/// The query derived from a struct.
#[derive(Debug)]
pub struct DerivedQuery {
    /// The generic parameters that are lifetimes. In the type of a fetched
    /// record each of them is replaced by the lifetime of the fetch.
    pub lifetimes: Vec<usize>,
    /// For each element of the tuple that the query delegates to, the field
    /// whose type it has. Every field is bound to be a query itself.
    pub tuple: Vec<usize>,
    /// For each field of the record, the element of the fetched tuple that
    /// becomes its value.
    pub sources: Vec<usize>,
    /// How the fetched record is written down.
    pub assembly: Assembly,
}

impl DerivedQuery {
    /// The query is the one derived from a struct with the fields `fields`
    /// and the generic parameters `generics`: the tuple has the types of the
    /// fields in declared order, and each field takes the tuple element at its
    /// own position.
    pub open spec fn derived_from(&self, generics: Seq<GenericParam>, fields: Fields) -> bool {
        &&& self.lifetimes@ == lifetime_positions(generics)
        &&& self.tuple@ == in_order(fields.spec_len())
        &&& self.sources@ == in_order(fields.spec_len())
        &&& self.assembly == (match fields {
            Fields::Named(_) => Assembly::Named,
            Fields::Unnamed(_) => Assembly::Positional,
            Fields::Unit => Assembly::Unit,
        })
    }

    /// Every field takes an element of the tuple.
    pub open spec fn wf(&self) -> bool {
        &&& self.sources@.len() == self.tuple@.len()
        &&& forall|i: int|
            0 <= i < self.sources@.len() ==> (#[trigger] self.sources@[i]) < self.tuple@.len()
    }

    /// Fetches the record of row `row`: the tuple of the fields is fetched
    /// through `state`, and each field takes its element. Whether its fields
    /// are named or positional, every field of the record is the value that
    /// `arch` holds in that row for the component of the tuple element that
    /// the field takes.
    pub fn get<'a, V>(&self, state: &ArchState, arch: &'a Archetype<V>, row: usize) -> (r: Vec<
        &'a V,
    >)
        requires
            self.wf(),
            arch.wf(),
            state.fits(arch),
            state.columns@.len() == self.tuple@.len(),
            row < arch.rows@.len(),
        ensures
            r@.len() == self.sources@.len(),
            forall|i: int|
                0 <= i < r@.len() ==> arch.value(
                    row as int,
                    state.columns@[self.sources@[i] as int].0,
                ) == Some(*(#[trigger] r@[i])),
    {
        let fetched = state.get(arch, row);
        let mut out: Vec<&'a V> = Vec::new();
        let mut i: usize = 0;
        while i < self.sources.len()
            invariant
                self.wf(),
                i <= self.sources@.len(),
                out@.len() == i,
                fetched@.len() == state.columns@.len(),
                state.columns@.len() == self.tuple@.len(),
                forall|k: int|
                    0 <= k < fetched@.len() ==> arch.value(row as int, state.columns@[k].0) == Some(
                        *(#[trigger] fetched@[k]),
                    ),
                forall|k: int|
                    0 <= k < i ==> arch.value(
                        row as int,
                        state.columns@[self.sources@[k] as int].0,
                    ) == Some(*(#[trigger] out@[k])),
            decreases self.sources@.len() - i,
        {
            let source = self.sources[i];
            out.push(fetched[source]);
            i = i + 1;
        }
        out
    }
}

fn positions(n: usize) -> (r: Vec<usize>)
    ensures
        r@ == in_order(n),
{
    let mut out: Vec<usize> = Vec::new();
    let mut i: usize = 0;
    while i < n
        invariant
            i <= n,
            out@ == in_order(i),
        decreases n - i,
    {
        out.push(i);
        assert(out@ =~= in_order((i + 1) as usize));
        i = i + 1;
    }
    out
}

/// Derives the query of a declaration. A struct gives the query that
/// delegates to the tuple of its fields; an enum or a union gives an error.
pub fn derive_query(input: &DeriveInput) -> (r: Result<DerivedQuery, DeriveError>)
    ensures
        input.data == Data::Enum ==> r == Err::<DerivedQuery, DeriveError>(DeriveError::Enum),
        input.data == Data::Union ==> r == Err::<DerivedQuery, DeriveError>(DeriveError::Union),
        input.data matches Data::Struct(fields) ==> r matches Ok(q) && q.derived_from(
            input.generics@,
            fields,
        ) && q.wf(),
{
    match input.data {
        Data::Struct(fields) => {
            let mut lifetimes: Vec<usize> = Vec::new();
            let mut i: usize = 0;
            while i < input.generics.len()
                invariant
                    i <= input.generics@.len(),
                    lifetimes@ == lifetime_positions(input.generics@.take(i as int)),
                decreases input.generics@.len() - i,
            {
                proof {
                    assert(input.generics@.take(i + 1).drop_last() =~= input.generics@.take(
                        i as int,
                    ));
                }
                match input.generics[i] {
                    GenericParam::Lifetime => {
                        lifetimes.push(i);
                    },
                    GenericParam::Type => {},
                    GenericParam::Const => {},
                }
                i = i + 1;
            }
            proof {
                assert(input.generics@.take(i as int) =~= input.generics@);
            }
            let n = fields.len();
            let assembly = match fields {
                Fields::Named(_) => Assembly::Named,
                Fields::Unnamed(_) => Assembly::Positional,
                Fields::Unit => Assembly::Unit,
            };
            Ok(DerivedQuery { lifetimes, tuple: positions(n), sources: positions(n), assembly })
        },
        Data::Enum => Err(DeriveError::Enum),
        Data::Union => Err(DeriveError::Union),
    }
}

} // verus!
