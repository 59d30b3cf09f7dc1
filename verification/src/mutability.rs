//! Whether a component may be changed in place.

use vstd::prelude::*;

verus! {

/// Whether the values of a component may be changed through a mutable
/// reference, or only replaced as a whole.
#[derive(Clone, Copy, PartialEq, Eq, Structural, Hash, Debug)]
pub enum Mutability {
    /// Mutable references are permitted.
    Mutable,
    /// Mutable references are forbidden.
    Immutable,
}

impl Mutability {
    /// Whether mutable references are permitted.
    pub fn is_mutable(self) -> (r: bool)
        ensures
            r == (self == Mutability::Mutable),
    {
        match self {
            Mutability::Mutable => true,
            Mutability::Immutable => false,
        }
    }
}

/// A type that stands for one [`Mutability`].
pub trait MutabilityMarker {
    /// The mutability that the type stands for.
    fn mutability() -> Mutability;
}

/// Stands for [`Mutability::Mutable`].
#[derive(Clone, Copy, Debug)]
pub struct Mutable;

/// Stands for [`Mutability::Immutable`].
#[derive(Clone, Copy, Debug)]
pub struct Immutable;

impl MutabilityMarker for Mutable {
    fn mutability() -> (m: Mutability)
        ensures
            m == Mutability::Mutable,
    {
        Mutability::Mutable
    }
}

impl MutabilityMarker for Immutable {
    fn mutability() -> (m: Mutability)
        ensures
            m == Mutability::Immutable,
    {
        Mutability::Immutable
    }
}

} // verus!
