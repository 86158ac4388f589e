//! Geometry errors.

use vstd::prelude::*;

verus! {

/// Why a geometry operation fails.
#[derive(Debug)]
pub enum GeomError {
    /// The kernel refused an operation.
    Kernel(String),
    /// A mesh is not a closed manifold.
    NonManifold(String),
    /// Data that should fit together does not.
    Invariant(String),
}

/// What an error says.
pub enum GeomFault {
    Kernel(Seq<char>),
    NonManifold(Seq<char>),
    Invariant(Seq<char>),
}

impl View for GeomError {
    type V = GeomFault;

    open spec fn view(&self) -> GeomFault {
        match *self {
            GeomError::Kernel(s) => GeomFault::Kernel(s@),
            GeomError::NonManifold(s) => GeomFault::NonManifold(s@),
            GeomError::Invariant(s) => GeomFault::Invariant(s@),
        }
    }
}

/// An error about data that should fit together.
pub fn misfit(message: &str) -> (r: GeomError)
    ensures
        r@ == GeomFault::Invariant(message@),
{
    GeomError::Invariant(message.to_owned())
}

/// The outcome, over what an error says.
pub open spec fn outcome<T>(r: Result<T, GeomError>) -> Result<T, GeomFault> {
    match r {
        Ok(v) => Ok(v),
        Err(e) => Err(e@),
    }
}

} // verus!
