//! A value of one of two types.
use vstd::prelude::*;

verus! {

/// Either a value of the left type or one of the right type.
#[derive(Clone, Copy, Debug, PartialEq, Eq)]
pub enum Either<L, R> {
    Left(L),
    Right(R),
}

} // verus!
