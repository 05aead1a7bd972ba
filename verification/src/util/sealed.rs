//! Keeps the crate's extension traits closed to outside implementations.

use vstd::prelude::*;

verus! {

/// A supertrait that only this crate can implement.
pub trait Sealed {

}

impl Sealed for str {

}

} // verus!
