use vstd::prelude::*;

verus! {

/// Keeps the set of integer types with a byte image closed.
pub trait Sealed {

}

} // verus!
