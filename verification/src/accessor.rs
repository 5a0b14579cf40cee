//! Typed views of a struct.  Every accessor is a value type wrapping a
//! `StructRef`; copying it copies the identity, so two accessors reached
//! from different roots are "the same" exactly when they wrap the same slot.

use crate::hsd_struct::StructRef;
use vstd::prelude::*;

verus! {

/// A typed wrapper around one struct identity.
pub trait Accessor: Sized {
    /// The wrapped identity.
    spec fn struct_ref(&self) -> StructRef;

    fn from_struct(s: StructRef) -> (a: Self)
        ensures
            a.struct_ref() == s,
    ;

    fn as_struct(&self) -> (r: &StructRef)
        ensures
            *r == self.struct_ref(),
    ;
}

/// An accessor's struct identity, for visited-set tracking.
pub fn id_of<T: Accessor>(a: &T) -> (id: usize)
    ensures
        id == a.struct_ref(),
{
    crate::hsd_struct::identity(a.as_struct())
}

/// Two accessors view the same struct.
pub fn same<T: Accessor>(a: &T, b: &T) -> (same: bool)
    ensures
        same == (a.struct_ref() == b.struct_ref()),
{
    crate::hsd_struct::ptr_eq(a.as_struct(), b.as_struct())
}

} // verus!
