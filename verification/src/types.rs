//! Telling types apart.

use std::any::TypeId;
use vstd::prelude::*;

verus! {

/// What tells types apart. Opaque here.
#[verifier::external_type_specification]
#[verifier::external_body]
pub struct ExTypeId(std::any::TypeId);

/// Calls `std::any::TypeId::of`. Nothing is claimed of the result, which depends on the type alone
/// and on no value: contracts speak of it as what a call of this function gives. It could be named
/// by the type only if types that differ in lifetimes alone, such as `dyn for<'a> Fn(&'a u8)` and
/// `dyn Fn(&'static u8)`, were told apart in contracts, as they are in their ids.
#[verifier::external_body]
pub fn id_of<T: 'static>() -> (id: TypeId) {
    TypeId::of::<T>()
}

/// Calls the `==` of `std::any::TypeId`. The contract claims that it tells whether both are the
/// same.
#[verifier::external_body]
fn same(a: &TypeId, b: &TypeId) -> (same: bool)
    ensures
        same == (*a == *b),
{
    *a == *b
}

/// Whether `ids` holds `id`.
pub(crate) fn holds(ids: &Vec<TypeId>, id: &TypeId) -> (found: bool)
    ensures
        found == ids@.contains(*id),
{
    for i in 0..ids.len()
        invariant
            forall|k: int| 0 <= k < i ==> ids@[k] != *id,
    {
        if same(&ids[i], id) {
            assert(ids@[i as int] == *id);
            return true;
        }
    }
    false
}

} // verus!
