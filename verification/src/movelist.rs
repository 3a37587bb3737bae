//! Trusted view of arrayvec's bounded vector, which records the atomic
//! moves of a compound turn: at most four `(origin, die)` pairs in play
//! order. Only creation and appending are needed; everything stated about
//! a recorded list goes through the `move_atoms` abstraction.

use vstd::prelude::*;

verus! {

/// Declares arrayvec's bounded vector for Verus. Values are opaque; what
/// one holds is described by `move_atoms`.
#[verifier::external_type_specification]
#[verifier::external_body]
#[verifier::reject_recursive_types(T)]
pub struct ExArrayVec<T, const CAP: usize>(arrayvec::ArrayVec<T, CAP>);

/// The atoms a recorded move list holds, in order.
pub uninterp spec fn move_atoms(v: arrayvec::ArrayVec<(u8, u8), 4>) -> Seq<(u8, u8)>;

/// Relies on arrayvec::ArrayVec::new: a freshly created vector is empty.
/// (Its capacity check cannot fail: 4 is well under the length type's
/// maximum.)
#[verifier::external_body]
pub(crate) fn av_new() -> (r: arrayvec::ArrayVec<(u8, u8), 4>)
    ensures
        move_atoms(r) == Seq::<(u8, u8)>::empty(),
{
    arrayvec::ArrayVec::new()
}

/// Relies on arrayvec::ArrayVec::push: appends one element at the end.
/// The vector is not full, so the panicking branch is unreachable.
#[verifier::external_body]
pub(crate) fn av_push(v: &mut arrayvec::ArrayVec<(u8, u8), 4>, m: (u8, u8))
    requires
        move_atoms(*old(v)).len() < 4,
    ensures
        move_atoms(*final(v)) == move_atoms(*old(v)).push(m),
{
    v.push(m)
}

/// Relies on arrayvec's Clone implementation: the copy holds the same
/// elements in the same order.
#[verifier::external_body]
pub(crate) fn av_clone(v: &arrayvec::ArrayVec<(u8, u8), 4>) -> (r: arrayvec::ArrayVec<(u8, u8), 4>)
    ensures
        move_atoms(r) == move_atoms(*v),
{
    v.clone()
}

} // verus!
