//! Claims on a destination cell, kept in a small vector.

use smallvec::SmallVec;
use vstd::prelude::*;

verus! {

/// The claims on one cell, in a `SmallVec`: most cells have one, few more than two.
#[verifier::external_body]
pub struct Claims {
    list: SmallVec<[(u16, u32); 2]>,
}

/// What a list of claims holds, in order.
pub uninterp spec fn claims_of(v: Claims) -> Seq<(u16, u32)>;

/// `SmallVec::new`: the list starts empty.
#[verifier::external_body]
pub(crate) fn claims_new() -> (v: Claims)
    ensures
        claims_of(v).len() == 0,
{
    Claims { list: SmallVec::new() }
}

/// `SmallVec::push`: the claim is appended.
#[verifier::external_body]
pub(crate) fn claims_push(v: &mut Claims, claim: (u16, u32))
    ensures
        claims_of(*final(v)) == claims_of(*old(v)).push(claim),
{
    v.list.push(claim);
}

/// `SmallVec::as_slice`: the claims, in order.
#[verifier::external_body]
pub(crate) fn claims_slice(v: &Claims) -> (s: &[(u16, u32)])
    ensures
        s@ == claims_of(*v),
{
    v.list.as_slice()
}

impl View for Claims {
    type V = Seq<(u16, u32)>;

    open spec fn view(&self) -> Seq<(u16, u32)> {
        claims_of(*self)
    }
}

impl Claims {
    /// The claims, in order.
    pub fn as_slice(&self) -> (s: &[(u16, u32)])
        ensures
            s@ == self@,
    {
        claims_slice(self)
    }
}

} // verus!
