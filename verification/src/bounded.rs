//! Trusted boundary around `smallvec::SmallVec`, the inline-capacity list
//! that backs the bounded-list container kind. The list is held opaquely in
//! [`BoundedSlots`]; each wrapper makes one call into the outside crate, and
//! everything else about the bounded container is verified against the
//! contents named by [`bounded_view`].

use vstd::prelude::*;
use crate::container::remove_all;

verus! {

/// Opaque holder of the outside crate's inline-capacity vector.
#[verifier::external_body]
#[derive(PartialEq, Eq, Debug)]
pub struct BoundedSlots {
    items: smallvec::SmallVec<[usize; 8]>,
}

/// The entities a bounded list holds, in order.
pub uninterp spec fn bounded_view(v: BoundedSlots) -> Seq<usize>;

/// Relies on `smallvec::SmallVec::new`: constructs an empty vector.
#[verifier::external_body]
pub(crate) fn sv_new() -> (r: BoundedSlots)
    ensures
        bounded_view(r) == Seq::<usize>::empty(),
{
    BoundedSlots { items: smallvec::SmallVec::new() }
}

/// Relies on `smallvec::SmallVec::push`: appends the value at the end.
#[verifier::external_body]
pub(crate) fn sv_push(v: &mut BoundedSlots, e: usize)
    ensures
        bounded_view(*final(v)) == bounded_view(*old(v)).push(e),
{
    v.items.push(e)
}

/// Relies on `smallvec::SmallVec::len`: the number of elements stored.
#[verifier::external_body]
pub(crate) fn sv_len(v: &BoundedSlots) -> (r: usize)
    ensures
        r == bounded_view(*v).len(),
{
    v.items.len()
}

/// Relies on `smallvec::SmallVec::as_slice`: the whole vector as a slice,
/// read here at one position.
#[verifier::external_body]
pub(crate) fn sv_get(v: &BoundedSlots, i: usize) -> (r: usize)
    requires
        i < bounded_view(*v).len(),
    ensures
        r == bounded_view(*v)[i as int],
{
    v.items.as_slice()[i]
}

/// Relies on `smallvec::SmallVec::retain`: keeps, in order, exactly the
/// elements on which the predicate returns true.
#[verifier::external_body]
pub(crate) fn sv_remove(v: &mut BoundedSlots, e: usize)
    ensures
        bounded_view(*final(v)) == remove_all(bounded_view(*old(v)), e),
{
    v.items.retain(|x: &mut usize| differs(*x, e))
}

/// Whether two entity identifiers differ; handed to `retain` above.
pub(crate) fn differs(x: usize, y: usize) -> (r: bool)
    ensures
        r == (x != y),
{
    x != y
}

} // verus!
