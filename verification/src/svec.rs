//! Small integer vectors backed by the `smallvec` crate hold the grammar's
//! productions and the forest's child lists. The backing vector is held in an
//! opaque struct; `sv_elems` names what a vector holds, and the methods the
//! crate uses are wrapped with the contracts that smallvec's source shows.

use vstd::prelude::*;

verus! {

/// A short vector of indices: symbol identifiers in a production, or node
/// indices in one alternative of a forest node. Backed by
/// `smallvec::SmallVec`, which stores up to four elements inline.
#[verifier::external_body]
pub struct SymVec {
    v: smallvec::SmallVec<[usize; 4]>,
}

/// The elements a `SymVec` holds, in order.
pub uninterp spec fn sv_elems(v: SymVec) -> Seq<usize>;

/// Relies on `SmallVec::new`: the new vector is empty.
#[verifier::external_body]
pub fn sv_new() -> (r: SymVec)
    ensures
        sv_elems(r) == Seq::<usize>::empty(),
{
    SymVec { v: smallvec::SmallVec::new() }
}

/// Relies on `SmallVec::len`: the number of elements stored.
#[verifier::external_body]
pub fn sv_len(v: &SymVec) -> (r: usize)
    ensures
        r == sv_elems(*v).len(),
{
    v.v.len()
}

/// Relies on `SmallVec::push`: appends one element at the end.
#[verifier::external_body]
pub fn sv_push(v: &mut SymVec, x: usize)
    ensures
        sv_elems(*final(v)) == sv_elems(*old(v)).push(x),
{
    v.v.push(x)
}

/// Relies on smallvec's `Index` impl, which yields the slice element at `i`.
#[verifier::external_body]
pub fn sv_get(v: &SymVec, i: usize) -> (r: usize)
    requires
        i < sv_elems(*v).len(),
    ensures
        r == sv_elems(*v)[i as int],
{
    v.v[i]
}

/// Relies on smallvec's `IndexMut` impl, which writes the slice element at
/// `i`.
#[verifier::external_body]
pub fn sv_set(v: &mut SymVec, i: usize, x: usize)
    requires
        i < sv_elems(*old(v)).len(),
    ensures
        sv_elems(*final(v)) == sv_elems(*old(v)).update(i as int, x),
{
    v.v[i] = x;
}

/// Relies on `SmallVec::from_elem`: `n` copies of the element.
#[verifier::external_body]
pub fn sv_from_elem(elem: usize, n: usize) -> (r: SymVec)
    ensures
        sv_elems(r) == Seq::new(n as nat, |i: int| elem),
{
    SymVec { v: smallvec::SmallVec::from_elem(elem, n) }
}

/// Relies on smallvec's `Clone` impl, which copies the elements.
#[verifier::external_body]
pub fn sv_clone(v: &SymVec) -> (r: SymVec)
    ensures
        sv_elems(r) == sv_elems(*v),
{
    SymVec { v: v.v.clone() }
}

} // verus!
