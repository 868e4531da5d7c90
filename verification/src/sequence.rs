//! Operations of the standard sequences.

use std::collections::VecDeque;
use vstd::prelude::*;

verus! {

/// `slice::swap` exchanges two elements and leaves the others in place.
#[verifier::external_body]
pub(crate) fn swap<T>(items: &mut Vec<T>, a: usize, b: usize)
    requires
        a < old(items)@.len(),
        b < old(items)@.len(),
    ensures
        final(items)@ == old(items)@.update(a as int, old(items)@[b as int]).update(
            b as int,
            old(items)@[a as int],
        ),
{
    items.swap(a, b)
}

/// `Vec::shrink_to_fit` gives back spare capacity and leaves the elements as they are. How much
/// capacity is left is up to the allocator, so it is not stated.
#[verifier::external_body]
pub(crate) fn shrink_vec<T>(items: Vec<T>) -> (shrunk: Vec<T>)
    ensures
        shrunk@ == items@,
{
    let mut shrunk = items;
    shrunk.shrink_to_fit();
    shrunk
}

/// `VecDeque::shrink_to_fit` gives back spare capacity and leaves the elements as they are. How
/// much capacity is left is up to the allocator, so it is not stated.
#[verifier::external_body]
pub(crate) fn shrink_deque<T>(items: VecDeque<T>) -> (shrunk: VecDeque<T>)
    ensures
        shrunk@ == items@,
{
    let mut shrunk = items;
    shrunk.shrink_to_fit();
    shrunk
}

} // verus!
