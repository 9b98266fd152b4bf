//! Operations that `Vec` and `StackVec` have in common.
use core::ops::{Deref, DerefMut};
use vstd::prelude::*;
use crate::stack_vec::StackVec;

verus! {

/// What a collection holds and can hold, in the contracts of the traits below.
pub trait Contents<T> {
    /// The elements, in order.
    spec fn elements(&self) -> Seq<T>;

    /// The number of elements that the collection can hold, if it has a limit.
    spec fn limit(&self) -> Option<nat>;
}

impl<T> Contents<T> for Vec<T> {
    open spec fn elements(&self) -> Seq<T> {
        self@
    }

    open spec fn limit(&self) -> Option<nat> {
        None
    }
}

impl<T, const N: usize> Contents<T> for StackVec<T, N> {
    open spec fn elements(&self) -> Seq<T> {
        self@
    }

    open spec fn limit(&self) -> Option<nat> {
        Some(N as nat)
    }
}

/// Common operations of `Vec` and `StackVec`, for generic code that works with both. Reading and
/// writing by position, and the methods of slices, come with `DerefMut`; what they do to the
/// elements follows from `deref_elements` and `deref_mut_elements`.
pub trait VecLike<T>: Contents<T> + DerefMut<Target = [T]> {
    /// Appends an element to the vector.
    fn push(&mut self, value: T)
        requires
            old(self).limit() matches Some(n) ==> old(self).elements().len() < n,
        ensures
            final(self).elements() == old(self).elements().push(value),
            final(self).limit() == old(self).limit(),
    ;

    /// Removes the last element and gives it, or `None` if the vector is empty.
    fn pop(&mut self) -> (popped: Option<T>)
        ensures
            old(self).elements().len() == 0 ==> popped is None && final(self).elements() == old(
                self,
            ).elements(),
            old(self).elements().len() > 0 ==> popped == Some(old(self).elements().last())
                && final(self).elements() == old(self).elements().drop_last(),
            final(self).limit() == old(self).limit(),
    ;

    /// The slice that `deref` gives holds the elements of the vector.
    proof fn deref_elements(&self, slice: &[T])
        requires
            call_ensures(<Self as Deref>::deref, (self,), slice),
        ensures
            slice@ == self.elements(),
    ;

    /// The slice that `deref_mut` gives holds the elements of the vector, and what is written to it
    /// is written to the vector.
    proof fn deref_mut_elements()
        ensures
            forall|v: &mut Self, slice: &mut [T]| #[trigger]
                call_ensures(<Self as DerefMut>::deref_mut, (v,), slice) ==> {
                    &&& slice@ == (*v).elements()
                    &&& (*final(v)).elements() == final(slice)@
                    &&& (*final(v)).limit() == (*v).limit()
                },
    ;
}

impl<T> VecLike<T> for Vec<T> {
    fn push(&mut self, value: T) {
        Vec::push(self, value);
    }

    fn pop(&mut self) -> (popped: Option<T>) {
        Vec::pop(self)
    }

    proof fn deref_elements(&self, slice: &[T]) {
    }

    proof fn deref_mut_elements() {
    }
}

impl<T, const N: usize> VecLike<T> for StackVec<T, N> {
    fn push(&mut self, value: T)
        ensures
            final(self).wf(),
    {
        StackVec::push(self, value);
    }

    fn pop(&mut self) -> (popped: Option<T>)
        ensures
            old(self).wf() ==> final(self).wf(),
    {
        StackVec::pop(self)
    }

    proof fn deref_elements(&self, slice: &[T]) {
    }

    proof fn deref_mut_elements() {
    }
}

/// A collection that can be extended from a slice of its element type.
pub trait ExtendFromSlice<T>: Contents<T> {
    /// Whether `to` can be what the collection holds for the element `from` of a slice.
    spec fn is_copy(from: T, to: T) -> bool;

    /// Appends a copy of each element of a slice.
    fn extend_from_slice(&mut self, other: &[T])
        requires
            old(self).limit() matches Some(n) ==> old(self).elements().len() + other@.len() <= n,
        ensures
            final(self).elements().len() == old(self).elements().len() + other@.len(),
            forall|i: int|
                0 <= i < old(self).elements().len() ==> #[trigger] final(self).elements()[i] == old(
                    self,
                ).elements()[i],
            forall|i: int|
                0 <= i < other@.len() ==> Self::is_copy(
                    #[trigger] other@[i],
                    final(self).elements()[old(self).elements().len() + i],
                ),
            final(self).limit() == old(self).limit(),
    ;
}

impl<T: Clone> ExtendFromSlice<T> for Vec<T> {
    open spec fn is_copy(from: T, to: T) -> bool {
        cloned(from, to)
    }

    fn extend_from_slice(&mut self, other: &[T]) {
        Vec::extend_from_slice(self, other);
        assert forall|i: int| 0 <= i < other@.len() implies cloned(
            #[trigger] other@[i],
            self@[old(self)@.len() + i],
        ) by {
            assert(self@.skip(old(self)@.len() as int)[i] == self@[old(self)@.len() + i]);
        }
    }
}

impl<T: Copy, const N: usize> ExtendFromSlice<T> for StackVec<T, N> {
    open spec fn is_copy(from: T, to: T) -> bool {
        from == to
    }

    fn extend_from_slice(&mut self, other: &[T])
        ensures
            final(self)@ == old(self)@ + other@,
            final(self).wf(),
    {
        StackVec::extend_from_slice(self, other);
    }
}

} // verus!
