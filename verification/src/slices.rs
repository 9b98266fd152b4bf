//! A vector used as a slice of its elements.
//!
//! Through `Deref` and `DerefMut` a vector has the methods of a slice, and is read and written by
//! position (`v[i]`, `v[i] = x`, `v[i..j]`) as one.
use core::borrow::{Borrow, BorrowMut};
use core::ops::{Deref, DerefMut};
use vstd::prelude::*;
use crate::stack_vec::StackVec;

verus! {

impl<T, const N: usize> Deref for StackVec<T, N> {
    type Target = [T];

    fn deref(&self) -> (slice: &[T])
        ensures
            slice@ == self@,
    {
        self.as_slice()
    }
}

impl<T, const N: usize> DerefMut for StackVec<T, N> {
    fn deref_mut(&mut self) -> (slice: &mut [T])
        ensures
            slice@ == old(self)@,
            final(self)@ == final(slice)@,
            final(slice)@.len() == old(self)@.len() && old(self).wf() ==> final(self).wf(),
    {
        self.as_mut_slice()
    }
}

impl<T, const N: usize> AsRef<[T]> for StackVec<T, N> {
    fn as_ref(&self) -> (slice: &[T])
        ensures
            slice@ == self@,
    {
        self.as_slice()
    }
}

impl<T, const N: usize> AsMut<[T]> for StackVec<T, N> {
    fn as_mut(&mut self) -> (slice: &mut [T])
        ensures
            slice@ == old(self)@,
            final(self)@ == final(slice)@,
            final(slice)@.len() == old(self)@.len() && old(self).wf() ==> final(self).wf(),
    {
        self.as_mut_slice()
    }
}

impl<T, const N: usize> Borrow<[T]> for StackVec<T, N> {
    fn borrow(&self) -> (slice: &[T])
        ensures
            <[T] as View>::view(slice) == self@,
    {
        self.as_slice()
    }
}

impl<T, const N: usize> BorrowMut<[T]> for StackVec<T, N> {
    fn borrow_mut(&mut self) -> (slice: &mut [T])
        ensures
            <[T] as View>::view(slice) == old(self)@,
            final(self)@ == <[T] as View>::view(final(slice)),
            <[T] as View>::view(final(slice)).len() == old(self)@.len() && old(self).wf()
                ==> final(self).wf(),
    {
        self.as_mut_slice()
    }
}

} // verus!
