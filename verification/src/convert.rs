//! Conversions, iteration, writing and formatting.
use core::fmt::{Debug, Formatter};
use vstd::prelude::*;
use vstd::std_specs::iter::IteratorSpec;
use crate::iter::IntoIter;
use crate::outside::fmt_slice;
use crate::stack_vec::StackVec;

verus! {

impl<T, const N: usize> From<[T; N]> for StackVec<T, N> {
    fn from(array: [T; N]) -> (v: StackVec<T, N>)
        ensures
            v@ == array@,
            v@.len() == N,
            v.wf(),
    {
        StackVec::from_buf(array)
    }
}

impl<T, const N: usize> vstd::std_specs::convert::FromSpecImpl<[T; N]> for StackVec<T, N> {
    open spec fn obeys_from_spec() -> bool {
        false
    }

    open spec fn from_spec(array: [T; N]) -> StackVec<T, N> {
        arbitrary()
    }
}

impl<T, const N: usize> IntoIterator for StackVec<T, N> {
    type Item = T;

    type IntoIter = IntoIter<T, N>;

    fn into_iter(self) -> (iter: IntoIter<T, N>)
        ensures
            iter@ == self@,
    {
        IntoIter::new(self.into_vec())
    }
}

impl<'a, T, const N: usize> IntoIterator for &'a StackVec<T, N> {
    type Item = &'a T;

    type IntoIter = core::slice::Iter<'a, T>;

    fn into_iter(self) -> (iter: core::slice::Iter<'a, T>)
        ensures
            iter.remaining() == self@.as_ref(),
            iter.decrease() is Some,
            iter.initial_value_relation(&iter),
    {
        self.as_slice().iter()
    }
}

impl<const N: usize> StackVec<u8, N> {
    /// Appends all bytes of `buf` and gives their number.
    pub fn write(&mut self, buf: &[u8]) -> (written: std::io::Result<usize>)
        requires
            old(self)@.len() + buf@.len() <= N,
        ensures
            written is Ok,
            written->Ok_0 == buf@.len(),
            final(self)@ == old(self)@ + buf@,
            final(self).wf(),
    {
        self.extend_from_slice(buf);
        Ok(buf.len())
    }

    /// Appends all bytes of `buf`.
    pub fn write_all(&mut self, buf: &[u8]) -> (written: std::io::Result<()>)
        requires
            old(self)@.len() + buf@.len() <= N,
        ensures
            written is Ok,
            final(self)@ == old(self)@ + buf@,
            final(self).wf(),
    {
        self.extend_from_slice(buf);
        Ok(())
    }

    /// Does nothing: what was written is in the vector.
    pub fn flush(&mut self) -> (flushed: std::io::Result<()>)
        ensures
            flushed is Ok,
            final(self)@ == old(self)@,
    {
        Ok(())
    }
}

impl<T: Debug, const N: usize> Debug for StackVec<T, N> {
    /// Writes the list of the elements: what is written, and the outcome, are those of formatting
    /// a slice that holds the elements of the vector.
    fn fmt(&self, f: &mut Formatter<'_>) -> (result: core::fmt::Result)
        ensures
            exists|slice: &[T], target: &mut Formatter<'_>|
                {
                    &&& slice@ == self@
                    &&& *target == *old(f)
                    &&& *final(target) == *final(f)
                    &&& #[trigger] call_ensures(fmt_slice::<T>, (slice, target), result)
                },
    {
        format_with(fmt_slice::<T>, self.as_slice(), f)
    }
}

/// Hands a slice and a target to a formatting function, and gives the outcome.
fn format_with<T, F: Fn(&[T], &mut Formatter<'_>) -> core::fmt::Result>(
    format: F,
    slice: &[T],
    f: &mut Formatter<'_>,
) -> (result: core::fmt::Result)
    requires
        forall|target: &mut Formatter<'_>| #[trigger] call_requires(format, (slice, target)),
    ensures
        exists|target: &mut Formatter<'_>|
            {
                &&& *target == *old(f)
                &&& *final(target) == *final(f)
                &&& #[trigger] call_ensures(format, (slice, target), result)
            },
{
    format(slice, f)
}

} // verus!
