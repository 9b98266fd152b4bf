//! The iterators that give a vector's elements away.
use core::marker::PhantomData;
use vstd::prelude::*;
use crate::cursor::Cursor;

verus! {

/// An iterator that consumes a `StackVec` and yields its elements by value, from either end.
pub struct IntoIter<T, const N: usize> {
    cursor: Cursor<T>,
}

impl<T, const N: usize> View for IntoIter<T, N> {
    type V = Seq<T>;

    /// The elements not yet yielded, in order.
    closed spec fn view(&self) -> Seq<T> {
        self.cursor@
    }
}

impl<T, const N: usize> IntoIter<T, N> {
    pub(crate) fn new(elements: Vec<T>) -> (iter: IntoIter<T, N>)
        ensures
            iter@ == elements@,
    {
        IntoIter { cursor: Cursor::new(elements) }
    }
}

impl<T, const N: usize> Iterator for IntoIter<T, N> {
    type Item = T;

    fn next(&mut self) -> (element: Option<T>) {
        self.cursor.take_front()
    }

    fn size_hint(&self) -> (bounds: (usize, Option<usize>))
        ensures
            bounds.0 == self@.len(),
            bounds.1 == Some(bounds.0),
    {
        let size: usize = self.cursor.len();
        (size, Some(size))
    }
}

impl<T, const N: usize> vstd::std_specs::iter::IteratorSpecImpl for IntoIter<T, N> {
    open spec fn obeys_prophetic_iter_laws(&self) -> bool {
        true
    }

    open spec fn remaining(&self) -> Seq<T> {
        self@
    }

    open spec fn will_return_none(&self) -> bool {
        true
    }

    open spec fn decrease(&self) -> Option<nat> {
        Some(self@.len())
    }

    open spec fn initial_value_relation(&self, init: &Self) -> bool {
        self@ == init@
    }

    open spec fn peek(&self, index: int) -> Option<T> {
        if 0 <= index < self@.len() {
            Some(self@[index])
        } else {
            None
        }
    }
}

impl<T, const N: usize> DoubleEndedIterator for IntoIter<T, N> {
    fn next_back(&mut self) -> (element: Option<T>) {
        self.cursor.take_back()
    }
}

impl<T, const N: usize> vstd::std_specs::iter::DoubleEndedIteratorSpecImpl for IntoIter<T, N> {
    open spec fn peek_back(&self, index: int) -> Option<T> {
        if 0 <= index < self@.len() {
            Some(self@[self@.len() - 1 - index])
        } else {
            None
        }
    }
}

impl<T, const N: usize> ExactSizeIterator for IntoIter<T, N> {

}

/// An iterator that yields by value, from either end, the elements that `StackVec::drain` took
/// out of a vector.
pub struct Drain<'a, T: 'a> {
    cursor: Cursor<T>,
    source: PhantomData<&'a T>,
}

impl<'a, T> View for Drain<'a, T> {
    type V = Seq<T>;

    /// The elements not yet yielded, in order.
    closed spec fn view(&self) -> Seq<T> {
        self.cursor@
    }
}

impl<'a, T> Drain<'a, T> {
    pub(crate) fn new(elements: Vec<T>) -> (iter: Drain<'a, T>)
        ensures
            iter@ == elements@,
    {
        Drain { cursor: Cursor::new(elements), source: PhantomData }
    }
}

impl<'a, T> Iterator for Drain<'a, T> {
    type Item = T;

    fn next(&mut self) -> (element: Option<T>) {
        self.cursor.take_front()
    }

    fn size_hint(&self) -> (bounds: (usize, Option<usize>))
        ensures
            bounds.0 == self@.len(),
            bounds.1 == Some(bounds.0),
    {
        let size: usize = self.cursor.len();
        (size, Some(size))
    }
}

impl<'a, T> vstd::std_specs::iter::IteratorSpecImpl for Drain<'a, T> {
    open spec fn obeys_prophetic_iter_laws(&self) -> bool {
        true
    }

    open spec fn remaining(&self) -> Seq<T> {
        self@
    }

    open spec fn will_return_none(&self) -> bool {
        true
    }

    open spec fn decrease(&self) -> Option<nat> {
        Some(self@.len())
    }

    open spec fn initial_value_relation(&self, init: &Self) -> bool {
        self@ == init@
    }

    open spec fn peek(&self, index: int) -> Option<T> {
        if 0 <= index < self@.len() {
            Some(self@[index])
        } else {
            None
        }
    }
}

impl<'a, T> DoubleEndedIterator for Drain<'a, T> {
    fn next_back(&mut self) -> (element: Option<T>) {
        self.cursor.take_back()
    }
}

impl<'a, T> vstd::std_specs::iter::DoubleEndedIteratorSpecImpl for Drain<'a, T> {
    open spec fn peek_back(&self, index: int) -> Option<T> {
        if 0 <= index < self@.len() {
            Some(self@[self@.len() - 1 - index])
        } else {
            None
        }
    }
}

impl<'a, T> ExactSizeIterator for Drain<'a, T> {

}

} // verus!
