//! A run of elements that is taken from both ends.
use vstd::prelude::*;

verus! {

/// Slots of which those from `current` up to `end` still hold their element.
pub struct Cursor<T> {
    slots: Vec<Option<T>>,
    current: usize,
    end: usize,
}

impl<T> View for Cursor<T> {
    type V = Seq<T>;

    /// The elements not yet taken, in order.
    closed spec fn view(&self) -> Seq<T> {
        Seq::new((self.end - self.current) as nat, |i: int| self.slots@[self.current + i]->0)
    }
}

impl<T> Cursor<T> {
    #[verifier::type_invariant]
    spec fn inv(&self) -> bool {
        &&& self.current <= self.end <= self.slots@.len()
        &&& forall|i: int| self.current <= i < self.end ==> (#[trigger] self.slots@[i]) is Some
    }

    /// A run of all of `elements`.
    pub fn new(elements: Vec<T>) -> (cursor: Cursor<T>)
        ensures
            cursor@ == elements@,
    {
        let ghost all = elements@;
        let mut slots: Vec<Option<T>> = Vec::new();
        for element in iter: elements
            invariant
                iter.seq() == all,
                slots@.len() == iter.index(),
                forall|i: int| 0 <= i < slots@.len() ==> (#[trigger] slots@[i]) == Some(all[i]),
        {
            slots.push(Some(element));
        }
        let end: usize = slots.len();
        let cursor = Cursor { slots, current: 0, end };
        assert(cursor@ =~= all);
        cursor
    }

    /// Takes the first element that is left.
    pub fn take_front(&mut self) -> (element: Option<T>)
        ensures
            old(self)@.len() == 0 ==> element is None && final(self)@ == old(self)@,
            old(self)@.len() > 0 ==> element == Some(old(self)@[0]) && final(self)@ == old(
                self,
            )@.drop_first(),
    {
        proof {
            use_type_invariant(&*self);
        }
        if self.current == self.end {
            return None;
        }
        let at: usize = self.current;
        self.current = at + 1;
        let mut element: Option<T> = None;
        core::mem::swap(&mut self.slots[at], &mut element);
        assert(self@ =~= old(self)@.drop_first());
        element
    }

    /// Takes the last element that is left.
    pub fn take_back(&mut self) -> (element: Option<T>)
        ensures
            old(self)@.len() == 0 ==> element is None && final(self)@ == old(self)@,
            old(self)@.len() > 0 ==> element == Some(old(self)@.last()) && final(self)@ == old(
                self,
            )@.drop_last(),
    {
        proof {
            use_type_invariant(&*self);
        }
        if self.current == self.end {
            return None;
        }
        let at: usize = self.end - 1;
        self.end = at;
        let mut element: Option<T> = None;
        core::mem::swap(&mut self.slots[at], &mut element);
        assert(self@ =~= old(self)@.drop_last());
        element
    }

    /// The number of elements that are left.
    pub fn len(&self) -> (len: usize)
        ensures
            len == self@.len(),
    {
        proof {
            use_type_invariant(self);
        }
        self.end - self.current
    }
}

} // verus!
