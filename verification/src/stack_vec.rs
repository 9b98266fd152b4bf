//! The bounded vector.
use vstd::prelude::*;
use vstd::std_specs::cmp::PartialEqSpec;
use vstd::std_specs::iter::IteratorSpec;
use crate::evidence::{
    answered, answered_on_pairs, called, called_on_pairs, dropped, fetched, forgotten,
    lemma_answered, lemma_answered_on_pairs, Call, Dropped, Fetcher, Forgotten, PairCall,
    PairRecorder, Recorder,
};
use crate::iter::{Drain, IntoIter};
use crate::outside::{array_into_vec, size_hint_lower, vec_into_array};
use crate::seqs::{
    all_cloned, all_satisfy, dedup_step, dedup_trace, deduped, keep_marked, lemma_keep_marked_filter, lemma_rotate,
    lemma_trace_account, lemma_trace_deduped, same_key, same_value, shortened, splice, swapped, within,
};

verus! {

/// A `Vec`-like container that never holds more than `N` elements.
///
/// What an operation needs room for must fit: `push` on a full vector, or an insertion of more
/// elements than there is room for, is excluded by the operation's precondition. The elements
/// stand in a `Vec`, whose length the contracts bound.
#[derive(Eq, Ord, Hash)]
pub struct StackVec<T, const N: usize> {
    data: Vec<T>,
}

impl<T, const N: usize> View for StackVec<T, N> {
    type V = Seq<T>;

    /// The elements, in order.
    closed spec fn view(&self) -> Seq<T> {
        self.data@
    }
}

impl<T, const N: usize> StackVec<T, N> {
    /// The vector holds no more than `N` elements. Every constructor establishes this and every
    /// operation keeps it; those that hand out a mutable slice do so where what is written to the
    /// slice leaves its length as it is.
    pub open spec fn wf(&self) -> bool {
        self@.len() <= N
    }

    /// Constructs an empty vector.
    pub fn new() -> (v: StackVec<T, N>)
        ensures
            v@ == Seq::<T>::empty(),
            v.wf(),
    {
        StackVec { data: Vec::new() }
    }

    /// Constructs a vector from the elements of a `Vec<T>`.
    pub fn from_vec(vec: Vec<T>) -> (v: StackVec<T, N>)
        requires
            vec@.len() <= N,
        ensures
            v@ == vec@,
            v.wf(),
    {
        Self::from_vec_unchecked(vec)
    }

    /// Constructs a vector from the elements of a `Vec<T>`, which the caller knows to fit.
    pub fn from_vec_unchecked(vec: Vec<T>) -> (v: StackVec<T, N>)
        requires
            vec@.len() <= N,
        ensures
            v@ == vec@,
            v.wf(),
    {
        StackVec { data: vec }
    }

    /// Constructs a full vector from the elements of an array.
    pub fn from_buf(buf: [T; N]) -> (v: StackVec<T, N>)
        ensures
            v@ == buf@,
            v@.len() == N,
            v.wf(),
    {
        let v = Self::from_buf_and_len_unchecked(buf, N);
        assert(v@ =~= buf@);
        v
    }

    /// Constructs a vector from the first `len` elements of an array, and drops the others.
    pub fn from_buf_and_len(buf: [T; N], len: usize) -> (v: StackVec<T, N>)
        requires
            len <= N,
        ensures
            v@ == buf@.take(len as int),
            dropped(buf@.skip(len as int)),
            v.wf(),
    {
        Self::from_buf_and_len_unchecked(buf, len)
    }

    /// Constructs a vector from the first `len` elements of an array, which the caller knows to
    /// have as many, and drops the others.
    pub fn from_buf_and_len_unchecked(buf: [T; N], len: usize) -> (v: StackVec<T, N>)
        requires
            len <= N,
        ensures
            v@ == buf@.take(len as int),
            dropped(buf@.skip(len as int)),
            v.wf(),
    {
        let mut data = array_into_vec(buf);
        let ghost past = buf@.skip(len as int);
        let mut cut: Dropped<T> = Dropped::none();
        for element in iter: data.split_off(len)
            invariant
                iter.seq() == past,
                cut.elements() == past.take(iter.index()),
        {
            cut.put(element);
        }
        assert(past.take(past.len() as int) =~= past);
        StackVec { data }
    }

    /// Sets the length of the vector to a smaller one, without dropping the elements past it.
    pub fn set_len(&mut self, new_len: usize)
        requires
            new_len <= old(self)@.len(),
        ensures
            final(self)@ == old(self)@.take(new_len as int),
            forgotten(old(self)@.skip(new_len as int).reverse()),
            old(self).wf() ==> final(self).wf(),
    {
        let mut past: Forgotten<T> = Forgotten::none();
        while new_len < self.data.len()
            invariant
                new_len <= self.data@.len() <= old(self)@.len(),
                self.data@ == old(self)@.take(self.data@.len() as int),
                past.elements() == old(self)@.skip(self.data@.len() as int).reverse(),
            decreases self.data@.len(),
        {
            if let Some(last) = self.data.pop() {
                past.put(last);
            }
        }
    }

    /// The number of elements stored in the vector.
    pub fn len(&self) -> (len: usize)
        ensures
            len == self@.len(),
    {
        self.data.len()
    }

    /// If the vector is empty.
    pub fn is_empty(&self) -> (empty: bool)
        ensures
            empty == (self@.len() == 0),
    {
        self.len() == 0
    }

    /// The number of elements the vector can hold.
    pub fn capacity(&self) -> (capacity: usize)
        ensures
            capacity == N,
    {
        N
    }

    /// Empties the vector and gives an iterator over its former contents.
    pub fn drain(&mut self) -> (d: Drain<'_, T>)
        ensures
            d@ == old(self)@,
            final(self)@ == Seq::<T>::empty(),
            final(self).wf(),
    {
        let mut taken: Vec<T> = Vec::new();
        core::mem::swap(&mut self.data, &mut taken);
        Drain::new(taken)
    }

    /// Appends an element to the vector.
    pub fn push(&mut self, value: T)
        requires
            old(self)@.len() < N,
        ensures
            final(self)@ == old(self)@.push(value),
            final(self).wf(),
    {
        self.data.push(value);
    }

    /// Removes the last element and gives it, or `None` if the vector is empty.
    pub fn pop(&mut self) -> (popped: Option<T>)
        ensures
            old(self)@.len() == 0 ==> popped is None && final(self)@ == old(self)@,
            old(self)@.len() > 0 ==> popped == Some(old(self)@.last()) && final(self)@ == old(
                self,
            )@.drop_last(),
            old(self).wf() ==> final(self).wf(),
    {
        self.data.pop()
    }

    /// Shortens the vector, keeping the first `len` elements and dropping the rest, the last one
    /// first. If the vector has no more than `len` elements, this has no effect.
    pub fn truncate(&mut self, len: usize)
        ensures
            final(self)@ == shortened(old(self)@, len as int),
            old(self)@.len() <= len ==> final(self)@ == old(self)@,
            old(self)@.len() > len ==> final(self)@ == old(self)@.take(len as int),
            dropped(old(self)@.skip(final(self)@.len() as int).reverse()),
            old(self).wf() ==> final(self).wf(),
    {
        let mut cut: Dropped<T> = Dropped::none();
        while len < self.data.len()
            invariant
                self.data@.len() <= old(self)@.len(),
                len <= self.data@.len() || self.data@.len() == old(self)@.len(),
                self.data@ == old(self)@.take(self.data@.len() as int),
                cut.elements() == old(self)@.skip(self.data@.len() as int).reverse(),
            decreases self.data@.len(),
        {
            if let Some(last) = self.data.pop() {
                cut.put(last);
            }
        }
    }

    /// The elements as a slice.
    pub fn as_slice(&self) -> (slice: &[T])
        ensures
            slice@ == self@,
    {
        self.data.as_slice()
    }

    /// The elements as a mutable slice: what is written to it is written to the vector.
    pub fn as_mut_slice(&mut self) -> (slice: &mut [T])
        ensures
            slice@ == old(self)@,
            final(self)@ == final(slice)@,
            final(slice)@.len() == old(self)@.len() && old(self).wf() ==> final(self).wf(),
    {
        self.data.as_mut_slice()
    }

    /// Removes the element at position `index`, replacing it with the last element. This does
    /// not preserve the order, but moves one element only.
    pub fn swap_remove(&mut self, index: usize) -> (removed: T)
        requires
            index < old(self)@.len(),
        ensures
            removed == old(self)@[index as int],
            final(self)@ == old(self)@.update(index as int, old(self)@.last()).drop_last(),
            old(self).wf() ==> final(self).wf(),
    {
        let last: usize = self.len() - 1;
        if index != last {
            swap_at(&mut self.data, index, last);
        }
        let removed = self.data.pop().unwrap();
        assert(self@ =~= old(self)@.update(index as int, old(self)@.last()).drop_last());
        removed
    }

    /// Removes all elements from the vector, and drops them, the last one first.
    pub fn clear(&mut self)
        ensures
            final(self)@ == Seq::<T>::empty(),
            dropped(old(self)@.reverse()),
            final(self).wf(),
    {
        self.truncate(0);
        assert(old(self)@.skip(0) =~= old(self)@);
    }

    /// Removes and returns the element at position `index`, shifting all elements after it to
    /// the left.
    pub fn remove(&mut self, index: usize) -> (removed: T)
        requires
            index < old(self)@.len(),
        ensures
            removed == old(self)@[index as int],
            final(self)@ == old(self)@.remove(index as int),
            old(self).wf() ==> final(self).wf(),
    {
        self.data.remove(index)
    }

    /// Inserts an element at position `index`, shifting the element there and all after it to
    /// the right.
    pub fn insert(&mut self, index: usize, element: T)
        requires
            index < old(self)@.len() < N,
        ensures
            final(self)@ == old(self)@.insert(index as int, element),
            final(self).wf(),
    {
        self.data.insert(index, element);
    }

    /// Inserts what an iterator yields at position `index`, shifting all following elements
    /// toward the back.
    ///
    /// What has to fit is the elements that the iterator yields. Its size hint decides only for how
    /// many of them room is made at first, and where it asks for more room than there is, for as
    /// many as there is room for; a caller that wants the hint to fit tests it and calls
    /// `insert_many_hinted`.
    pub fn insert_many<I: Iterator<Item = T>>(&mut self, index: usize, iterable: I)
        requires
            index <= old(self)@.len(),
            iterable.obeys_prophetic_iter_laws(),
            old(self)@.len() + iterable.remaining().len() <= N,
        ensures
            final(self)@ == splice(old(self)@, index as int, iterable.remaining()),
            fetched(iterable, iterable.remaining(), 1) || index < old(self)@.len() && fetched(
                iterable,
                iterable.remaining(),
                2,
            ),
            final(self).wf(),
    {
        if index == self.len() {
            self.extend(iterable);
            assert(self@ =~= splice(old(self)@, index as int, iterable.remaining()));
            return ;
        }
        let room: usize = N - self.len();
        let hint: usize = size_hint_lower(&iterable);
        let lower_bound: usize = if hint <= room {
            hint
        } else {
            room
        };
        self.insert_many_hinted(index, iterable, lower_bound);
    }

    /// Inserts what an iterator yields at position `index`, in front of an element, shifting all
    /// following elements toward the back. Room is made at once for `lower_bound` elements, which
    /// the iterator is expected to yield at least, and one by one for further ones.
    ///
    /// The iterator is asked until it has nothing left, and once again where this comes before
    /// `lower_bound` elements.
    ///
    /// While the first `lower_bound` elements are fetched the vector is empty, so that this is what
    /// is left of it if the iterator panics then.
    pub fn insert_many_hinted<I: Iterator<Item = T>>(
        &mut self,
        index: usize,
        iterable: I,
        lower_bound: usize,
    )
        requires
            index < old(self)@.len(),
            old(self)@.len() + lower_bound <= N,
            iterable.obeys_prophetic_iter_laws(),
            old(self)@.len() + iterable.remaining().len() <= N,
        ensures
            final(self)@ == splice(old(self)@, index as int, iterable.remaining()),
            iterable.remaining().len() < lower_bound ==> fetched(iterable, iterable.remaining(), 2),
            iterable.remaining().len() >= lower_bound ==> fetched(
                iterable,
                iterable.remaining(),
                1,
            ),
            final(self).wf(),
    {
        let ghost before = self@;
        let ghost all = iterable.remaining();
        let ghost mut ends: int = 0;
        let mut fetcher: Fetcher<T, I> = Fetcher::new(iterable);
        let mut tail = self.data.split_off(index);
        let mut head: Vec<T> = Vec::new();
        core::mem::swap(&mut self.data, &mut head);
        let mut added: usize = 0;
        while added < lower_bound
            invariant_except_break
                added <= lower_bound,
                ends == 0,
            invariant
                fetcher.source() == iterable,
                fetcher.iter().obeys_prophetic_iter_laws(),
                added <= all.len(),
                fetcher.answers().len() == added + ends,
                forall|i: int|
                    0 <= i < added ==> (#[trigger] fetcher.answers()[i]) == Some(all[i]),
                forall|i: int|
                    added <= i < added + ends ==> (#[trigger] fetcher.answers()[i]) is None,
                head@ == before.take(index as int) + all.take(added as int),
                fetcher.iter().remaining() == all.skip(added as int),
            ensures
                ends == 0 && added >= lower_bound || ends == 1 && added == all.len() && added
                    < lower_bound,
            decreases lower_bound - added,
        {
            match fetcher.next() {
                Some(element) => {
                    head.push(element);
                    added += 1;
                    assert(all.take(added as int) =~= all.take(added - 1).push(all[added - 1]));
                },
                None => {
                    proof {
                        ends = ends + 1;
                    }
                    break;
                },
            }
        }
        head.append(&mut tail);
        core::mem::swap(&mut self.data, &mut head);
        let ghost early = ends;
        loop
            invariant_except_break
                ends == early,
            invariant
                fetcher.source() == iterable,
                fetcher.iter().obeys_prophetic_iter_laws(),
                0 <= early,
                early > 0 ==> added == all.len(),
                fetcher.answers().len() == added + ends,
                forall|i: int|
                    0 <= i < added ==> (#[trigger] fetcher.answers()[i]) == Some(all[i]),
                forall|i: int|
                    added <= i < added + ends ==> (#[trigger] fetcher.answers()[i]) is None,
                index < before.len(),
                before.len() + all.len() <= N,
                added <= all.len(),
                self@ == splice(before, index as int, all.take(added as int)),
                fetcher.iter().remaining() == all.skip(added as int),
            ensures
                added == all.len(),
                ends == early + 1,
            decreases N - self@.len(),
        {
            match fetcher.next() {
                Some(element) => {
                    self.insert(index + added, element);
                    added += 1;
                    assert(self@ =~= splice(before, index as int, all.take(added as int)));
                },
                None => {
                    proof {
                        ends = ends + 1;
                    }
                    break;
                },
            }
        }
        let _fetched = fetcher.finish();
        assert(all.take(added as int) =~= all);
        assert(_fetched.answers().len() == all.len() + ends);
    }

    /// Appends what an iterator yields. The iterator is asked until it has nothing left, and not
    /// again.
    pub fn extend<I: Iterator<Item = T>>(&mut self, iterable: I)
        requires
            iterable.obeys_prophetic_iter_laws(),
            old(self)@.len() + iterable.remaining().len() <= N,
        ensures
            final(self)@ == old(self)@ + iterable.remaining(),
            fetched(iterable, iterable.remaining(), 1),
            final(self).wf(),
    {
        let ghost yielded = iterable.remaining();
        let mut fetcher: Fetcher<T, I> = Fetcher::new(iterable);
        let ghost all = self@ + yielded;
        let ghost mut count: int = 0;
        loop
            invariant_except_break
                fetcher.answers().len() == count,
                forall|i: int|
                    0 <= i < count ==> (#[trigger] fetcher.answers()[i]) == Some(yielded[i]),
            invariant
                fetcher.source() == iterable,
                fetcher.iter().obeys_prophetic_iter_laws(),
                self@ + fetcher.iter().remaining() == all,
                all.len() <= N,
                0 <= count <= yielded.len(),
                fetcher.iter().remaining() == yielded.skip(count),
            ensures
                self@ == all,
                fetcher.answers().len() == yielded.len() + 1,
                forall|i: int|
                    0 <= i < yielded.len() ==> (#[trigger] fetcher.answers()[i]) == Some(
                        yielded[i],
                    ),
                fetcher.answers().last() is None,
            decreases N - self@.len(),
        {
            match fetcher.next() {
                Some(element) => {
                    self.push(element);
                    proof {
                        count = count + 1;
                    }
                },
                None => break,
            }
        }
        let _fetched = fetcher.finish();
        assert(_fetched.answers().len() == yielded.len() + 1);
    }

    /// Constructs a vector from what an iterator yields.
    pub fn from_iter<I: Iterator<Item = T>>(iterable: I) -> (v: StackVec<T, N>)
        requires
            iterable.obeys_prophetic_iter_laws(),
            iterable.remaining().len() <= N,
        ensures
            v@ == iterable.remaining(),
            fetched(iterable, iterable.remaining(), 1),
            v.wf(),
    {
        let mut v: StackVec<T, N> = StackVec::new();
        v.extend(iterable);
        assert(v@ =~= iterable.remaining());
        v
    }

    /// Converts the vector to a `Vec`.
    pub fn into_vec(self) -> (vec: Vec<T>)
        ensures
            vec@ == self@,
    {
        self.data
    }

    /// Converts a full vector into an array; gives the vector back if it is not full.
    pub fn into_inner(self) -> (result: Result<[T; N], StackVec<T, N>>)
        ensures
            self@.len() == N ==> result is Ok && result->Ok_0@ == self@,
            self@.len() != N ==> result is Err && result->Err_0@ == self@,
    {
        match vec_into_array(self.data) {
            Ok(array) => Ok(array),
            Err(data) => Err(StackVec { data }),
        }
    }

    /// Retains only the elements specified by the predicate.
    ///
    /// In other words, removes all elements `e` such that `f(&mut e)` returns `false`, and drops
    /// them. This visits each element once, in order, and preserves the order of the retained
    /// elements, which stay as `f` left them. Where `f` changes no element and answers as a
    /// predicate does, what stays is the elements that the predicate holds of.
    pub fn retain<F: FnMut(&mut T) -> bool>(&mut self, f: F)
        requires
            forall|e: &mut T| old(self)@.contains(*e) ==> #[trigger] call_requires(f, (e,)),
        ensures
            old(self).wf() ==> final(self).wf(),
            exists|calls: Seq<Call<T, bool>>, gone: Seq<T>|
                {
                    &&& #[trigger] called(f, calls)
                    &&& #[trigger] dropped(gone)
                    &&& calls.len() == old(self)@.len()
                    &&& forall|i: int|
                        0 <= i < calls.len() ==> (#[trigger] calls[i]).before == old(self)@[i]
                            && exists|e: &mut T|
                            {
                                &&& *e == calls[i].before
                                &&& *final(e) == calls[i].after
                                &&& #[trigger] call_ensures(f, (e,), calls[i].result)
                            }
                    &&& final(self)@ == answered(calls, true)
                    &&& gone.to_multiset() == answered(calls, false).to_multiset()
                },
            exists|after: Seq<T>, keep: Seq<bool>|
                {
                    &&& after.len() == keep.len() == old(self)@.len()
                    &&& forall|i: int| #[trigger]
                        within(i, old(self)@) ==> exists|e: &mut T|
                            {
                                &&& *e == old(self)@[i]
                                &&& *final(e) == after[i]
                                &&& #[trigger] call_ensures(f, (e,), keep[i])
                            }
                    &&& final(self)@ == #[trigger] keep_marked(after, keep)
                },
            forall|p: spec_fn(T) -> bool|
                (forall|e: &mut T, keep: bool| #[trigger]
                    call_ensures(f, (e,), keep) ==> *final(e) == *e && keep == p(*e))
                    ==> final(self)@ == #[trigger] old(self)@.filter(p),
    {
        let ghost before = self.data@;
        let ghost given = f;
        let ghost mut after: Seq<T> = Seq::empty();
        let ghost mut keep: Seq<bool> = Seq::empty();
        let len: usize = self.data.len();
        let mut recorder: Recorder<T, bool, F> = Recorder::new(f);
        let mut del: usize = 0;
        let mut i: usize = 0;
        proof {
            let none = Call { before: arbitrary(), after: arbitrary(), result: true };
            lemma_answered(recorder.calls(), none, true);
            lemma_answered(recorder.calls(), none, false);
            assert(self.data@.subrange(0, 0) =~= Seq::<T>::empty());
            assert(self.data@.take(0) =~= Seq::<T>::empty());
        }
        while i < len
            invariant
                before == old(self)@,
                recorder.function() == given,
                forall|e: &mut T| before.contains(*e) ==> #[trigger] call_requires(given, (e,)),
                len == before.len() == self.data@.len(),
                del <= i <= len,
                recorder.calls().len() == i,
                forall|j: int|
                    0 <= j < i ==> (#[trigger] recorder.calls()[j]) == (Call {
                        before: before[j],
                        after: after[j],
                        result: keep[j],
                    }),
                answered(recorder.calls(), true) == self.data@.take(i - del),
                answered(recorder.calls(), false).to_multiset() == self.data@.subrange(
                    i - del,
                    i as int,
                ).to_multiset(),
                after.len() == keep.len() == i,
                keep_marked(after, keep) == self.data@.take(i - del),
                forall|j: int| i <= j < len ==> self.data@[j] == before[j],
                forall|j: int| #[trigger]
                    within(j, before) && j < i ==> exists|e: &mut T|
                        {
                            &&& *e == before[j]
                            &&& *final(e) == after[j]
                            &&& #[trigger] call_ensures(given, (e,), keep[j])
                        },
            decreases len - i,
        {
            let ghost prev = self.data@;
            let ghost calls = recorder.calls();
            let ghost del0 = del;
            let ghost i0 = i;
            assert(before.contains(before[i as int]));
            let kept: bool = recorder.call(&mut self.data[i]);
            let ghost called_on = self.data@;
            proof {
                let after0 = after;
                let keep0 = keep;
                after = after.push(self.data@[i as int]);
                keep = keep.push(kept);
                assert(after.drop_last() =~= after0);
                assert(keep.drop_last() =~= keep0);
                assert(self.data@.take(i - del) =~= prev.take(i - del));
                assert forall|j: int| #[trigger] within(j, before) && j <= i implies exists|
                    e: &mut T,
                |
                    {
                        &&& *e == before[j]
                        &&& *final(e) == after[j]
                        &&& #[trigger] call_ensures(given, (e,), keep[j])
                    } by {
                    if j < i {
                        assert(after[j] == after0[j]);
                        assert(keep[j] == keep0[j]);
                    } else {
                        assert(keep[j] == kept);
                    }
                }
                lemma_answered(calls, recorder.calls().last(), true);
                lemma_answered(calls, recorder.calls().last(), false);
            }
            if !kept {
                del += 1;
            } else if del > 0 {
                swap_at(&mut self.data, i - del, i);
            }
            i += 1;
            proof {
                assert(keep_marked(after, keep) =~= self.data@.take(i - del));
                assert(answered(recorder.calls(), true) =~= self.data@.take(i - del));
                lemma_sweep(prev, called_on, self.data@, i0 - del0, i0 as int, kept);
                if !kept {
                    vstd::seq_lib::lemma_multiset_commutative(
                        answered(calls, false),
                        seq![called_on[i0 as int]],
                    );
                    assert(answered(recorder.calls(), false) =~= answered(calls, false) + seq![
                        called_on[i0 as int],
                    ]);
                }
            }
        }
        let ghost swept = self.data@;
        self.truncate(len - del);
        let ghost calls = recorder.calls();
        let _record = recorder.finish();
        proof {
            let gone = swept.skip(len - del).reverse();
            swept.skip(len - del).lemma_reverse_to_multiset();
            assert(swept.skip(len - del) =~= swept.subrange(len - del, len as int));
            assert(_record.calls() == calls);
            assert(called(given, calls));
            assert forall|j: int| 0 <= j < calls.len() implies (#[trigger] calls[j]).before
                == before[j] && exists|e: &mut T|
                {
                    &&& *e == calls[j].before
                    &&& *final(e) == calls[j].after
                    &&& #[trigger] call_ensures(given, (e,), calls[j].result)
                } by {
                assert(within(j, before));
                assert(calls[j].result == keep[j]);
            }
            assert(self@ =~= keep_marked(after, keep));
            assert forall|p: spec_fn(T) -> bool|
                (forall|e: &mut T, answer: bool| #[trigger]
                    call_ensures(given, (e,), answer) ==> *final(e) == *e && answer == p(
                        *e,
                    )) implies self@ == #[trigger] before.filter(p) by {
                assert forall|j: int| 0 <= j < len implies #[trigger] after[j] == before[j]
                    && keep[j] == p(before[j]) by {
                    assert(within(j, before));
                }
                assert(after =~= before);
                assert(forall|j: int| 0 <= j < len ==> #[trigger] keep[j] == p(after[j]));
                lemma_keep_marked_filter(before, keep, p);
            }
        }
    }

    /// Removes consecutive duplicate elements using the given equality relation.
    ///
    /// Each element after the first is handed to `same_bucket` together with the last element
    /// kept so far, the later one first. It goes where the answer is `true`, and is kept as the
    /// call left it where the answer is `false`; the last one kept stays as the call left it in
    /// both cases. Where `same_bucket` changes no element and answers as a relation does, this
    /// leaves what `deduped` does with the relation.
    ///
    /// Either `same_bucket` takes any two elements, or there is a property of elements that all
    /// elements of the vector have, on which `same_bucket` can be called and which its calls keep.
    pub fn dedup_by<F>(&mut self, same_bucket: F) where F: FnMut(&mut T, &mut T) -> bool
        requires
            (forall|a: &mut T, b: &mut T| #[trigger] call_requires(same_bucket, (a, b))) || (exists|
                ok: spec_fn(T) -> bool,
            |
                {
                    &&& #[trigger] all_satisfy(old(self)@, ok)
                    &&& forall|a: &mut T, b: &mut T|
                        ok(*a) && ok(*b) ==> #[trigger] call_requires(same_bucket, (a, b))
                    &&& forall|a: &mut T, b: &mut T, same: bool|
                        ok(*a) && ok(*b) && #[trigger] call_ensures(same_bucket, (a, b), same)
                            ==> ok(*final(a)) && ok(*final(b))
                }),
        ensures
            old(self).wf() ==> final(self).wf(),
            old(self)@.len() == 0 ==> final(self)@ == old(self)@ && called_on_pairs(
                same_bucket,
                Seq::<PairCall<T>>::empty(),
            ),
            old(self)@.len() > 0 ==> exists|
                kept: Seq<Seq<T>>,
                same: Seq<bool>,
                calls: Seq<PairCall<T>>,
                gone: Seq<T>,
            |
                {
                    &&& #[trigger] called_on_pairs(same_bucket, calls)
                    &&& #[trigger] dropped(gone)
                    &&& gone.to_multiset() == answered_on_pairs(calls, true).to_multiset()
                    &&& calls.len() + 1 == old(self)@.len()
                    &&& #[trigger] kept.len() == #[trigger] same.len() == old(self)@.len()
                    &&& kept[0] == old(self)@.take(1)
                    &&& forall|r: int|
                        1 <= r && #[trigger] within(r, old(self)@) ==> exists|a: &mut T, b: &mut T|
                            {
                                &&& *a == old(self)@[r]
                                &&& *b == kept[r - 1].last()
                                &&& #[trigger] call_ensures(same_bucket, (a, b), same[r])
                                &&& calls[r - 1] == (PairCall {
                                    first_before: *a,
                                    first_after: *final(a),
                                    second_before: *b,
                                    second_after: *final(b),
                                    result: same[r],
                                })
                                &&& kept[r] == dedup_step(
                                    kept[r - 1],
                                    *final(b),
                                    *final(a),
                                    same[r],
                                )
                            }
                    &&& final(self)@ == kept.last()
                },
            (forall|a: &mut T, b: &mut T, same: bool| #[trigger]
                call_ensures(same_bucket, (a, b), same) ==> *final(a) == *a && *final(b) == *b)
                ==> exists|gone: Seq<T>| #[trigger]
                dropped(gone) && final(self)@.to_multiset().add(gone.to_multiset()) == old(
                    self,
                )@.to_multiset(),
            forall|relation: spec_fn(T, T) -> bool|
                (forall|a: &mut T, b: &mut T, same: bool| #[trigger]
                    call_ensures(same_bucket, (a, b), same) ==> *final(a) == *a && *final(b) == *b
                        && same == relation(*a, *b)) ==> final(self)@ == #[trigger] deduped(
                    old(self)@,
                    relation,
                ),
    {
        let ghost before = self.data@;
        let ghost given = same_bucket;
        let ghost mut kept: Seq<Seq<T>> = seq![before.take(1)];
        let ghost mut same: Seq<bool> = seq![false];
        let len: usize = self.data.len();
        let mut recorder: PairRecorder<T, F> = PairRecorder::new(same_bucket);
        proof {
            lemma_answered_on_pairs(recorder.calls(), arbitrary(), true);
        }
        if len <= 1 {
            let _record = recorder.finish();
            let _none: Dropped<T> = Dropped::none();
            proof {
                assert(len == 1 ==> before.take(1) =~= before);
                assert(kept.len() == same.len());
                assert(called_on_pairs(given, _record.calls()));
                assert(dropped(_none.elements()));
                vstd::seq_lib::lemma_multiset_commutative(before, _none.elements());
                assert(before + _none.elements() =~= before);
            }
            return ;
        }
        assert(self.data@.subrange(1, 1) =~= Seq::<T>::empty());
        assert(all_satisfy(before, |e: T| true));
        let mut w: usize = 1;
        let mut r: usize = 1;
        while r < len
            invariant
                before == old(self)@,
                recorder.function() == given,
                recorder.calls().len() + 1 == r,
                answered_on_pairs(recorder.calls(), true).to_multiset() == self.data@.subrange(
                    w as int,
                    r as int,
                ).to_multiset(),
                exists|ok: spec_fn(T) -> bool|
                    {
                        &&& #[trigger] all_satisfy(self.data@, ok)
                        &&& forall|a: &mut T, b: &mut T|
                            ok(*a) && ok(*b) ==> #[trigger] call_requires(given, (a, b))
                        &&& forall|a: &mut T, b: &mut T, answer: bool|
                            ok(*a) && ok(*b) && #[trigger] call_ensures(given, (a, b), answer)
                                ==> ok(*final(a)) && ok(*final(b))
                    },
                len == before.len() == self.data@.len(),
                1 <= w <= r <= len,
                kept.len() == same.len() == r,
                !same[0],
                kept[0] == before.take(1),
                kept.last() == self.data@.take(w as int),
                forall|j: int| r <= j < len ==> self.data@[j] == before[j],
                forall|j: int|
                    1 <= j < r && #[trigger] within(j, before) ==> exists|a: &mut T, b: &mut T|
                        {
                            &&& *a == before[j]
                            &&& *b == kept[j - 1].last()
                            &&& #[trigger] call_ensures(given, (a, b), same[j])
                            &&& recorder.calls()[j - 1] == (PairCall {
                                first_before: *a,
                                first_after: *final(a),
                                second_before: *b,
                                second_after: *final(b),
                                result: same[j],
                            })
                            &&& kept[j] == dedup_step(kept[j - 1], *final(b), *final(a), same[j])
                        },
            decreases len - r,
        {
            let ghost prev = self.data@;
            let ghost w0 = w;
            let ghost calls = recorder.calls();
            assert(prev[w - 1] == kept.last().last());
            let (left, right) = self.data.as_mut_slice().split_at_mut(r);
            let found: bool = recorder.call(&mut right[0], &mut left[w - 1]);
            let ghost called = self.data@;
            assert(called =~= prev.update(w - 1, called[w - 1]).update(r as int, called[r as int]));
            w = settle(&mut self.data, w, r, found);
            proof {
                let kept0 = kept;
                let same0 = same;
                kept = kept.push(self.data@.take(w as int));
                same = same.push(found);
                lemma_answered_on_pairs(calls, recorder.calls().last(), true);
                lemma_gone(
                    answered_on_pairs(calls, true),
                    prev,
                    called,
                    self.data@,
                    w0 as int,
                    r as int,
                    found,
                );
                lemma_round(prev, called, self.data@, w0 as int, r as int, found);
                assert forall|j: int| 1 <= j <= r && #[trigger] within(j, before) implies exists|
                    a: &mut T,
                    b: &mut T,
                |
                    {
                        &&& *a == before[j]
                        &&& *b == kept[j - 1].last()
                        &&& #[trigger] call_ensures(given, (a, b), same[j])
                        &&& recorder.calls()[j - 1] == (PairCall {
                            first_before: *a,
                            first_after: *final(a),
                            second_before: *b,
                            second_after: *final(b),
                            result: same[j],
                        })
                        &&& kept[j] == dedup_step(kept[j - 1], *final(b), *final(a), same[j])
                    } by {
                    assert(kept[j - 1] == kept0[j - 1]);
                    if j < r {
                        assert(kept[j] == kept0[j]);
                        assert(same[j] == same0[j]);
                        assert(recorder.calls()[j - 1] == calls[j - 1]);
                    } else {
                        assert(same[j] == found);
                    }
                }
            }
            r += 1;
        }
        let ghost swept = self.data@;
        self.truncate(w);
        let ghost calls = recorder.calls();
        let _record = recorder.finish();
        proof {
            swept.skip(w as int).lemma_reverse_to_multiset();
            assert(swept.skip(w as int) =~= swept.subrange(w as int, len as int));
            assert(_record.calls() == calls);
            assert(called_on_pairs(given, calls));
            assert(dropped(swept.skip(w as int).reverse()));
            assert(kept.len() == same.len());
            assert(self@ =~= kept.last());
            if forall|a: &mut T, b: &mut T, answer: bool| #[trigger]
                call_ensures(given, (a, b), answer) ==> *final(a) == *a && *final(b) == *b {
                assert forall|j: int| 1 <= j && #[trigger] within(j, before) implies calls[j
                    - 1].first_after == before[j] && calls[j - 1].result == same[j] && kept[j]
                    == dedup_step(kept[j - 1], kept[j - 1].last(), before[j], same[j]) by {
                }
                lemma_marked_calls(before, same, calls, len - 1);
                lemma_trace_account(before, kept, same, len - 1);
                assert(before.take(len as int) =~= before);
                assert(same.take(len as int) =~= same);
                assert(calls.take(len - 1) =~= calls);
            }
            assert forall|relation: spec_fn(T, T) -> bool|
                (forall|a: &mut T, b: &mut T, answer: bool| #[trigger]
                    call_ensures(given, (a, b), answer) ==> *final(a) == *a && *final(b) == *b
                        && answer == relation(*a, *b)) implies self@ == #[trigger] deduped(
                before,
                relation,
            ) by {
                lemma_trace_deduped(before, kept, same, relation, len - 1);
                assert(before.take(len as int) =~= before);
            }
        }
    }

    /// Removes consecutive elements that map to the same key.
    ///
    /// Each element after the first is compared by its key with the last element kept so far, the
    /// later one's key computed first. Where `key` changes no element and answers as a function
    /// does, and `==` on keys means what its specification says, this leaves what `deduped` does
    /// with the relation of having the same key.
    ///
    /// Either `key` takes any element, or there is a property of elements that all elements of the
    /// vector have, on which `key` can be called and which its calls keep.
    pub fn dedup_by_key<F, K>(&mut self, key: F) where F: FnMut(&mut T) -> K, K: PartialEq<K>
        requires
            (forall|e: &mut T| #[trigger] call_requires(key, (e,))) || (exists|
                ok: spec_fn(T) -> bool,
            |
                {
                    &&& #[trigger] all_satisfy(old(self)@, ok)
                    &&& forall|e: &mut T| ok(*e) ==> #[trigger] call_requires(key, (e,))
                    &&& forall|e: &mut T, out: K|
                        ok(*e) && #[trigger] call_ensures(key, (e,), out) ==> ok(*final(e))
                }),
        ensures
            old(self).wf() ==> final(self).wf(),
            old(self)@.len() == 0 ==> final(self)@ == old(self)@ && called(
                key,
                Seq::<Call<T, K>>::empty(),
            ),
            old(self)@.len() > 0 ==> exists|
                kept: Seq<Seq<T>>,
                same: Seq<bool>,
                calls: Seq<Call<T, K>>,
                found: Seq<T>,
                gone: Seq<T>,
            |
                {
                    &&& #[trigger] called(key, calls)
                    &&& #[trigger] dropped(gone)
                    &&& gone.to_multiset() == #[trigger] keep_marked(found, same).to_multiset()
                    &&& found.len() == old(self)@.len()
                    &&& calls.len() == 2 * (old(self)@.len() - 1)
                    &&& !same[0]
                    &&& #[trigger] kept.len() == #[trigger] same.len() == old(self)@.len()
                    &&& kept[0] == old(self)@.take(1)
                    &&& forall|r: int|
                        1 <= r && #[trigger] within(r, old(self)@) ==> exists|
                            a: &mut T,
                            b: &mut T,
                            key_a: K,
                            key_b: K,
                        |
                            {
                                &&& *a == old(self)@[r]
                                &&& *b == kept[r - 1].last()
                                &&& #[trigger] call_ensures(key, (a,), key_a)
                                &&& #[trigger] call_ensures(key, (b,), key_b)
                                &&& calls[2 * r - 2] == (Call {
                                    before: *a,
                                    after: *final(a),
                                    result: key_a,
                                })
                                &&& calls[2 * r - 1] == (Call {
                                    before: *b,
                                    after: *final(b),
                                    result: key_b,
                                })
                                &&& found[r] == *final(a)
                                &&& call_ensures(<K as PartialEq<K>>::eq, (&key_a, &key_b), same[r])
                                &&& kept[r] == dedup_step(
                                    kept[r - 1],
                                    *final(b),
                                    *final(a),
                                    same[r],
                                )
                            }
                    &&& final(self)@ == kept.last()
                },
            K::obeys_eq_spec() ==> forall|k: spec_fn(T) -> K|
                (forall|e: &mut T, out: K| #[trigger]
                    call_ensures(key, (e,), out) ==> *final(e) == *e && out == k(*e))
                    ==> final(self)@ == #[trigger] deduped(old(self)@, same_key(k)),
    {
        let ghost before = self.data@;
        let ghost given = key;
        let ghost mut kept: Seq<Seq<T>> = seq![before.take(1)];
        let ghost mut same: Seq<bool> = seq![false];
        let len: usize = self.data.len();
        let ghost mut found: Seq<T> = before.take(1);
        let mut recorder: Recorder<T, K, F> = Recorder::new(key);
        assert(len > 0 ==> keep_marked(found.drop_last(), same.drop_last()) =~= Seq::<T>::empty());
        if len <= 1 {
            let _record = recorder.finish();
            let _none: Dropped<T> = Dropped::none();
            proof {
                assert(len == 1 ==> before.take(1) =~= before);
                assert(kept.len() == same.len());
                assert(called(given, _record.calls()));
                if len == 1 {
                    assert(keep_marked(found, same) =~= _none.elements());
                    assert(keep_marked(found, same).to_multiset() == _none.elements().to_multiset());
                }
                assert(dropped(_none.elements()));
            }
            return ;
        }
        assert(self.data@.subrange(1, 1) =~= Seq::<T>::empty());
        assert(all_satisfy(before, |e: T| true));
        let mut w: usize = 1;
        let mut r: usize = 1;
        while r < len
            invariant
                before == old(self)@,
                recorder.function() == given,
                recorder.calls().len() == 2 * (r - 1),
                found.len() == r,
                !same[0],
                keep_marked(found, same).to_multiset() == self.data@.subrange(
                    w as int,
                    r as int,
                ).to_multiset(),
                exists|ok: spec_fn(T) -> bool|
                    {
                        &&& #[trigger] all_satisfy(self.data@, ok)
                        &&& forall|e: &mut T| ok(*e) ==> #[trigger] call_requires(given, (e,))
                        &&& forall|e: &mut T, out: K|
                            ok(*e) && #[trigger] call_ensures(given, (e,), out) ==> ok(*final(e))
                    },
                len == before.len() == self.data@.len(),
                1 <= w <= r <= len,
                kept.len() == same.len() == r,
                kept[0] == before.take(1),
                kept.last() == self.data@.take(w as int),
                forall|j: int| r <= j < len ==> self.data@[j] == before[j],
                forall|j: int|
                    1 <= j < r && #[trigger] within(j, before) ==> exists|
                        a: &mut T,
                        b: &mut T,
                        key_a: K,
                        key_b: K,
                    |
                        {
                            &&& *a == before[j]
                            &&& *b == kept[j - 1].last()
                            &&& #[trigger] call_ensures(given, (a,), key_a)
                            &&& #[trigger] call_ensures(given, (b,), key_b)
                            &&& recorder.calls()[2 * j - 2] == (Call {
                                before: *a,
                                after: *final(a),
                                result: key_a,
                            })
                            &&& recorder.calls()[2 * j - 1] == (Call {
                                before: *b,
                                after: *final(b),
                                result: key_b,
                            })
                            &&& found[j] == *final(a)
                            &&& call_ensures(<K as PartialEq<K>>::eq, (&key_a, &key_b), same[j])
                            &&& kept[j] == dedup_step(kept[j - 1], *final(b), *final(a), same[j])
                        },
            decreases len - r,
        {
            let ghost prev = self.data@;
            let ghost w0 = w;
            let ghost calls = recorder.calls();
            assert(prev[w - 1] == kept.last().last());
            let key_r = recorder.call(&mut self.data[r]);
            let key_last = recorder.call(&mut self.data[w - 1]);
            let equal: bool = key_r.eq(&key_last);
            let ghost keyed = self.data@;
            assert(keyed =~= prev.update(w - 1, keyed[w - 1]).update(r as int, keyed[r as int]));
            w = settle(&mut self.data, w, r, equal);
            proof {
                let kept0 = kept;
                let same0 = same;
                kept = kept.push(self.data@.take(w as int));
                same = same.push(equal);
                let found0 = found;
                found = found.push(keyed[r as int]);
                assert(found.drop_last() =~= found0);
                assert(same.drop_last() =~= same0);
                lemma_gone(
                    keep_marked(found0, same0),
                    prev,
                    keyed,
                    self.data@,
                    w0 as int,
                    r as int,
                    equal,
                );
                lemma_round(prev, keyed, self.data@, w0 as int, r as int, equal);
                assert forall|j: int| 1 <= j <= r && #[trigger] within(j, before) implies exists|
                    a: &mut T,
                    b: &mut T,
                    key_a: K,
                    key_b: K,
                |
                    {
                        &&& *a == before[j]
                        &&& *b == kept[j - 1].last()
                        &&& #[trigger] call_ensures(given, (a,), key_a)
                        &&& #[trigger] call_ensures(given, (b,), key_b)
                        &&& recorder.calls()[2 * j - 2] == (Call {
                            before: *a,
                            after: *final(a),
                            result: key_a,
                        })
                        &&& recorder.calls()[2 * j - 1] == (Call {
                            before: *b,
                            after: *final(b),
                            result: key_b,
                        })
                        &&& found[j] == *final(a)
                        &&& call_ensures(<K as PartialEq<K>>::eq, (&key_a, &key_b), same[j])
                        &&& kept[j] == dedup_step(kept[j - 1], *final(b), *final(a), same[j])
                    } by {
                    assert(kept[j - 1] == kept0[j - 1]);
                    if j < r {
                        assert(kept[j] == kept0[j]);
                        assert(same[j] == same0[j]);
                        assert(found[j] == found0[j]);
                        assert(recorder.calls()[2 * j - 2] == calls[2 * j - 2]);
                        assert(recorder.calls()[2 * j - 1] == calls[2 * j - 1]);
                    } else {
                        assert(same[j] == equal);
                    }
                }
            }
            r += 1;
        }
        let ghost swept = self.data@;
        self.truncate(w);
        let ghost calls = recorder.calls();
        let _record = recorder.finish();
        proof {
            swept.skip(w as int).lemma_reverse_to_multiset();
            assert(swept.skip(w as int) =~= swept.subrange(w as int, len as int));
            assert(_record.calls() == calls);
            assert(called(given, calls));
            assert(dropped(swept.skip(w as int).reverse()));
            assert(kept.len() == same.len());
            assert(self@ =~= kept.last());
            if K::obeys_eq_spec() {
                assert forall|k: spec_fn(T) -> K|
                    (forall|e: &mut T, out: K| #[trigger]
                        call_ensures(given, (e,), out) ==> *final(e) == *e && out == k(*e)) implies self@
                    == #[trigger] deduped(before, same_key(k)) by {
                    lemma_trace_deduped(before, kept, same, same_key(k), len - 1);
                    assert(before.take(len as int) =~= before);
                }
            }
        }
    }

    /// Removes consecutive duplicate elements: each element that `==` finds equal to the last one
    /// kept before it.
    pub fn dedup(&mut self) where T: PartialEq<T>
        ensures
            old(self).wf() ==> final(self).wf(),
            old(self)@.len() == 0 ==> final(self)@ == old(self)@,
            old(self)@.len() > 0 ==> exists|kept: Seq<Seq<T>>, same: Seq<bool>|
                {
                    &&& #[trigger] kept.len() == #[trigger] same.len()
                    &&& dedup_trace(old(self)@, kept, same)
                    &&& forall|r: int|
                        1 <= r && #[trigger] within(r, old(self)@) ==> call_ensures(
                            T::eq,
                            (&old(self)@[r], &kept[r - 1].last()),
                            same[r],
                        )
                    &&& final(self)@ == kept.last()
                },
            exists|gone: Seq<T>| #[trigger]
                dropped(gone) && final(self)@.to_multiset().add(gone.to_multiset()) == old(
                    self,
                )@.to_multiset(),
            T::obeys_eq_spec() ==> final(self)@ == deduped(old(self)@, same_value()),
    {
        self.dedup_by(
            |a: &mut T, b: &mut T| -> (same: bool)
                ensures
                    *final(a) == *old(a),
                    *final(b) == *old(b),
                    call_ensures(T::eq, (&*old(a), &*old(b)), same)
                { (*a).eq(&*b) },
        );
    }
}

impl<T: Copy, const N: usize> StackVec<T, N> {
    /// Copies the elements of a slice into a new vector.
    pub fn from_slice(slice: &[T]) -> (v: StackVec<T, N>)
        requires
            slice@.len() <= N,
        ensures
            v@ == slice@,
            v.wf(),
    {
        let mut v: StackVec<T, N> = StackVec::new();
        v.extend_from_slice(slice);
        assert(v@ =~= slice@);
        v
    }

    /// Copies the elements of a slice into the vector at position `index`, shifting any following
    /// elements toward the back.
    pub fn insert_from_slice(&mut self, index: usize, slice: &[T])
        requires
            index <= old(self)@.len(),
            old(self)@.len() + slice@.len() <= N,
        ensures
            final(self)@ == splice(old(self)@, index as int, slice@),
            final(self).wf(),
    {
        let mut tail = self.data.split_off(index);
        self.extend_from_slice(slice);
        self.data.append(&mut tail);
    }

    /// Copies the elements of a slice and appends them to the vector.
    pub fn extend_from_slice(&mut self, slice: &[T])
        requires
            old(self)@.len() + slice@.len() <= N,
        ensures
            final(self)@ == old(self)@ + slice@,
            final(self).wf(),
    {
        let mut i: usize = 0;
        while i < slice.len()
            invariant
                i <= slice@.len(),
                self@ == old(self)@ + slice@.take(i as int),
                old(self)@.len() + slice@.len() <= N,
            decreases slice@.len() - i,
        {
            self.push(slice[i]);
            i += 1;
            assert(self@ =~= old(self)@ + slice@.take(i as int));
        }
        assert(slice@.take(i as int) =~= slice@);
    }
}

impl<T: Clone, const N: usize> StackVec<T, N> {
    /// Resizes the vector to `len` elements: cuts it off there if it is longer, dropping the
    /// rest, and appends clones of `value` until it is as long otherwise.
    pub fn resize(&mut self, len: usize, value: T)
        requires
            len <= N,
        ensures
            final(self)@.len() == len,
            forall|i: int|
                0 <= i < len && i < old(self)@.len() ==> #[trigger] final(self)@[i] == old(self)@[i],
            forall|i: int|
                old(self)@.len() <= i < len ==> call_ensures(
                    T::clone,
                    (&value,),
                    #[trigger] final(self)@[i],
                ),
            len < old(self)@.len() ==> dropped(old(self)@.skip(len as int).reverse()),
            dropped(seq![value]),
            final(self).wf(),
    {
        let old_len: usize = self.len();
        if len > old_len {
            self.push_clones(len - old_len, &value);
        } else {
            self.truncate(len);
        }
        drop_one(value);
    }

    /// Creates a vector with `n` clones of `elem`.
    pub fn from_elem(elem: T, n: usize) -> (v: StackVec<T, N>)
        requires
            n <= N,
        ensures
            v@.len() == n,
            forall|i: int|
                0 <= i < n ==> call_ensures(T::clone, (&elem,), #[trigger] v@[i]),
            dropped(seq![elem]),
            v.wf(),
    {
        let mut v: StackVec<T, N> = StackVec::new();
        v.push_clones(n, &elem);
        drop_one(elem);
        v
    }

    /// Creates a vector with a clone of each element of a slice.
    pub fn from_slice_cloned(slice: &[T]) -> (v: StackVec<T, N>)
        requires
            slice@.len() <= N,
        ensures
            all_cloned(slice@, v@),
            v.wf(),
    {
        StackVec { data: clone_elements(slice) }
    }

    /// Appends `n` clones of a value.
    fn push_clones(&mut self, n: usize, value: &T)
        requires
            old(self)@.len() + n <= N,
        ensures
            final(self)@.len() == old(self)@.len() + n,
            forall|i: int|
                0 <= i < old(self)@.len() ==> #[trigger] final(self)@[i] == old(self)@[i],
            forall|i: int|
                old(self)@.len() <= i < final(self)@.len() ==> call_ensures(
                    T::clone,
                    (value,),
                    #[trigger] final(self)@[i],
                ),
            final(self).wf(),
    {
        let mut pushed: usize = 0;
        while pushed < n
            invariant
                pushed <= n,
                old(self)@.len() + n <= N,
                self@.len() == old(self)@.len() + pushed,
                forall|i: int| 0 <= i < old(self)@.len() ==> #[trigger] self@[i] == old(self)@[i],
                forall|i: int|
                    old(self)@.len() <= i < self@.len() ==> call_ensures(
                        T::clone,
                        (value,),
                        #[trigger] self@[i],
                    ),
            decreases n - pushed,
        {
            self.push(value.clone());
            pushed += 1;
        }
    }
}

impl<T: Clone, const N: usize> Clone for StackVec<T, N> {
    /// A vector with a clone of each element.
    fn clone(&self) -> (v: StackVec<T, N>)
        ensures
            all_cloned(self@, v@),
            self.wf() ==> v.wf(),
    {
        StackVec { data: clone_elements(self.data.as_slice()) }
    }
}

impl<T, const N: usize> Default for StackVec<T, N> {
    /// An empty vector.
    fn default() -> (v: StackVec<T, N>)
        ensures
            v@ == Seq::<T>::empty(),
            v.wf(),
    {
        StackVec::new()
    }
}

/// Drops an element.
fn drop_one<T>(element: T)
    ensures
        dropped(seq![element]),
{
    let mut gone: Dropped<T> = Dropped::none();
    gone.put(element);
    assert(gone.elements() =~= seq![element]);
}

/// A clone of each element of a slice, in order.
fn clone_elements<T: Clone>(slice: &[T]) -> (clones: Vec<T>)
    ensures
        all_cloned(slice@, clones@),
{
    let mut clones: Vec<T> = Vec::new();
    let mut i: usize = 0;
    while i < slice.len()
        invariant
            i <= slice@.len(),
            clones@.len() == i,
            forall|j: int|
                #[trigger] within(j, slice@) && j < i ==> call_ensures(
                    T::clone,
                    (&slice@[j],),
                    clones@[j],
                ),
        decreases slice@.len() - i,
    {
        clones.push(slice[i].clone());
        i += 1;
    }
    clones
}

/// One visit of `retain`: the call turns `prev` into `called_on`, where it changes element `i` at
/// most, and the visit ends in `next`. The elements from `w` up to `i`, which are to go, are those
/// that were to go before, and `i` too unless it is kept.
proof fn lemma_sweep<T>(
    prev: Seq<T>,
    called_on: Seq<T>,
    next: Seq<T>,
    w: int,
    i: int,
    kept: bool,
)
    requires
        0 <= w <= i < prev.len(),
        called_on == prev.update(i, called_on[i]),
        next == if kept && w < i {
            swapped(called_on, w, i)
        } else {
            called_on
        },
    ensures
        kept ==> next.subrange(w + 1, i + 1).to_multiset() == prev.subrange(w, i).to_multiset(),
        !kept ==> next.subrange(w, i + 1).to_multiset() == prev.subrange(w, i).to_multiset().add(
            seq![called_on[i]].to_multiset(),
        ),
{
    let old_part = prev.subrange(w, i);
    if !kept {
        vstd::seq_lib::lemma_multiset_commutative(old_part, seq![called_on[i]]);
        assert(next.subrange(w, i + 1) =~= old_part + seq![called_on[i]]);
    } else if w < i {
        lemma_rotate(old_part);
        assert(next.subrange(w + 1, i + 1) =~= old_part.drop_first().push(old_part.first()));
    } else {
        assert(next.subrange(w + 1, i + 1) =~= old_part);
    }
}

/// Ends the comparison of element `r` with the last of the `w` elements kept so far: gives how
/// many are kept now, with `r` moved to the end of them unless it was found to be the `same`.
fn settle<T>(v: &mut Vec<T>, w: usize, r: usize, same: bool) -> (next: usize)
    requires
        1 <= w <= r < old(v)@.len(),
    ensures
        next == kept_count(w as int, same),
        final(v)@ == settled(old(v)@, w as int, r as int, same),
{
    if same {
        return w;
    }
    assert(r < v.len());
    if r != w {
        swap_at(v, w, r);
    }
    assert(v@ =~= swapped(old(v)@, w as int, r as int));
    w + 1
}

/// How many elements are kept once one more was held against the last of `w` kept ones.
spec fn kept_count(w: int, same: bool) -> int {
    if same {
        w
    } else {
        w + 1
    }
}

/// `s` once element `r` was held against the last of the `w` elements kept so far.
spec fn settled<T>(s: Seq<T>, w: int, r: int, same: bool) -> Seq<T> {
    if same {
        s
    } else {
        swapped(s, w, r)
    }
}

/// One round of deduplication: a comparison turns `prev` into `called`, where it changes the last
/// of the `w` elements kept so far and element `r` at most, and the round ends in `next`. The kept
/// elements have made the step that the comparison asks for, and a property that all elements had
/// is kept where the comparison keeps it.
proof fn lemma_round<T>(prev: Seq<T>, called: Seq<T>, next: Seq<T>, w: int, r: int, same: bool)
    requires
        1 <= w <= r < prev.len(),
        called == prev.update(w - 1, called[w - 1]).update(r, called[r]),
        next == settled(called, w, r, same),
    ensures
        next.take(kept_count(w, same)) == dedup_step(
            prev.take(w),
            called[w - 1],
            called[r],
            same,
        ),
        forall|ok: spec_fn(T) -> bool| #[trigger]
            all_satisfy(prev, ok) && ok(called[w - 1]) && ok(called[r]) ==> all_satisfy(next, ok),
{
    assert(next.take(kept_count(w, same)) =~= dedup_step(
        prev.take(w),
        called[w - 1],
        called[r],
        same,
    ));
}

/// Where the calls leave their first element as it was, those that found it to be the same left
/// the elements that are marked as the same.
proof fn lemma_marked_calls<T>(s: Seq<T>, same: Seq<bool>, calls: Seq<PairCall<T>>, r: int)
    requires
        same.len() == s.len() == calls.len() + 1,
        !same[0],
        forall|j: int|
            1 <= j && #[trigger] within(j, s) ==> calls[j - 1].first_after == s[j] && calls[j
                - 1].result == same[j],
        0 <= r < s.len(),
    ensures
        answered_on_pairs(calls.take(r), true) == keep_marked(s.take(r + 1), same.take(r + 1)),
    decreases r,
{
    assert(s.take(r + 1).drop_last() =~= s.take(r));
    assert(same.take(r + 1).drop_last() =~= same.take(r));
    if r == 0 {
        lemma_answered_on_pairs(calls.take(0), arbitrary(), true);
        assert(calls.take(0) =~= Seq::<PairCall<T>>::empty());
        reveal_with_fuel(keep_marked, 2);
        assert(keep_marked(s.take(1), same.take(1)) =~= Seq::<T>::empty());
    } else {
        lemma_marked_calls(s, same, calls, r - 1);
        assert(within(r, s));
        lemma_answered_on_pairs(calls.take(r - 1), calls[r - 1], true);
        assert(calls.take(r) =~= calls.take(r - 1).push(calls[r - 1]));
    }
}

/// One round of deduplication, as in `lemma_round`: where the elements from `w` up to `r` were
/// those of `gone`, they are now those of `gone` and the one that the round found to be the same.
proof fn lemma_gone<T>(
    gone: Seq<T>,
    prev: Seq<T>,
    called: Seq<T>,
    next: Seq<T>,
    w: int,
    r: int,
    same: bool,
)
    requires
        1 <= w <= r < prev.len(),
        called == prev.update(w - 1, called[w - 1]).update(r, called[r]),
        next == settled(called, w, r, same),
        gone.to_multiset() == prev.subrange(w, r).to_multiset(),
    ensures
        next.subrange(kept_count(w, same), r + 1).to_multiset() == if same {
            gone.push(called[r]).to_multiset()
        } else {
            gone.to_multiset()
        },
{
    let shifted = prev.update(w - 1, called[w - 1]);
    assert(shifted.subrange(w, r) =~= prev.subrange(w, r));
    if w == r {
        assert(swapped(called, w, r) =~= called);
    }
    lemma_sweep(shifted, called, next, w, r, !same);
    vstd::seq_lib::lemma_multiset_commutative(gone, seq![called[r]]);
    assert(gone.push(called[r]) =~= gone + seq![called[r]]);
}

/// Exchanges two elements of a vector.
fn swap_at<T>(v: &mut Vec<T>, a: usize, b: usize)
    requires
        a < b < old(v)@.len(),
    ensures
        final(v)@ == swapped(old(v)@, a as int, b as int),
{
    let (left, right) = v.as_mut_slice().split_at_mut(b);
    core::mem::swap(&mut left[a], &mut right[0]);
}

} // verus!
