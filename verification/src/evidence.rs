//! Evidence of what was done with values, beside the results.
//!
//! What a program did with a function that it was given, or with an element that it gave up, is
//! seen in no result. The types here keep a record of it. A value of one of them is made by the
//! functions of this module alone, which do what they record, so a contract that asks for such a
//! value asks for the deed.
use vstd::prelude::*;
use vstd::std_specs::iter::IteratorSpec;

verus! {

/// A call of a function of one element: what it was handed, what it left of it, what it answered.
pub struct Call<T, R> {
    pub before: T,
    pub after: T,
    pub result: R,
}

/// A function of one element, which can be called through `call` alone, and the calls made of it
/// so far.
pub struct Recorder<T, R, F> {
    function: F,
    calls: Ghost<Seq<Call<T, R>>>,
}

/// All the calls that were ever made of a function, which is gone.
pub struct Record<T, R, F> {
    function: Ghost<F>,
    calls: Ghost<Seq<Call<T, R>>>,
}

impl<T, R, F> Record<T, R, F> {
    /// The function.
    pub closed spec fn function(&self) -> F {
        self.function@
    }

    /// The calls, in the order in which they were made.
    pub closed spec fn calls(&self) -> Seq<Call<T, R>> {
        self.calls@
    }
}

impl<T, R, F> Recorder<T, R, F> {
    /// The function.
    pub closed spec fn function(&self) -> F {
        self.function
    }

    /// The calls made so far, in their order.
    pub closed spec fn calls(&self) -> Seq<Call<T, R>> {
        self.calls@
    }
}

impl<T, R, F: FnMut(&mut T) -> R> Recorder<T, R, F> {
    /// Takes a function over.
    pub fn new(function: F) -> (recorder: Recorder<T, R, F>)
        ensures
            recorder.function() == function,
            recorder.calls() == Seq::<Call<T, R>>::empty(),
    {
        Recorder { function, calls: Ghost(Seq::empty()) }
    }

    /// Calls the function, once.
    pub fn call(&mut self, element: &mut T) -> (result: R)
        requires
            forall|arg: &mut T|
                *arg == *old(element) ==> #[trigger] call_requires(old(self).function(), (arg,)),
        ensures
            final(self).function() == old(self).function(),
            final(self).calls() == old(self).calls().push(
                (Call { before: *old(element), after: *final(element), result }),
            ),
            exists|arg: &mut T|
                {
                    &&& *arg == *old(element)
                    &&& *final(arg) == *final(element)
                    &&& #[trigger] call_ensures(old(self).function(), (arg,), result)
                },
    {
        let ghost before = *element;
        assert(self.function() == self.function);
        let result = (self.function)(element);
        proof {
            self.calls@ = self.calls@.push(Call { before, after: *element, result });
        }
        result
    }

    /// Ends the calls of the function.
    pub fn finish(self) -> (record: Record<T, R, F>)
        ensures
            record.function() == self.function(),
            record.calls() == self.calls(),
    {
        Record { function: Ghost(self.function), calls: self.calls }
    }
}

/// A call of a function of two elements: what it was handed, what it left of both, what it
/// answered.
pub struct PairCall<T> {
    pub first_before: T,
    pub first_after: T,
    pub second_before: T,
    pub second_after: T,
    pub result: bool,
}

/// A function of two elements, which can be called through `call` alone, and the calls made of it
/// so far.
pub struct PairRecorder<T, F> {
    function: F,
    calls: Ghost<Seq<PairCall<T>>>,
}

/// All the calls that were ever made of a function of two elements, which is gone.
pub struct PairRecord<T, F> {
    function: Ghost<F>,
    calls: Ghost<Seq<PairCall<T>>>,
}

impl<T, F> PairRecord<T, F> {
    /// The function.
    pub closed spec fn function(&self) -> F {
        self.function@
    }

    /// The calls, in the order in which they were made.
    pub closed spec fn calls(&self) -> Seq<PairCall<T>> {
        self.calls@
    }
}

impl<T, F> PairRecorder<T, F> {
    /// The function.
    pub closed spec fn function(&self) -> F {
        self.function
    }

    /// The calls made so far, in their order.
    pub closed spec fn calls(&self) -> Seq<PairCall<T>> {
        self.calls@
    }
}

impl<T, F: FnMut(&mut T, &mut T) -> bool> PairRecorder<T, F> {
    /// Takes a function over.
    pub fn new(function: F) -> (recorder: PairRecorder<T, F>)
        ensures
            recorder.function() == function,
            recorder.calls() == Seq::<PairCall<T>>::empty(),
    {
        PairRecorder { function, calls: Ghost(Seq::empty()) }
    }

    /// Calls the function, once.
    pub fn call(&mut self, first: &mut T, second: &mut T) -> (result: bool)
        requires
            forall|a: &mut T, b: &mut T|
                *a == *old(first) && *b == *old(second) ==> #[trigger] call_requires(
                    old(self).function(),
                    (a, b),
                ),
        ensures
            final(self).function() == old(self).function(),
            final(self).calls() == old(self).calls().push(
                (PairCall {
                    first_before: *old(first),
                    first_after: *final(first),
                    second_before: *old(second),
                    second_after: *final(second),
                    result,
                }),
            ),
            exists|a: &mut T, b: &mut T|
                {
                    &&& *a == *old(first)
                    &&& *final(a) == *final(first)
                    &&& *b == *old(second)
                    &&& *final(b) == *final(second)
                    &&& #[trigger] call_ensures(old(self).function(), (a, b), result)
                },
    {
        let ghost first_before = *first;
        let ghost second_before = *second;
        assert(self.function() == self.function);
        let result: bool = (self.function)(first, second);
        proof {
            self.calls@ = self.calls@.push(
                PairCall {
                    first_before,
                    first_after: *first,
                    second_before,
                    second_after: *second,
                    result,
                },
            );
        }
        result
    }

    /// Ends the calls of the function.
    pub fn finish(self) -> (record: PairRecord<T, F>)
        ensures
            record.function() == self.function(),
            record.calls() == self.calls(),
    {
        PairRecord { function: Ghost(self.function), calls: self.calls }
    }
}

/// An iterator, which can be asked through `next` alone, and its answers so far.
pub struct Fetcher<T, I> {
    iter: I,
    source: Ghost<I>,
    answers: Ghost<Seq<Option<T>>>,
}

/// All the answers that were ever asked of an iterator, which is gone.
pub struct Fetched<T, I> {
    source: Ghost<I>,
    answers: Ghost<Seq<Option<T>>>,
}

impl<T, I> Fetched<T, I> {
    /// The iterator as it was at first.
    pub closed spec fn source(&self) -> I {
        self.source@
    }

    /// The answers, in their order.
    pub closed spec fn answers(&self) -> Seq<Option<T>> {
        self.answers@
    }
}

impl<T, I> Fetcher<T, I> {
    /// The iterator as it was at first.
    pub closed spec fn source(&self) -> I {
        self.source@
    }

    /// The iterator as it is now.
    pub closed spec fn iter(&self) -> I {
        self.iter
    }

    /// The answers so far, in their order.
    pub closed spec fn answers(&self) -> Seq<Option<T>> {
        self.answers@
    }
}

impl<T, I: Iterator<Item = T>> Fetcher<T, I> {
    /// Takes an iterator over.
    pub fn new(iter: I) -> (fetcher: Fetcher<T, I>)
        ensures
            fetcher.source() == iter,
            fetcher.iter() == iter,
            fetcher.answers() == Seq::<Option<T>>::empty(),
    {
        Fetcher { iter, source: Ghost(iter), answers: Ghost(Seq::empty()) }
    }

    /// Asks the iterator, once.
    pub fn next(&mut self) -> (answer: Option<T>)
        requires
            old(self).iter().obeys_prophetic_iter_laws(),
        ensures
            final(self).source() == old(self).source(),
            final(self).answers() == old(self).answers().push(answer),
            final(self).iter().obeys_prophetic_iter_laws(),
            old(self).iter().remaining().len() > 0 ==> answer == Some(
                old(self).iter().remaining()[0],
            ) && final(self).iter().remaining() == old(self).iter().remaining().drop_first(),
            old(self).iter().remaining().len() == 0 ==> answer is None
                && final(self).iter().remaining() == old(self).iter().remaining(),
    {
        let answer = self.iter.next();
        proof {
            self.answers@ = self.answers@.push(answer);
        }
        answer
    }

    /// Ends the asking.
    pub fn finish(self) -> (fetched: Fetched<T, I>)
        ensures
            fetched.source() == self.source(),
            fetched.answers() == self.answers(),
    {
        Fetched { source: self.source, answers: self.answers }
    }
}

/// Elements that were dropped.
pub struct Dropped<T> {
    elements: Ghost<Seq<T>>,
}

impl<T> Dropped<T> {
    /// The elements, in the order in which they were dropped.
    pub closed spec fn elements(&self) -> Seq<T> {
        self.elements@
    }

    /// None yet.
    pub fn none() -> (dropped: Dropped<T>)
        ensures
            dropped.elements() == Seq::<T>::empty(),
    {
        Dropped { elements: Ghost(Seq::empty()) }
    }

    /// Drops an element.
    pub fn put(&mut self, element: T)
        ensures
            final(self).elements() == old(self).elements().push(element),
    {
        proof {
            self.elements@ = self.elements@.push(element);
        }
    }
}

/// Elements that were given up without being dropped.
pub struct Forgotten<T> {
    elements: Ghost<Seq<T>>,
}

impl<T> Forgotten<T> {
    /// The elements, in the order in which they were given up.
    pub closed spec fn elements(&self) -> Seq<T> {
        self.elements@
    }

    /// None yet.
    pub fn none() -> (forgotten: Forgotten<T>)
        ensures
            forgotten.elements() == Seq::<T>::empty(),
    {
        Forgotten { elements: Ghost(Seq::empty()) }
    }

    /// Gives an element up, without dropping it.
    pub fn put(&mut self, element: T)
        ensures
            final(self).elements() == old(self).elements().push(element),
    {
        proof {
            self.elements@ = self.elements@.push(element);
        }
        let _kept = core::mem::ManuallyDrop::new(element);
    }
}

/// `calls` are all the calls that were made of `f`, in their order.
pub open spec fn called<T, R, F>(f: F, calls: Seq<Call<T, R>>) -> bool {
    exists|record: Record<T, R, F>| record.function() == f && #[trigger] record.calls() == calls
}

/// `calls` are all the calls that were made of `f`, in their order.
pub open spec fn called_on_pairs<T, F>(f: F, calls: Seq<PairCall<T>>) -> bool {
    exists|record: PairRecord<T, F>|
        record.function() == f && #[trigger] record.calls() == calls
}

/// `iter` was asked for its elements until it had yielded all of `elements`, and then `ends` times
/// more, to which it answered `None`, and no more.
pub open spec fn fetched<T, I>(iter: I, elements: Seq<T>, ends: nat) -> bool {
    exists|fetched: Fetched<T, I>|
        {
            &&& fetched.source() == iter
            &&& #[trigger] fetched.answers().len() == elements.len() + ends
            &&& forall|i: int|
                0 <= i < elements.len() ==> (#[trigger] fetched.answers()[i]) == Some(elements[i])
            &&& forall|i: int|
                elements.len() <= i < elements.len() + ends ==> (
                #[trigger] fetched.answers()[i]) is None
        }
}

/// The elements of `s` were dropped, in their order.
pub open spec fn dropped<T>(s: Seq<T>) -> bool {
    exists|dropped: Dropped<T>| #[trigger] dropped.elements() == s
}

/// The elements of `s` were given up without being dropped.
pub open spec fn forgotten<T>(s: Seq<T>) -> bool {
    exists|forgotten: Forgotten<T>| #[trigger] forgotten.elements() == s
}

/// What the calls with this answer left of their element, in the order of the calls.
pub open spec fn answered<T>(calls: Seq<Call<T, bool>>, answer: bool) -> Seq<T> {
    calls.filter(|call: Call<T, bool>| call.result == answer).map_values(
        |call: Call<T, bool>| call.after,
    )
}

/// What the calls with this answer left of their first element, in the order of the calls.
pub open spec fn answered_on_pairs<T>(calls: Seq<PairCall<T>>, answer: bool) -> Seq<T> {
    calls.filter(|call: PairCall<T>| call.result == answer).map_values(
        |call: PairCall<T>| call.first_after,
    )
}

/// One more call adds what it left to what the calls with its answer left.
pub proof fn lemma_answered<T>(calls: Seq<Call<T, bool>>, call: Call<T, bool>, answer: bool)
    ensures
        answered(Seq::<Call<T, bool>>::empty(), answer) == Seq::<T>::empty(),
        answered(calls.push(call), answer) == if call.result == answer {
            answered(calls, answer).push(call.after)
        } else {
            answered(calls, answer)
        },
{
    reveal(Seq::filter);
    assert(answered(Seq::<Call<T, bool>>::empty(), answer) =~= Seq::<T>::empty());
    assert(calls.push(call).drop_last() =~= calls);
    assert(answered(calls.push(call), answer) =~= if call.result == answer {
        answered(calls, answer).push(call.after)
    } else {
        answered(calls, answer)
    });
}

/// One more call adds what it left to what the calls with its answer left.
pub proof fn lemma_answered_on_pairs<T>(calls: Seq<PairCall<T>>, call: PairCall<T>, answer: bool)
    ensures
        answered_on_pairs(Seq::<PairCall<T>>::empty(), answer) == Seq::<T>::empty(),
        answered_on_pairs(calls.push(call), answer) == if call.result == answer {
            answered_on_pairs(calls, answer).push(call.first_after)
        } else {
            answered_on_pairs(calls, answer)
        },
{
    reveal(Seq::filter);
    assert(answered_on_pairs(Seq::<PairCall<T>>::empty(), answer) =~= Seq::<T>::empty());
    assert(calls.push(call).drop_last() =~= calls);
    assert(answered_on_pairs(calls.push(call), answer) =~= if call.result == answer {
        answered_on_pairs(calls, answer).push(call.first_after)
    } else {
        answered_on_pairs(calls, answer)
    });
}

} // verus!
