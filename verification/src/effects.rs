//! What the calls of the operations do: to the elements, to the elements that they give up, and to
//! the functions that they are handed.
//!
//! Each law speaks of the values before and after any one call, position by position.
use vstd::prelude::*;
use vstd::std_specs::iter::IteratorSpec;
use crate::evidence::{
    answered, answered_on_pairs, called, called_on_pairs, dropped, fetched, forgotten, Call,
    Dropped, Fetched, Fetcher, Forgotten, PairCall, PairRecord, PairRecorder, Record, Recorder,
};
use crate::seqs::{dedup_step, keep_marked, within};
use crate::stack_vec::StackVec;

verus! {

/// `truncate` keeps the first `len` elements, or all where there are no more, each in its place,
/// and drops all others, the last one first.
pub proof fn law_truncate_keeps_first<T, const N: usize>(
    before: StackVec<T, N>,
    len: usize,
    after: StackVec<T, N>,
)
    requires
        exists|v: &mut StackVec<T, N>|
            {
                &&& *v == before
                &&& *final(v) == after
                &&& #[trigger] call_ensures(StackVec::<T, N>::truncate, (v, len), ())
            },
    ensures
        before@.len() <= len ==> after@.len() == before@.len(),
        before@.len() > len ==> after@.len() == len,
        forall|i: int| 0 <= i < after@.len() ==> (#[trigger] after@[i]) == before@[i],
        exists|cut: Dropped<T>|
            {
                &&& #[trigger] cut.elements().len() == before@.len() - after@.len()
                &&& forall|k: int|
                    0 <= k < cut.elements().len() ==> (#[trigger] cut.elements()[k]) == before@[
                    before@.len() - 1 - k]
            },
{
    let gone = before@.skip(after@.len() as int).reverse();
    assert(dropped(gone));
    let cut = choose|cut: Dropped<T>| #[trigger] cut.elements() == gone;
    assert(cut.elements().len() == before@.len() - after@.len());
}

/// `clear` leaves nothing and drops all elements, the last one first.
pub proof fn law_clear_drops_all<T, const N: usize>(before: StackVec<T, N>, after: StackVec<T, N>)
    requires
        exists|v: &mut StackVec<T, N>|
            {
                &&& *v == before
                &&& *final(v) == after
                &&& #[trigger] call_ensures(StackVec::<T, N>::clear, (v,), ())
            },
    ensures
        after@.len() == 0,
        exists|cut: Dropped<T>|
            {
                &&& #[trigger] cut.elements().len() == before@.len() - after@.len()
                &&& forall|k: int|
                    0 <= k < cut.elements().len() ==> (#[trigger] cut.elements()[k]) == before@[
                    before@.len() - 1 - k]
            },
{
    assert(dropped(before@.reverse()));
    let cut = choose|cut: Dropped<T>| #[trigger] cut.elements() == before@.reverse();
    assert(cut.elements().len() == before@.len() - after@.len());
}

/// `set_len` keeps the first `new_len` elements, each in its place, and gives all others up without
/// dropping them.
pub proof fn law_set_len_forgets<T, const N: usize>(
    before: StackVec<T, N>,
    new_len: usize,
    after: StackVec<T, N>,
)
    requires
        new_len <= before@.len(),
        exists|v: &mut StackVec<T, N>|
            {
                &&& *v == before
                &&& *final(v) == after
                &&& #[trigger] call_ensures(StackVec::<T, N>::set_len, (v, new_len), ())
            },
    ensures
        after@.len() == new_len,
        forall|i: int| 0 <= i < new_len ==> (#[trigger] after@[i]) == before@[i],
        exists|cut: Forgotten<T>|
            {
                &&& #[trigger] cut.elements().len() == before@.len() - after@.len()
                &&& forall|k: int|
                    0 <= k < cut.elements().len() ==> (#[trigger] cut.elements()[k]) == before@[
                    before@.len() - 1 - k]
            },
{
    let gone = before@.skip(new_len as int).reverse();
    assert(forgotten(gone));
    let cut = choose|cut: Forgotten<T>| #[trigger] cut.elements() == gone;
    assert(cut.elements().len() == before@.len() - after@.len());
}

/// `resize` keeps the elements that there is room for in `len`, each in its place, and drops the
/// others, the last one first; every further element is a clone of `value`, which is dropped.
pub proof fn law_resize<T: Clone, const N: usize>(
    before: StackVec<T, N>,
    len: usize,
    value: T,
    after: StackVec<T, N>,
)
    requires
        exists|v: &mut StackVec<T, N>|
            {
                &&& *v == before
                &&& *final(v) == after
                &&& #[trigger] call_ensures(StackVec::<T, N>::resize, (v, len, value), ())
            },
    ensures
        after@.len() == len,
        forall|i: int|
            0 <= i < len && i < before@.len() ==> (#[trigger] after@[i]) == before@[i],
        forall|i: int|
            before@.len() <= i < len ==> call_ensures(T::clone, (&value,), #[trigger] after@[i]),
        len < before@.len() ==> exists|cut: Dropped<T>|
            {
                &&& #[trigger] cut.elements().len() == before@.len() - after@.len()
                &&& forall|k: int|
                    0 <= k < cut.elements().len() ==> (#[trigger] cut.elements()[k]) == before@[
                    before@.len() - 1 - k]
            },
        exists|gone: Dropped<T>| #[trigger]
            gone.elements().len() == 1 && gone.elements()[0] == value,
{
    if len < before@.len() {
        let past = before@.skip(len as int).reverse();
        assert(dropped(past));
        let cut = choose|cut: Dropped<T>| #[trigger] cut.elements() == past;
        assert(cut.elements().len() == before@.len() - after@.len());
    }
    assert(dropped(seq![value]));
    let gone = choose|gone: Dropped<T>| #[trigger] gone.elements() == seq![value];
    assert(gone.elements().len() == 1);
}

/// `from_elem` gives `n` clones of `elem`, which is dropped.
pub proof fn law_from_elem<T: Clone, const N: usize>(elem: T, n: usize, v: StackVec<T, N>)
    requires
        call_ensures(StackVec::<T, N>::from_elem, (elem, n), v),
    ensures
        v@.len() == n,
        forall|i: int| 0 <= i < n ==> call_ensures(T::clone, (&elem,), #[trigger] v@[i]),
        exists|gone: Dropped<T>| #[trigger]
            gone.elements().len() == 1 && gone.elements()[0] == elem,
{
    assert(dropped(seq![elem]));
    let gone = choose|gone: Dropped<T>| #[trigger] gone.elements() == seq![elem];
    assert(gone.elements().len() == 1);
}

/// `from_buf_and_len` keeps the first `len` elements of the array, each in its place, and drops the
/// others, the first one first. So does the unchecked form.
pub proof fn law_from_buf_and_len<T, const N: usize>(buf: [T; N], len: usize, v: StackVec<T, N>)
    requires
        len <= N,
        call_ensures(StackVec::<T, N>::from_buf_and_len, (buf, len), v) || call_ensures(
            StackVec::<T, N>::from_buf_and_len_unchecked,
            (buf, len),
            v,
        ),
    ensures
        v@.len() == len,
        forall|i: int| 0 <= i < len ==> (#[trigger] v@[i]) == buf@[i],
        exists|cut: Dropped<T>|
            {
                &&& #[trigger] cut.elements().len() == N - len
                &&& forall|k: int|
                    0 <= k < cut.elements().len() ==> (#[trigger] cut.elements()[k]) == buf@[len + k]
            },
{
    let past = buf@.skip(len as int);
    assert(dropped(past));
    let cut = choose|cut: Dropped<T>| #[trigger] cut.elements() == past;
    assert(cut.elements().len() == N - len);
}

/// `retain` calls its function once for each element, in their order, and makes no other call of
/// it. It keeps what the calls that answered `true` left of their element, in this order, and drops
/// what the others left of theirs.
pub proof fn law_retain_calls<T, F: FnMut(&mut T) -> bool, const N: usize>(
    before: StackVec<T, N>,
    f: F,
    after: StackVec<T, N>,
)
    requires
        exists|v: &mut StackVec<T, N>|
            {
                &&& *v == before
                &&& *final(v) == after
                &&& #[trigger] call_ensures(StackVec::<T, N>::retain::<F>, (v, f), ())
            },
    ensures
        exists|record: Record<T, bool, F>, gone: Dropped<T>|
            {
                &&& record.function() == f
                &&& #[trigger] record.calls().len() == before@.len()
                &&& forall|i: int|
                    0 <= i < before@.len() ==> (#[trigger] record.calls()[i]).before == before@[i]
                &&& after@ == answered(record.calls(), true)
                &&& #[trigger] gone.elements().to_multiset() == answered(
                    record.calls(),
                    false,
                ).to_multiset()
            },
{
    let (calls, past) = choose|calls: Seq<Call<T, bool>>, past: Seq<T>|
        {
            &&& #[trigger] called(f, calls)
            &&& #[trigger] dropped(past)
            &&& calls.len() == before@.len()
            &&& forall|i: int|
                0 <= i < calls.len() ==> (#[trigger] calls[i]).before == before@[i]
            &&& after@ == answered(calls, true)
            &&& past.to_multiset() == answered(calls, false).to_multiset()
        };
    let record = choose|record: Record<T, bool, F>|
        record.function() == f && #[trigger] record.calls() == calls;
    let gone = choose|gone: Dropped<T>| #[trigger] gone.elements() == past;
    assert(record.calls().len() == before@.len());
    assert(gone.elements().to_multiset() == answered(record.calls(), false).to_multiset());
}

/// `dedup_by` calls its function once for each element after the first, in their order, on this
/// element and the last one kept before it, and makes no other call of it. What the calls left of
/// the elements that they found to be the same is dropped.
pub proof fn law_dedup_by_calls<T, F: FnMut(&mut T, &mut T) -> bool, const N: usize>(
    before: StackVec<T, N>,
    same_bucket: F,
    after: StackVec<T, N>,
)
    requires
        before@.len() > 0,
        exists|v: &mut StackVec<T, N>|
            {
                &&& *v == before
                &&& *final(v) == after
                &&& #[trigger] call_ensures(StackVec::<T, N>::dedup_by::<F>, (v, same_bucket), ())
            },
    ensures
        exists|record: PairRecord<T, F>, kept: Seq<Seq<T>>, gone: Dropped<T>|
            {
                &&& record.function() == same_bucket
                &&& #[trigger] record.calls().len() == before@.len() - 1
                &&& #[trigger] kept.len() == before@.len()
                &&& kept[0] == before@.take(1)
                &&& forall|c: int|
                    0 <= c < record.calls().len() ==> {
                        let call = #[trigger] record.calls()[c];
                        &&& call.first_before == before@[c + 1]
                        &&& call.second_before == kept[c].last()
                        &&& kept[c + 1] == if call.result {
                            kept[c].drop_last().push(call.second_after)
                        } else {
                            kept[c].drop_last().push(call.second_after).push(call.first_after)
                        }
                    }
                &&& after@ == kept.last()
                &&& #[trigger] gone.elements().to_multiset() == answered_on_pairs(
                    record.calls(),
                    true,
                ).to_multiset()
            },
{
    let (kept, same, calls, gone) = choose|
        kept: Seq<Seq<T>>,
        same: Seq<bool>,
        calls: Seq<PairCall<T>>,
        gone: Seq<T>,
    |
        {
            &&& #[trigger] called_on_pairs(same_bucket, calls)
            &&& #[trigger] dropped(gone)
            &&& gone.to_multiset() == answered_on_pairs(calls, true).to_multiset()
            &&& calls.len() + 1 == before@.len()
            &&& #[trigger] kept.len() == #[trigger] same.len() == before@.len()
            &&& kept[0] == before@.take(1)
            &&& forall|r: int|
                1 <= r && #[trigger] within(r, before@) ==> {
                    &&& calls[r - 1].first_before == before@[r]
                    &&& calls[r - 1].second_before == kept[r - 1].last()
                    &&& kept[r] == dedup_step(
                        kept[r - 1],
                        calls[r - 1].second_after,
                        calls[r - 1].first_after,
                        calls[r - 1].result,
                    )
                }
            &&& after@ == kept.last()
        };
    let record = choose|record: PairRecord<T, F>|
        record.function() == same_bucket && #[trigger] record.calls() == calls;
    let bin = choose|bin: Dropped<T>| #[trigger] bin.elements() == gone;
    assert forall|c: int| 0 <= c < record.calls().len() implies {
        let call = #[trigger] record.calls()[c];
        &&& call.first_before == before@[c + 1]
        &&& call.second_before == kept[c].last()
        &&& kept[c + 1] == if call.result {
            kept[c].drop_last().push(call.second_after)
        } else {
            kept[c].drop_last().push(call.second_after).push(call.first_after)
        }
    } by {
        assert(within(c + 1, before@));
    }
    assert(record.calls().len() == before@.len() - 1);
    assert(kept.len() == before@.len());
    assert(bin.elements().to_multiset() == answered_on_pairs(record.calls(), true).to_multiset());
}

/// `calls` are two for each element of `s` after the first, in their order: on this element and
/// then on the last one of what was `kept` before it. The element goes where the two keys are the
/// `same`, and is kept behind the others where they are not, as the calls left them.
pub open spec fn compares_by_key<T, K: PartialEq<K>>(
    s: Seq<T>,
    calls: Seq<Call<T, K>>,
    kept: Seq<Seq<T>>,
    same: Seq<bool>,
) -> bool {
    &&& calls.len() == 2 * (s.len() - 1)
    &&& kept.len() == s.len()
    &&& same.len() == s.len()
    &&& kept[0] == s.take(1)
    &&& forall|r: int|
        1 <= r && #[trigger] within(r, s) ==> {
            let later = calls[2 * r - 2];
            let last = calls[2 * r - 1];
            &&& later.before == s[r]
            &&& last.before == kept[r - 1].last()
            &&& call_ensures(K::eq, (&later.result, &last.result), same[r])
            &&& kept[r] == if same[r] {
                kept[r - 1].drop_last().push(last.after)
            } else {
                kept[r - 1].drop_last().push(last.after).push(later.after)
            }
        }
}

/// What the calls left of the elements of which they found the keys to be the same.
pub open spec fn found_same<T, K>(calls: Seq<Call<T, K>>, same: Seq<bool>, found: Seq<T>) -> bool {
    &&& found.len() == same.len()
    &&& !same[0]
    &&& forall|r: int| 1 <= r < same.len() ==> (#[trigger] found[r]) == calls[2 * r - 2].after
}

/// `dedup_by_key` calls its function twice for each element after the first, in their order, on
/// this element and then on the last one kept before it, and makes no other call of it. Of the
/// elements it drops those whose two keys it found equal, as the calls left them.
pub proof fn law_dedup_by_key_calls<
    T,
    K: PartialEq<K>,
    F: FnMut(&mut T) -> K,
    const N: usize,
>(before: StackVec<T, N>, key: F, after: StackVec<T, N>)
    requires
        before@.len() > 0,
        exists|v: &mut StackVec<T, N>|
            {
                &&& *v == before
                &&& *final(v) == after
                &&& #[trigger] call_ensures(StackVec::<T, N>::dedup_by_key::<F, K>, (v, key), ())
            },
    ensures
        exists|
            record: Record<T, K, F>,
            kept: Seq<Seq<T>>,
            same: Seq<bool>,
            found: Seq<T>,
            gone: Dropped<T>,
        |
            {
                &&& record.function() == key
                &&& #[trigger] compares_by_key(before@, record.calls(), kept, same)
                &&& after@ == kept.last()
                &&& #[trigger] found_same(record.calls(), same, found)
                &&& #[trigger] gone.elements().to_multiset() == keep_marked(
                    found,
                    same,
                ).to_multiset()
            },
{
    let (kept, same, calls, found, past) = choose|
        kept: Seq<Seq<T>>,
        same: Seq<bool>,
        calls: Seq<Call<T, K>>,
        found: Seq<T>,
        past: Seq<T>,
    |
        {
            &&& #[trigger] called(key, calls)
            &&& #[trigger] dropped(past)
            &&& past.to_multiset() == #[trigger] keep_marked(found, same).to_multiset()
            &&& found.len() == before@.len()
            &&& calls.len() == 2 * (before@.len() - 1)
            &&& !same[0]
            &&& #[trigger] kept.len() == #[trigger] same.len() == before@.len()
            &&& kept[0] == before@.take(1)
            &&& forall|r: int|
                1 <= r && #[trigger] within(r, before@) ==> {
                    &&& calls[2 * r - 2].before == before@[r]
                    &&& calls[2 * r - 1].before == kept[r - 1].last()
                    &&& call_ensures(
                        K::eq,
                        (&calls[2 * r - 2].result, &calls[2 * r - 1].result),
                        same[r],
                    )
                    &&& found[r] == calls[2 * r - 2].after
                    &&& kept[r] == dedup_step(
                        kept[r - 1],
                        calls[2 * r - 1].after,
                        calls[2 * r - 2].after,
                        same[r],
                    )
                }
            &&& after@ == kept.last()
        };
    let record = choose|record: Record<T, K, F>|
        record.function() == key && #[trigger] record.calls() == calls;
    let gone = choose|gone: Dropped<T>| #[trigger] gone.elements() == past;
    assert(compares_by_key(before@, record.calls(), kept, same));
    assert forall|r: int| 1 <= r < same.len() implies (#[trigger] found[r]) == calls[2 * r
        - 2].after by {
        assert(within(r, before@));
    }
    assert(found_same(record.calls(), same, found));
    assert(gone.elements().to_multiset() == keep_marked(found, same).to_multiset());
}

/// `dedup` loses no element: each is kept or dropped.
pub proof fn law_dedup_drops<T: PartialEq, const N: usize>(
    before: StackVec<T, N>,
    after: StackVec<T, N>,
)
    requires
        exists|v: &mut StackVec<T, N>|
            {
                &&& *v == before
                &&& *final(v) == after
                &&& #[trigger] call_ensures(StackVec::<T, N>::dedup, (v,), ())
            },
    ensures
        exists|gone: Dropped<T>|
            after@.to_multiset().add(#[trigger] gone.elements().to_multiset())
                == before@.to_multiset(),
{
    let past = choose|past: Seq<T>| #[trigger]
        dropped(past) && after@.to_multiset().add(past.to_multiset()) == before@.to_multiset();
    let gone = choose|gone: Dropped<T>| #[trigger] gone.elements() == past;
    assert(after@.to_multiset().add(gone.elements().to_multiset()) == before@.to_multiset());
}

/// A recorder starts with no calls of the function that it takes over, each call through it goes to
/// the end of its record with what the function was handed, left and answered, and the record that
/// it ends in is that of all calls.
pub proof fn law_calls_recorded<T, R, F: FnMut(&mut T) -> R>()
    ensures
        forall|f: F, recorder: Recorder<T, R, F>| #[trigger]
            call_ensures(Recorder::<T, R, F>::new, (f,), recorder) ==> recorder.function() == f
                && recorder.calls().len() == 0,
        forall|recorder: &mut Recorder<T, R, F>, element: &mut T, result: R| #[trigger]
            call_ensures(Recorder::<T, R, F>::call, (recorder, element), result) ==> {
                &&& (*final(recorder)).function() == (*recorder).function()
                &&& (*final(recorder)).calls() == (*recorder).calls().push(
                    Call { before: *element, after: *final(element), result },
                )
                &&& exists|arg: &mut T|
                    {
                        &&& *arg == *element
                        &&& *final(arg) == *final(element)
                        &&& #[trigger] call_ensures((*recorder).function(), (arg,), result)
                    }
            },
        forall|recorder: Recorder<T, R, F>, record: Record<T, R, F>| #[trigger]
            call_ensures(Recorder::<T, R, F>::finish, (recorder,), record) ==> record.function()
                == recorder.function() && record.calls() == recorder.calls(),
{
}

/// A recorder of a function of two elements starts with no calls of it, each call through it goes
/// to the end of its record with what the function was handed, left and answered, and the record
/// that it ends in is that of all calls.
pub proof fn law_pair_calls_recorded<T, F: FnMut(&mut T, &mut T) -> bool>()
    ensures
        forall|f: F, recorder: PairRecorder<T, F>| #[trigger]
            call_ensures(PairRecorder::<T, F>::new, (f,), recorder) ==> recorder.function() == f
                && recorder.calls().len() == 0,
        forall|recorder: &mut PairRecorder<T, F>, first: &mut T, second: &mut T, result: bool|
         #[trigger]
            call_ensures(PairRecorder::<T, F>::call, (recorder, first, second), result) ==> {
                &&& (*final(recorder)).function() == (*recorder).function()
                &&& (*final(recorder)).calls() == (*recorder).calls().push(
                    PairCall {
                        first_before: *first,
                        first_after: *final(first),
                        second_before: *second,
                        second_after: *final(second),
                        result,
                    },
                )
                &&& exists|a: &mut T, b: &mut T|
                    {
                        &&& *a == *first
                        &&& *final(a) == *final(first)
                        &&& *b == *second
                        &&& *final(b) == *final(second)
                        &&& #[trigger] call_ensures((*recorder).function(), (a, b), result)
                    }
            },
        forall|recorder: PairRecorder<T, F>, record: PairRecord<T, F>| #[trigger]
            call_ensures(PairRecorder::<T, F>::finish, (recorder,), record) ==> record.function()
                == recorder.function() && record.calls() == recorder.calls(),
{
}

/// What is dropped, and what is given up without being dropped, goes to the end of its record, which
/// starts with nothing.
pub proof fn law_given_up_recorded<T>()
    ensures
        forall|none: Dropped<T>| #[trigger]
            call_ensures(Dropped::<T>::none, (), none) ==> none.elements().len() == 0,
        forall|gone: &mut Dropped<T>, element: T| #[trigger]
            call_ensures(Dropped::<T>::put, (gone, element), ()) ==> (*final(gone)).elements()
                == (*gone).elements().push(element),
        forall|none: Forgotten<T>| #[trigger]
            call_ensures(Forgotten::<T>::none, (), none) ==> none.elements().len() == 0,
        forall|gone: &mut Forgotten<T>, element: T| #[trigger]
            call_ensures(Forgotten::<T>::put, (gone, element), ()) ==> (*final(gone)).elements()
                == (*gone).elements().push(element),
{
}

/// `extend` keeps all elements and puts what the iterator yields behind them, in this order. It asks
/// the iterator until it has nothing left, and not again.
pub proof fn law_extend<T, I: Iterator<Item = T>, const N: usize>(
    before: StackVec<T, N>,
    iterable: I,
    after: StackVec<T, N>,
)
    requires
        exists|v: &mut StackVec<T, N>|
            {
                &&& *v == before
                &&& *final(v) == after
                &&& #[trigger] call_ensures(StackVec::<T, N>::extend::<I>, (v, iterable), ())
            },
    ensures
        after@.len() == before@.len() + iterable.remaining().len(),
        forall|i: int| 0 <= i < before@.len() ==> (#[trigger] after@[i]) == before@[i],
        forall|i: int|
            before@.len() <= i < after@.len() ==> (#[trigger] after@[i]) == iterable.remaining()[i
                - before@.len()],
        exists|asked: Fetched<T, I>|
            {
                &&& asked.source() == iterable
                &&& #[trigger] asked.answers().len() == iterable.remaining().len() + 1
                &&& forall|i: int|
                    0 <= i < iterable.remaining().len() ==> (#[trigger] asked.answers()[i]) == Some(
                        iterable.remaining()[i],
                    )
                &&& forall|i: int|
                    iterable.remaining().len() <= i < asked.answers().len() ==> (
                    #[trigger] asked.answers()[i]) is None
            },
{
    assert(fetched(iterable, iterable.remaining(), 1));
}

/// `from_iter` holds what the iterator yields, in this order. It asks the iterator until it has
/// nothing left, and not again.
pub proof fn law_from_iter<T, I: Iterator<Item = T>, const N: usize>(
    iterable: I,
    v: StackVec<T, N>,
)
    requires
        call_ensures(StackVec::<T, N>::from_iter::<I>, (iterable,), v),
    ensures
        v@.len() == iterable.remaining().len(),
        forall|i: int| 0 <= i < v@.len() ==> (#[trigger] v@[i]) == iterable.remaining()[i],
        exists|asked: Fetched<T, I>|
            {
                &&& asked.source() == iterable
                &&& #[trigger] asked.answers().len() == iterable.remaining().len() + 1
                &&& forall|i: int|
                    0 <= i < iterable.remaining().len() ==> (#[trigger] asked.answers()[i]) == Some(
                        iterable.remaining()[i],
                    )
                &&& forall|i: int|
                    iterable.remaining().len() <= i < asked.answers().len() ==> (
                    #[trigger] asked.answers()[i]) is None
            },
{
    assert(fetched(iterable, iterable.remaining(), 1));
}

/// `insert_many_hinted` keeps the elements before `index` in their places, puts what the iterator
/// yields behind them, in this order, and the other elements behind that. It asks the iterator until
/// it has nothing left, and once again where this comes before `lower_bound` elements.
pub proof fn law_insert_many_hinted<T, I: Iterator<Item = T>, const N: usize>(
    before: StackVec<T, N>,
    index: usize,
    iterable: I,
    lower_bound: usize,
    after: StackVec<T, N>,
)
    requires
        index < before@.len(),
        exists|v: &mut StackVec<T, N>|
            {
                &&& *v == before
                &&& *final(v) == after
                &&& #[trigger] call_ensures(
                    StackVec::<T, N>::insert_many_hinted::<I>,
                    (v, index, iterable, lower_bound),
                    (),
                )
            },
    ensures
        inserted(before@, index as int, iterable.remaining(), after@),
        iterable.remaining().len() >= lower_bound ==> exists|asked: Fetched<T, I>|
            {
                &&& asked.source() == iterable
                &&& #[trigger] asked.answers().len() == iterable.remaining().len() + 1
                &&& forall|i: int|
                    0 <= i < iterable.remaining().len() ==> (#[trigger] asked.answers()[i]) == Some(
                        iterable.remaining()[i],
                    )
                &&& forall|i: int|
                    iterable.remaining().len() <= i < asked.answers().len() ==> (
                    #[trigger] asked.answers()[i]) is None
            },
        iterable.remaining().len() < lower_bound ==> exists|asked: Fetched<T, I>|
            {
                &&& asked.source() == iterable
                &&& #[trigger] asked.answers().len() == iterable.remaining().len() + 2
                &&& forall|i: int|
                    0 <= i < iterable.remaining().len() ==> (#[trigger] asked.answers()[i]) == Some(
                        iterable.remaining()[i],
                    )
                &&& forall|i: int|
                    iterable.remaining().len() <= i < asked.answers().len() ==> (
                    #[trigger] asked.answers()[i]) is None
            },
{
    if iterable.remaining().len() >= lower_bound {
        assert(fetched(iterable, iterable.remaining(), 1));
    } else {
        assert(fetched(iterable, iterable.remaining(), 2));
        let asked = choose|asked: Fetched<T, I>|
        {
            &&& asked.source() == iterable
            &&& #[trigger] asked.answers().len() == iterable.remaining().len() + 2
            &&& forall|i: int|
                0 <= i < iterable.remaining().len() ==> (#[trigger] asked.answers()[i]) == Some(
                    iterable.remaining()[i],
                )
            &&& forall|i: int|
                iterable.remaining().len() <= i < iterable.remaining().len() + 2 ==> (
                #[trigger] asked.answers()[i]) is None
        };
        assert(asked.answers().len() == iterable.remaining().len() + 2);
    }
}

/// `after` holds the elements of `before` in front of `index` in their places, then those of `mid`,
/// then the other elements of `before`, each in its order.
pub open spec fn inserted<T>(before: Seq<T>, index: int, mid: Seq<T>, after: Seq<T>) -> bool {
    &&& after.len() == before.len() + mid.len()
    &&& forall|i: int| 0 <= i < index ==> (#[trigger] after[i]) == before[i]
    &&& forall|i: int|
        index <= i < index + mid.len() ==> (#[trigger] after[i]) == mid[i - index]
    &&& forall|i: int|
        index + mid.len() <= i < after.len() ==> (#[trigger] after[i]) == before[i - mid.len()]
}

/// `insert_many` and `insert_from_slice` keep the elements before `index` in their places, put the
/// new elements behind them, in their order, and the other elements behind that. An iterator is
/// asked until it has nothing left, and once again at most.
pub proof fn law_insert_many<T: Copy, I: Iterator<Item = T>, const N: usize>(
    before: StackVec<T, N>,
    index: usize,
    iterable: I,
    slice: &[T],
    after: StackVec<T, N>,
    after_slice: StackVec<T, N>,
)
    requires
        index <= before@.len(),
        exists|v: &mut StackVec<T, N>|
            {
                &&& *v == before
                &&& *final(v) == after
                &&& #[trigger] call_ensures(
                    StackVec::<T, N>::insert_many::<I>,
                    (v, index, iterable),
                    (),
                )
            },
        exists|v: &mut StackVec<T, N>|
            {
                &&& *v == before
                &&& *final(v) == after_slice
                &&& #[trigger] call_ensures(
                    StackVec::<T, N>::insert_from_slice,
                    (v, index, slice),
                    (),
                )
            },
    ensures
        inserted(before@, index as int, iterable.remaining(), after@),
        inserted(before@, index as int, slice@, after_slice@),
        (exists|asked: Fetched<T, I>|
            {
                &&& asked.source() == iterable
                &&& #[trigger] asked.answers().len() == iterable.remaining().len() + 1
                &&& forall|i: int|
                    0 <= i < iterable.remaining().len() ==> (#[trigger] asked.answers()[i]) == Some(
                        iterable.remaining()[i],
                    )
                &&& forall|i: int|
                    iterable.remaining().len() <= i < asked.answers().len() ==> (
                    #[trigger] asked.answers()[i]) is None
            }) || (exists|asked: Fetched<T, I>|
            {
                &&& asked.source() == iterable
                &&& #[trigger] asked.answers().len() == iterable.remaining().len() + 2
                &&& forall|i: int|
                    0 <= i < iterable.remaining().len() ==> (#[trigger] asked.answers()[i]) == Some(
                        iterable.remaining()[i],
                    )
                &&& forall|i: int|
                    iterable.remaining().len() <= i < asked.answers().len() ==> (
                    #[trigger] asked.answers()[i]) is None
            }),
{
    if fetched(iterable, iterable.remaining(), 1) {
        let asked = choose|asked: Fetched<T, I>|
        {
            &&& asked.source() == iterable
            &&& #[trigger] asked.answers().len() == iterable.remaining().len() + 1
            &&& forall|i: int|
                0 <= i < iterable.remaining().len() ==> (#[trigger] asked.answers()[i]) == Some(
                    iterable.remaining()[i],
                )
            &&& forall|i: int|
                iterable.remaining().len() <= i < iterable.remaining().len() + 1 ==> (
                #[trigger] asked.answers()[i]) is None
        };
        assert(asked.answers().len() == iterable.remaining().len() + 1);
    } else {
        assert(fetched(iterable, iterable.remaining(), 2));
        let asked = choose|asked: Fetched<T, I>|
        {
            &&& asked.source() == iterable
            &&& #[trigger] asked.answers().len() == iterable.remaining().len() + 2
            &&& forall|i: int|
                0 <= i < iterable.remaining().len() ==> (#[trigger] asked.answers()[i]) == Some(
                    iterable.remaining()[i],
                )
            &&& forall|i: int|
                iterable.remaining().len() <= i < iterable.remaining().len() + 2 ==> (
                #[trigger] asked.answers()[i]) is None
        };
        assert(asked.answers().len() == iterable.remaining().len() + 2);
    }
}

/// A fetcher starts with no answers of the iterator that it takes over, each answer through it goes
/// to the end of its record, and the record that it ends in is that of all answers.
pub proof fn law_answers_recorded<T, I: Iterator<Item = T>>()
    ensures
        forall|iter: I, fetcher: Fetcher<T, I>| #[trigger]
            call_ensures(Fetcher::<T, I>::new, (iter,), fetcher) ==> fetcher.source() == iter
                && fetcher.iter() == iter && fetcher.answers().len() == 0,
        forall|fetcher: &mut Fetcher<T, I>, answer: Option<T>| #[trigger]
            call_ensures(Fetcher::<T, I>::next, (fetcher,), answer) ==> (*final(fetcher)).source()
                == (*fetcher).source() && (*final(fetcher)).answers()
                == (*fetcher).answers().push(answer),
        forall|fetcher: Fetcher<T, I>, asked: Fetched<T, I>| #[trigger]
            call_ensures(Fetcher::<T, I>::finish, (fetcher,), asked) ==> asked.source()
                == fetcher.source() && asked.answers() == fetcher.answers(),
{
}

} // verus!
