//! What holds of the operations together.
//!
//! The laws speak of sequences through the functions that the contracts of the operations use, so
//! each holds of every vector whose elements are the sequence.
use vstd::prelude::*;
use vstd::std_specs::iter::IteratorSpec;
use crate::evidence::{
    answered, answered_on_pairs, lemma_answered, lemma_answered_on_pairs, Call, PairCall,
};
use crate::iter::{Drain, IntoIter};
use crate::seqs::{
    all_cloned, dedup_step, deduped, keep_marked, lemma_deduped_len, same_key, same_value,
    shortened, splice, within,
};
use crate::stack_vec::StackVec;
use crate::traits::{Contents, ExtendFromSlice};

verus! {

/// `sub` is elements of `s` in the order that they have in `s`.
pub open spec fn in_order_of<T>(sub: Seq<T>, s: Seq<T>) -> bool {
    exists|at: Seq<int>| #[trigger] picks(sub, s, at)
}

/// `sub` is the elements of `s` at the increasing positions `at`.
pub open spec fn picks<T>(sub: Seq<T>, s: Seq<T>, at: Seq<int>) -> bool {
    &&& at.len() == sub.len()
    &&& forall|i: int| 0 <= i < at.len() ==> 0 <= #[trigger] at[i] < s.len() && sub[i] == s[at[i]]
    &&& forall|i: int, j: int| 0 <= i < j < at.len() ==> #[trigger] at[i] < #[trigger] at[j]
}

/// No element of `s` is the `same` as the one before it.
pub open spec fn no_neighbours_same<T>(s: Seq<T>, same: spec_fn(T, T) -> bool) -> bool {
    forall|i: int| 1 <= i < s.len() ==> !same(#[trigger] s[i], s[i - 1])
}

/// `pop` gives back what `push` appended, and leaves what was there before.
pub proof fn law_push_pop<T>(s: Seq<T>, value: T)
    ensures
        s.push(value).last() == value,
        s.push(value).drop_last() == s,
{
    assert(s.push(value).drop_last() =~= s);
}

/// `push` of what `pop` gave restores the vector.
pub proof fn law_pop_push<T>(s: Seq<T>)
    requires
        s.len() > 0,
    ensures
        s.drop_last().push(s.last()) == s,
{
    assert(s.drop_last().push(s.last()) =~= s);
}

/// `remove` gives back what `insert` put at the same position, and leaves what was there before.
pub proof fn law_insert_remove<T>(s: Seq<T>, index: int, element: T)
    requires
        0 <= index < s.len(),
    ensures
        s.insert(index, element)[index] == element,
        s.insert(index, element).remove(index) == s,
{
    assert(s.insert(index, element).remove(index) =~= s);
}

/// `insert` of what `remove` took, at the same position, restores the vector. (Of the last element
/// this holds with `push` in place of `insert`, which takes no position at the end.)
pub proof fn law_remove_insert<T>(s: Seq<T>, index: int)
    requires
        0 <= index < s.len(),
    ensures
        index < s.len() - 1 ==> s.remove(index).insert(index, s[index]) == s,
        index == s.len() - 1 ==> s.remove(index).push(s[index]) == s,
{
    if index < s.len() - 1 {
        assert(s.remove(index).insert(index, s[index]) =~= s);
    } else {
        assert(s.remove(index).push(s[index]) =~= s);
    }
}

/// Removing an element, in either way, takes this one element away and keeps all others.
pub proof fn law_removal_keeps_others<T>(s: Seq<T>, index: int)
    requires
        0 <= index < s.len(),
    ensures
        s.remove(index).to_multiset() == s.to_multiset().remove(s[index]),
        s.update(index, s.last()).drop_last().to_multiset() == s.to_multiset().remove(s[index]),
{
    broadcast use vstd::seq_lib::group_to_multiset_ensures;

    let swapped = s.update(index, s.last()).drop_last();
    if index == s.len() - 1 {
        assert(swapped =~= s.remove(index));
    } else {
        // Without its last element and the one at `index`, `s` is what is left of `swapped`
        // without the element at `index`.
        let both = s.drop_last().remove(index);
        assert(s.drop_last() =~= s.remove(s.len() - 1));
        assert(swapped.remove(index) =~= both);
        assert(swapped[index] == s.last());
        assert(swapped =~= both.insert(index, s.last()));
        let m = s.to_multiset();
        assert(both.to_multiset() == m.remove(s.last()).remove(s[index]));
        assert(both.to_multiset() == swapped.to_multiset().remove(s.last()));
        assert(swapped.contains(s.last()));
        assert(s.contains(s.last()));
        assert(s.contains(s[index]));
        assert(s.drop_last().contains(s[index])) by {
            assert(s.drop_last()[index] == s[index]);
        }
        assert(swapped.to_multiset() =~= both.to_multiset().insert(s.last()));
        assert(swapped.to_multiset() =~= m.remove(s[index]));
    }
}

/// `swap_remove` of the last element is `pop`, as `remove` of it is.
pub proof fn law_removal_of_last<T>(s: Seq<T>)
    requires
        s.len() > 0,
    ensures
        s.update(s.len() - 1, s.last()).drop_last() == s.drop_last(),
        s.remove(s.len() - 1) == s.drop_last(),
{
    assert(s.update(s.len() - 1, s.last()).drop_last() =~= s.drop_last());
    assert(s.remove(s.len() - 1) =~= s.drop_last());
}

/// Of two calls of `truncate` the shorter length counts; `truncate(0)` is `clear`.
pub proof fn law_truncate<T>(s: Seq<T>, a: nat, b: nat)
    ensures
        shortened(shortened(s, a as int), b as int) == shortened(
            s,
            if a <= b {
                a as int
            } else {
                b as int
            },
        ),
        shortened(s, a as int).len() <= a || shortened(s, a as int) == s,
        shortened(s, 0) == Seq::<T>::empty(),
{
    assert(shortened(shortened(s, a as int), b as int) =~= shortened(
        s,
        if a <= b {
            a as int
        } else {
            b as int
        },
    ));
    assert(shortened(s, 0) =~= Seq::<T>::empty());
}

/// Inserting many elements puts them, in order, in front of those from `index` on, which stay in
/// order behind them.
pub proof fn law_splice_positions<T>(s: Seq<T>, index: int, mid: Seq<T>)
    requires
        0 <= index <= s.len(),
    ensures
        splice(s, index, mid).len() == s.len() + mid.len(),
        forall|i: int| 0 <= i < index ==> #[trigger] splice(s, index, mid)[i] == s[i],
        forall|i: int| 0 <= i < mid.len() ==> splice(s, index, mid)[index + i] == #[trigger] mid[i],
        forall|i: int|
            index <= i < s.len() ==> splice(s, index, mid)[i + mid.len()] == #[trigger] s[i],
{
}

/// Inserting many elements is inserting one where there is one, appending where `index` is the
/// length, and nothing where there is none.
pub proof fn law_splice_cases<T>(s: Seq<T>, index: int, mid: Seq<T>, element: T)
    requires
        0 <= index <= s.len(),
    ensures
        splice(s, index, seq![element]) == s.insert(index, element),
        splice(s, s.len() as int, mid) == s + mid,
        splice(s, index, Seq::<T>::empty()) == s,
{
    assert(splice(s, index, seq![element]) =~= s.insert(index, element));
    assert(splice(s, s.len() as int, mid) =~= s + mid);
    assert(splice(s, index, Seq::<T>::empty()) =~= s);
}

/// Inserting some elements and then further ones behind them is inserting all of them at once.
pub proof fn law_splice_parts<T>(s: Seq<T>, index: int, first: Seq<T>, second: Seq<T>)
    requires
        0 <= index <= s.len(),
    ensures
        splice(splice(s, index, first), index + first.len(), second) == splice(
            s,
            index,
            first + second,
        ),
        (s + first) + second == s + (first + second),
{
    assert(splice(splice(s, index, first), index + first.len(), second) =~= splice(
        s,
        index,
        first + second,
    ));
    assert((s + first) + second =~= s + (first + second));
}

/// Taking away what was inserted restores the vector.
pub proof fn law_splice_undone<T>(s: Seq<T>, index: int, mid: Seq<T>)
    requires
        0 <= index <= s.len(),
    ensures
        splice(s, index, mid).take(index) + splice(s, index, mid).skip(index + mid.len()) == s,
{
    assert(splice(s, index, mid).take(index) + splice(s, index, mid).skip(index + mid.len()) =~= s);
}

/// `retain` preserves the order of what it retains.
pub proof fn law_retain_keeps_order<T>(s: Seq<T>, keep: Seq<bool>)
    requires
        keep.len() == s.len(),
    ensures
        in_order_of(keep_marked(s, keep), s),
{
    let at = marked_positions(keep);
    lemma_marked_positions(s, keep);
    assert(picks(keep_marked(s, keep), s, at));
}

/// The positions of the marks that are set.
spec fn marked_positions(keep: Seq<bool>) -> Seq<int>
    decreases keep.len(),
{
    if keep.len() == 0 {
        Seq::empty()
    } else {
        let rest = marked_positions(keep.drop_last());
        if keep.last() {
            rest.push(keep.len() - 1)
        } else {
            rest
        }
    }
}

proof fn lemma_marked_positions<T>(s: Seq<T>, keep: Seq<bool>)
    requires
        keep.len() == s.len(),
    ensures
        picks(keep_marked(s, keep), s, marked_positions(keep)),
    decreases s.len(),
{
    if s.len() > 0 {
        lemma_marked_positions(s.drop_last(), keep.drop_last());
        let before = marked_positions(keep.drop_last());
        let at = marked_positions(keep);
        assert forall|i: int| 0 <= i < before.len() implies #[trigger] at[i] == before[i] by {
        }
    }
}

/// `retain` with a predicate keeps exactly the elements that the predicate holds of.
pub proof fn law_retain_exact<T>(s: Seq<T>, p: spec_fn(T) -> bool)
    ensures
        forall|x: T| #[trigger] s.filter(p).contains(x) <==> s.contains(x) && p(x),
        s.filter(p).len() <= s.len(),
{
    s.lemma_filter_len(p);
    assert forall|x: T| #[trigger] s.filter(p).contains(x) implies s.contains(x) && p(x) by {
        let i = choose|i: int| 0 <= i < s.filter(p).len() && s.filter(p)[i] == x;
        s.lemma_filter_pred(p, i);
        s.lemma_filter_contains_rev(p, x);
    }
    assert forall|x: T| s.contains(x) && p(x) implies #[trigger] s.filter(p).contains(x) by {
        let i = choose|i: int| 0 <= i < s.len() && s[i] == x;
        s.lemma_filter_contains(p, i);
    }
}

/// `retain` with a predicate that holds of all elements changes nothing; with one that holds of
/// none it leaves nothing; a second time with the same predicate it changes nothing.
pub proof fn law_retain_repeated<T>(s: Seq<T>, p: spec_fn(T) -> bool)
    ensures
        (forall|i: int| 0 <= i < s.len() ==> p(#[trigger] s[i])) ==> s.filter(p) == s,
        (forall|i: int| 0 <= i < s.len() ==> !p(#[trigger] s[i])) ==> s.filter(p) == Seq::<
            T,
        >::empty(),
        s.filter(p).filter(p) == s.filter(p),
{
    lemma_filter_all(s, p);
    if forall|i: int| 0 <= i < s.len() ==> !p(#[trigger] s[i]) {
        if s.filter(p).len() > 0 {
            let x = s.filter(p)[0];
            law_retain_exact(s, p);
            assert(s.filter(p).contains(x));
            let i = choose|i: int| 0 <= i < s.len() && s[i] == x;
            assert(!p(s[i]));
        }
        assert(s.filter(p) =~= Seq::<T>::empty());
    }
    assert forall|i: int| 0 <= i < s.filter(p).len() implies p(#[trigger] s.filter(p)[i]) by {
        s.lemma_filter_pred(p, i);
    }
    lemma_filter_all(s.filter(p), p);
}

proof fn lemma_filter_all<T>(s: Seq<T>, p: spec_fn(T) -> bool)
    ensures
        (forall|i: int| 0 <= i < s.len() ==> p(#[trigger] s[i])) ==> s.filter(p) == s,
    decreases s.len(),
{
    reveal(Seq::filter);
    if s.len() > 0 && forall|i: int| 0 <= i < s.len() ==> p(#[trigger] s[i]) {
        lemma_filter_all(s.drop_last(), p);
        assert(p(s[s.len() - 1]));
        assert(s.drop_last().push(s.last()) =~= s);
    }
}

/// Deduplication preserves the order of what it keeps, and keeps the first element.
pub proof fn law_dedup_keeps_order<T>(s: Seq<T>, same: spec_fn(T, T) -> bool)
    ensures
        in_order_of(deduped(s, same), s),
        s.len() > 0 ==> deduped(s, same).len() > 0 && deduped(s, same)[0] == s[0],
    decreases s.len(),
{
    lemma_deduped_len(s, same);
    if s.len() <= 1 {
        let at = Seq::new(s.len(), |i: int| i);
        assert(picks(deduped(s, same), s, at));
    } else {
        let rest = deduped(s.drop_last(), same);
        law_dedup_keeps_order(s.drop_last(), same);
        lemma_deduped_len(s.drop_last(), same);
        let at = choose|at: Seq<int>| #[trigger] picks(rest, s.drop_last(), at);
        if same(s.last(), rest.last()) {
            assert(picks(rest, s, at));
        } else {
            assert(picks(rest.push(s.last()), s, at.push(s.len() - 1)));
        }
    }
}

/// After deduplication no element is the same as the one before it.
pub proof fn law_dedup_separates<T>(s: Seq<T>, same: spec_fn(T, T) -> bool)
    ensures
        no_neighbours_same(deduped(s, same), same),
    decreases s.len(),
{
    if s.len() > 1 {
        law_dedup_separates(s.drop_last(), same);
        lemma_deduped_len(s.drop_last(), same);
    }
}

/// Deduplication changes nothing where no element is the same as the one before it, and so changes
/// nothing a second time.
pub proof fn law_dedup_repeated<T>(s: Seq<T>, same: spec_fn(T, T) -> bool)
    ensures
        no_neighbours_same(s, same) ==> deduped(s, same) == s,
        deduped(deduped(s, same), same) == deduped(s, same),
{
    lemma_dedup_unchanged(s, same);
    law_dedup_separates(s, same);
    lemma_dedup_unchanged(deduped(s, same), same);
}

proof fn lemma_dedup_unchanged<T>(s: Seq<T>, same: spec_fn(T, T) -> bool)
    ensures
        no_neighbours_same(s, same) ==> deduped(s, same) == s,
    decreases s.len(),
{
    if s.len() > 1 && no_neighbours_same(s, same) {
        let front = s.drop_last();
        assert forall|i: int| 1 <= i < front.len() implies !same(#[trigger] front[i], front[i - 1]) by {
            assert(!same(s[i], s[i - 1]));
        }
        lemma_dedup_unchanged(front, same);
        assert(!same(s[s.len() - 1], s[s.len() - 2]));
        assert(front.push(s.last()) =~= s);
    }
}

/// Where equal elements are the same, `dedup` leaves no two equal elements next to each other.
pub proof fn law_dedup_no_equal_neighbours<T: PartialEq>(s: Seq<T>)
    requires
        vstd::laws_eq::obeys_concrete_eq::<T>(),
    ensures
        forall|i: int|
            1 <= i < deduped(s, same_value()).len() ==> #[trigger] deduped(s, same_value())[i]
                != deduped(s, same_value())[i - 1],
{
    reveal(vstd::laws_eq::obeys_concrete_eq);
    law_dedup_separates(s, same_value::<T>());
}

/// Each element that deduplication drops is the same as one that it keeps; of elements that are all
/// the same it keeps the first one alone.
pub proof fn law_dedup_drops_duplicates<T>(s: Seq<T>, same: spec_fn(T, T) -> bool)
    ensures
        forall|i: int|
            0 <= i < s.len() ==> deduped(s, same).contains(#[trigger] s[i]) || exists|k: int|
                0 <= k < deduped(s, same).len() && same(s[i], #[trigger] deduped(s, same)[k]),
        s.len() > 0 && (forall|i: int| 0 <= i < s.len() ==> same(#[trigger] s[i], s[0]))
            ==> deduped(s, same) == s.take(1),
    decreases s.len(),
{
    let kept = deduped(s, same);
    if s.len() <= 1 {
        assert forall|i: int| 0 <= i < s.len() implies kept.contains(#[trigger] s[i]) by {
            assert(kept[i] == s[i]);
        }
        assert(s.len() > 0 ==> s.take(1) =~= s);
    } else {
        let front = s.drop_last();
        let rest = deduped(front, same);
        law_dedup_drops_duplicates(front, same);
        lemma_deduped_len(front, same);
        assert forall|i: int| 0 <= i < s.len() implies kept.contains(#[trigger] s[i]) || exists|
            k: int,
        |
            0 <= k < kept.len() && same(s[i], #[trigger] kept[k]) by {
            if i < s.len() - 1 {
                assert(front[i] == s[i]);
                if rest.contains(front[i]) {
                    let k = choose|k: int| 0 <= k < rest.len() && rest[k] == front[i];
                    assert(kept[k] == s[i]);
                } else {
                    let k = choose|k: int|
                        0 <= k < rest.len() && same(front[i], #[trigger] rest[k]);
                    assert(kept[k] == rest[k]);
                }
            } else if same(s.last(), rest.last()) {
                assert(same(s[i], kept[kept.len() - 1]));
            } else {
                assert(kept[kept.len() - 1] == s[i]);
            }
        }
        if forall|i: int| 0 <= i < s.len() ==> same(#[trigger] s[i], s[0]) {
            assert forall|i: int| 0 <= i < front.len() implies same(#[trigger] front[i], front[0]) by {
                assert(same(s[i], s[0]));
            }
            assert(front.take(1) =~= s.take(1));
            assert(same(s[s.len() - 1], s[0]));
        }
    }
}

/// What a comparison that changes nothing leaves is what was kept, with the new element or without.
pub proof fn law_dedup_step<T>(kept: Seq<T>, next: T, same: bool)
    requires
        kept.len() > 0,
    ensures
        dedup_step(kept, kept.last(), next, same) == if same {
            kept
        } else {
            kept.push(next)
        },
{
    assert(kept.drop_last().push(kept.last()) =~= kept);
}

/// The elements that an iterator yields from the front, those that it still holds and those that
/// it yielded from the back are, in this order, those that it had: `n` steps from the front and
/// `m` from the back leave the elements between, in whichever order the steps are made.
pub proof fn law_both_ends<T>(s: Seq<T>, n: int, m: int)
    requires
        0 <= n,
        0 <= m,
        n + m < s.len(),
    ensures
        s.subrange(n, s.len() - m).first() == s[n],
        s.subrange(n, s.len() - m).drop_first() == s.subrange(n + 1, s.len() - m),
        s.subrange(n, s.len() - m).last() == s[s.len() - m - 1],
        s.subrange(n, s.len() - m).drop_last() == s.subrange(n, s.len() - m - 1),
        s.take(n) + s.subrange(n, s.len() - m) + s.skip(s.len() - m) == s,
{
    assert(s.subrange(n, s.len() - m).drop_first() =~= s.subrange(n + 1, s.len() - m));
    assert(s.subrange(n, s.len() - m).drop_last() =~= s.subrange(n, s.len() - m - 1));
    assert(s.take(n) + s.subrange(n, s.len() - m) + s.skip(s.len() - m) =~= s);
}

/// `into_inner` of what `from_buf` made of an array gives the array back.
pub proof fn law_array_round_trip<T, const N: usize>(
    buf: [T; N],
    v: StackVec<T, N>,
    result: Result<[T; N], StackVec<T, N>>,
)
    requires
        call_ensures(StackVec::<T, N>::from_buf, (buf,), v),
        call_ensures(StackVec::<T, N>::into_inner, (v,), result),
    ensures
        result == Ok::<[T; N], StackVec<T, N>>(buf),
{
    let out = result->Ok_0;
    assert forall|i: int| 0 <= i < N implies out[i] == buf[i] by {
        assert(out@[i] == buf@[i]);
    }
    assert(out =~= buf);
}

/// `into_vec` of what `from_vec` made of a `Vec` gives its elements back.
pub proof fn law_vec_round_trip<T, const N: usize>(vec: Vec<T>, v: StackVec<T, N>, out: Vec<T>)
    requires
        call_ensures(StackVec::<T, N>::from_vec, (vec,), v),
        call_ensures(StackVec::<T, N>::into_vec, (v,), out),
    ensures
        out@ == vec@,
{
}

/// `from_iter` of the iterator that `into_iter` makes of a vector, which is about to yield the
/// elements of the vector, gives a vector with the same elements.
pub proof fn law_into_iter_round_trip<T, const N: usize>(
    v: StackVec<T, N>,
    iter: IntoIter<T, N>,
    out: StackVec<T, N>,
)
    requires
        iter@ == v@,
        call_ensures(StackVec::<T, N>::from_iter::<IntoIter<T, N>>, (iter,), out),
    ensures
        out@ == v@,
{
}

/// `drain` leaves an empty vector, and `extend` of an empty vector by what it took out gives a
/// vector with the same elements.
pub proof fn law_drain_round_trip<T, const N: usize>(
    v: StackVec<T, N>,
    drain: Drain<'_, T>,
    emptied: StackVec<T, N>,
    out: StackVec<T, N>,
)
    requires
        exists|drained: &mut StackVec<T, N>|
            {
                &&& *drained == v
                &&& *final(drained) == emptied
                &&& #[trigger] call_ensures(StackVec::<T, N>::drain, (drained,), drain)
            },
        exists|extended: &mut StackVec<T, N>|
            {
                &&& *extended == emptied
                &&& *final(extended) == out
                &&& #[trigger] call_ensures(
                    StackVec::<T, N>::extend::<Drain<'_, T>>,
                    (extended, drain),
                    (),
                )
            },
    ensures
        emptied@ == Seq::<T>::empty(),
        out@ == v@,
{
    assert(out@ =~= v@);
}

/// A clone is equal to what it was made of, where the clone of each element is equal to it.
pub proof fn law_clone_equal<T: Clone + PartialEq, const N: usize>(
    v: StackVec<T, N>,
    clone: StackVec<T, N>,
)
    requires
        call_ensures(StackVec::<T, N>::clone, (&v,), clone),
        forall|a: T, b: T| #[trigger]
            call_ensures(T::clone, (&a,), b) ==> vstd::std_specs::cmp::PartialEqSpec::eq_spec(&a, &b),
    ensures
        vstd::std_specs::cmp::PartialEqSpec::eq_spec(&v, &clone),
{
    assert(all_cloned(v@, clone@));
    assert forall|i: int| #[trigger]
        within(i, v@) implies vstd::std_specs::cmp::PartialEqSpec::eq_spec(&v@[i], &clone@[i]) by {
        assert(call_ensures(T::clone, (&v@[i],), clone@[i]));
    }
}

/// A position is that of an element if and only if it is below the length.
pub proof fn law_positions<T>(s: Seq<T>, i: int)
    ensures
        within(i, s) <==> 0 <= i < s.len(),
{
}

/// What `truncate` leaves is the first elements, each in its place, and as many as asked for where
/// there are as many.
pub proof fn law_shortened<T>(s: Seq<T>, n: nat)
    ensures
        shortened(s, n as int).len() == if n <= s.len() {
            n
        } else {
            s.len()
        },
        forall|i: int|
            0 <= i < n && i < s.len() ==> (#[trigger] shortened(s, n as int)[i]) == s[i],
{
}

/// What marks keep is the elements at exactly the positions of the marks that are set, in order.
pub proof fn law_keep_marked_exact<T>(s: Seq<T>, keep: Seq<bool>)
    requires
        keep.len() == s.len(),
    ensures
        exists|at: Seq<int>|
            {
                &&& #[trigger] picks(keep_marked(s, keep), s, at)
                &&& forall|i: int| 0 <= i < s.len() ==> (#[trigger] at.contains(i) <==> keep[i])
            },
{
    let at = marked_positions(keep);
    lemma_marked_positions(s, keep);
    assert forall|i: int| 0 <= i < s.len() implies (#[trigger] at.contains(i) <==> keep[i]) by {
        lemma_marked_exactly(keep, i);
    }
    assert(picks(keep_marked(s, keep), s, at));
}

proof fn lemma_marked_exactly(keep: Seq<bool>, i: int)
    ensures
        marked_positions(keep).contains(i) <==> 0 <= i < keep.len() && keep[i],
    decreases keep.len(),
{
    if keep.len() > 0 {
        let front = marked_positions(keep.drop_last());
        let last = keep.len() - 1;
        lemma_marked_exactly(keep.drop_last(), i);
        if keep.last() {
            let at = marked_positions(keep);
            assert(at == front.push(last));
            assert(at[front.len() as int] == last);
            if front.contains(i) {
                let k = choose|k: int| 0 <= k < front.len() && front[k] == i;
                assert(at[k] == i);
            }
            if at.contains(i) && i != last {
                let k = choose|k: int| 0 <= k < at.len() && at[k] == i;
                assert(front[k] == i);
            }
        }
    }
}

/// What the calls with an answer left is what exactly those calls left that gave this answer, in
/// the order of the calls. (`left` is what each call left.)
pub proof fn law_answered_exact<T>(calls: Seq<Call<T, bool>>, left: Seq<T>, answer: bool)
    requires
        left.len() == calls.len(),
        forall|i: int| 0 <= i < calls.len() ==> (#[trigger] left[i]) == calls[i].after,
    ensures
        exists|at: Seq<int>|
            {
                &&& #[trigger] picks(answered(calls, answer), left, at)
                &&& forall|i: int|
                    0 <= i < calls.len() ==> (#[trigger] at.contains(i) <==> calls[i].result
                        == answer)
            },
{
    let marks = Seq::new(calls.len(), |i: int| calls[i].result == answer);
    lemma_answered_marked(calls, answer);
    assert(left =~= Seq::new(calls.len(), |i: int| calls[i].after));
    law_keep_marked_exact(left, marks);
    let at = choose|at: Seq<int>|
        {
            &&& #[trigger] picks(keep_marked(left, marks), left, at)
            &&& forall|i: int| 0 <= i < left.len() ==> (#[trigger] at.contains(i) <==> marks[i])
        };
    assert(picks(answered(calls, answer), left, at));
}

proof fn lemma_answered_marked<T>(calls: Seq<Call<T, bool>>, answer: bool)
    ensures
        answered(calls, answer) == keep_marked(
            Seq::new(calls.len(), |i: int| calls[i].after),
            Seq::new(calls.len(), |i: int| calls[i].result == answer),
        ),
    decreases calls.len(),
{
    let left = Seq::new(calls.len(), |i: int| calls[i].after);
    let marks = Seq::new(calls.len(), |i: int| calls[i].result == answer);
    if calls.len() == 0 {
        lemma_answered(calls, arbitrary(), answer);
        assert(calls =~= Seq::<Call<T, bool>>::empty());
    } else {
        let front = calls.drop_last();
        lemma_answered_marked(front, answer);
        lemma_answered(front, calls.last(), answer);
        assert(front.push(calls.last()) =~= calls);
        assert(left.drop_last() =~= Seq::new(front.len(), |i: int| front[i].after));
        assert(marks.drop_last() =~= Seq::new(front.len(), |i: int| front[i].result == answer));
    }
}

/// What the calls on pairs with an answer left is what exactly those calls left of their first
/// element that gave this answer, in the order of the calls. (`left` is what each call left.)
pub proof fn law_answered_on_pairs_exact<T>(calls: Seq<PairCall<T>>, left: Seq<T>, answer: bool)
    requires
        left.len() == calls.len(),
        forall|i: int| 0 <= i < calls.len() ==> (#[trigger] left[i]) == calls[i].first_after,
    ensures
        exists|at: Seq<int>|
            {
                &&& #[trigger] picks(answered_on_pairs(calls, answer), left, at)
                &&& forall|i: int|
                    0 <= i < calls.len() ==> (#[trigger] at.contains(i) <==> calls[i].result
                        == answer)
            },
{
    let marks = Seq::new(calls.len(), |i: int| calls[i].result == answer);
    lemma_answered_on_pairs_marked(calls, answer);
    assert(left =~= Seq::new(calls.len(), |i: int| calls[i].first_after));
    law_keep_marked_exact(left, marks);
    let at = choose|at: Seq<int>|
        {
            &&& #[trigger] picks(keep_marked(left, marks), left, at)
            &&& forall|i: int| 0 <= i < left.len() ==> (#[trigger] at.contains(i) <==> marks[i])
        };
    assert(picks(answered_on_pairs(calls, answer), left, at));
}

proof fn lemma_answered_on_pairs_marked<T>(calls: Seq<PairCall<T>>, answer: bool)
    ensures
        answered_on_pairs(calls, answer) == keep_marked(
            Seq::new(calls.len(), |i: int| calls[i].first_after),
            Seq::new(calls.len(), |i: int| calls[i].result == answer),
        ),
    decreases calls.len(),
{
    let left = Seq::new(calls.len(), |i: int| calls[i].first_after);
    let marks = Seq::new(calls.len(), |i: int| calls[i].result == answer);
    if calls.len() == 0 {
        lemma_answered_on_pairs(calls, arbitrary(), answer);
        assert(calls =~= Seq::<PairCall<T>>::empty());
    } else {
        let front = calls.drop_last();
        lemma_answered_on_pairs_marked(front, answer);
        lemma_answered_on_pairs(front, calls.last(), answer);
        assert(front.push(calls.last()) =~= calls);
        assert(left.drop_last() =~= Seq::new(front.len(), |i: int| front[i].first_after));
        assert(marks.drop_last() =~= Seq::new(front.len(), |i: int| front[i].result == answer));
    }
}

/// The elements of `s` are held, one by one, against the last one kept so far, the first of them
/// being kept: one that is the `same` goes, and one that is not is kept. `at` are the positions of
/// those kept, and `last[i]` says which of them is the last one kept once `i` was held against the
/// one before.
pub open spec fn separates<T>(
    s: Seq<T>,
    same: spec_fn(T, T) -> bool,
    at: Seq<int>,
    last: Seq<int>,
) -> bool {
    &&& last.len() == s.len()
    &&& at.len() == last.last() + 1
    &&& at[0] == 0
    &&& last[0] == 0
    &&& forall|i: int|
        1 <= i && #[trigger] within(i, s) ==> 0 <= last[i - 1] < at.len() && if same(
            s[i],
            s[at[last[i - 1]]],
        ) {
            last[i] == last[i - 1]
        } else {
            last[i] == last[i - 1] + 1 && last[i] < at.len() && at[last[i]] == i
        }
}

/// Deduplication keeps the first element, each element that is not the same as the last one kept
/// before it, and no other, in their order.
pub proof fn law_dedup_exact<T>(s: Seq<T>, same: spec_fn(T, T) -> bool)
    requires
        s.len() > 0,
    ensures
        exists|at: Seq<int>, last: Seq<int>|
            #[trigger] picks(deduped(s, same), s, at) && #[trigger] separates(s, same, at, last),
    decreases s.len(),
{
    lemma_deduped_len(s, same);
    if s.len() == 1 {
        let at = seq![0int];
        assert(picks(deduped(s, same), s, at));
        assert(separates(s, same, at, seq![0int]));
    } else {
        let front = s.drop_last();
        let rest = deduped(front, same);
        law_dedup_exact(front, same);
        lemma_deduped_len(front, same);
        let (at, last) = choose|at: Seq<int>, last: Seq<int>|
            #[trigger] picks(rest, front, at) && #[trigger] separates(front, same, at, last);
        let end = s.len() - 1;
        assert(rest.last() == front[at[at.len() - 1]]);
        if same(s.last(), rest.last()) {
            let last1 = last.push(last.last());
            assert(picks(rest, s, at));
            assert forall|i: int| 1 <= i && #[trigger] within(i, s) implies 0 <= last1[i - 1]
                < at.len() && if same(s[i], s[at[last1[i - 1]]]) {
                last1[i] == last1[i - 1]
            } else {
                last1[i] == last1[i - 1] + 1 && last1[i] < at.len() && at[last1[i]] == i
            } by {
                if i < end {
                    assert(within(i, front));
                    assert(0 <= at[last[i - 1]] < front.len());
                }
            }
            assert(separates(s, same, at, last1));
        } else {
            let at1 = at.push(end);
            let last1 = last.push(last.last() + 1);
            assert(picks(rest.push(s.last()), s, at1));
            assert forall|i: int| 1 <= i && #[trigger] within(i, s) implies 0 <= last1[i - 1]
                < at1.len() && if same(s[i], s[at1[last1[i - 1]]]) {
                last1[i] == last1[i - 1]
            } else {
                last1[i] == last1[i - 1] + 1 && last1[i] < at1.len() && at1[last1[i]] == i
            } by {
                if i < end {
                    assert(within(i, front));
                    assert(0 <= at[last[i - 1]] < front.len());
                }
            }
            assert(separates(s, same, at1, last1));
        }
    }
}

/// A comparison puts what it left of the last element kept in its place, and the new element, as it
/// left it, behind it unless it found it to be the same. What was kept before stays.
pub proof fn law_dedup_step_exact<T>(kept: Seq<T>, last: T, next: T, same: bool)
    requires
        kept.len() > 0,
    ensures
        dedup_step(kept, last, next, same).len() == kept.len() + if same {
            0int
        } else {
            1int
        },
        forall|i: int|
            0 <= i < kept.len() - 1 ==> (#[trigger] dedup_step(kept, last, next, same)[i])
                == kept[i],
        dedup_step(kept, last, next, same)[kept.len() - 1] == last,
        !same ==> dedup_step(kept, last, next, same).last() == next,
{
}

/// Elements are the same by a key where the keys are equal, and by value where they are.
pub proof fn law_same<T: PartialEq, K: PartialEq>(key: spec_fn(T) -> K, a: T, b: T)
    ensures
        same_key(key)(a, b) == vstd::std_specs::cmp::PartialEqSpec::eq_spec(&key(a), &key(b)),
        same_value()(a, b) == vstd::std_specs::cmp::PartialEqSpec::eq_spec(&a, &b),
{
}

/// A clone of a vector, and a vector made of clones of a slice, has as many elements, and at each
/// position a clone of the element there.
pub proof fn law_clones<T: Clone, const N: usize>(
    v: StackVec<T, N>,
    clone: StackVec<T, N>,
    slice: &[T],
    of_slice: StackVec<T, N>,
)
    requires
        call_ensures(StackVec::<T, N>::clone, (&v,), clone),
        call_ensures(StackVec::<T, N>::from_slice_cloned, (slice,), of_slice),
    ensures
        clone@.len() == v@.len(),
        forall|i: int|
            0 <= i < v@.len() ==> call_ensures(T::clone, (&v@[i],), #[trigger] clone@[i]),
        of_slice@.len() == slice@.len(),
        forall|i: int|
            0 <= i < slice@.len() ==> call_ensures(
                T::clone,
                (&slice@[i],),
                #[trigger] of_slice@[i],
            ),
{
    assert(all_cloned(v@, clone@));
    assert(all_cloned(slice@, of_slice@));
    assert forall|i: int| 0 <= i < v@.len() implies call_ensures(
        T::clone,
        (&v@[i],),
        #[trigger] clone@[i],
    ) by {
        assert(within(i, v@));
    }
    assert forall|i: int| 0 <= i < slice@.len() implies call_ensures(
        T::clone,
        (&slice@[i],),
        #[trigger] of_slice@[i],
    ) by {
        assert(within(i, slice@));
    }
}

/// A vector is well-formed if and only if it holds no more than `N` elements. Generic code sees its
/// elements, and `N` as their limit; of a `Vec`, the elements and no limit.
pub proof fn law_contents<T, const N: usize>(v: StackVec<T, N>, vec: Vec<T>)
    ensures
        v.wf() <==> v@.len() <= N,
        v.elements() == v@,
        v.limit() == Some(N as nat),
        vec.elements() == vec@,
        vec.limit() is None,
{
}

/// Generic extension from a slice keeps the elements that were there and appends each element of
/// the slice, a clone of it in a `Vec`.
pub proof fn law_copies<T: Copy, C: Clone, const N: usize>(from: T, to: T, of: C, clone: C)
    ensures
        <StackVec<T, N> as ExtendFromSlice<T>>::is_copy(from, to) <==> to == from,
        <Vec<C> as ExtendFromSlice<C>>::is_copy(of, clone) <==> cloned(of, clone),
{
}

/// The iterators are about to yield what their views say, and nothing after that.
pub proof fn law_iterators<T, const N: usize>(iter: IntoIter<T, N>, drain: Drain<'_, T>)
    ensures
        iter.obeys_prophetic_iter_laws(),
        iter.remaining() == iter@,
        iter.will_return_none(),
        iter.decrease() == Some(iter@.len()),
        drain.obeys_prophetic_iter_laws(),
        drain.remaining() == drain@,
        drain.will_return_none(),
        drain.decrease() == Some(drain@.len()),
{
}

} // verus!
