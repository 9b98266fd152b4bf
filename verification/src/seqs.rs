//! What the operations of a vector do to the sequence of its elements.
use vstd::prelude::*;

verus! {

/// `i` is the position of an element of `s`.
pub open spec fn within<T>(i: int, s: Seq<T>) -> bool {
    0 <= i < s.len()
}

/// `p` holds of every element of `s`.
pub open spec fn all_satisfy<T>(s: Seq<T>, p: spec_fn(T) -> bool) -> bool {
    forall|i: int| 0 <= i < s.len() ==> p(#[trigger] s[i])
}

/// The first `n` elements of `s`, or all of `s` where it has no more than `n`.
pub open spec fn shortened<T>(s: Seq<T>, n: int) -> Seq<T> {
    if 0 <= n < s.len() {
        s.take(n)
    } else {
        s
    }
}

/// What is left of `s` without its first `n` elements.
pub open spec fn rest<T>(s: Seq<T>, n: usize) -> Seq<T> {
    s.skip(n as int)
}

/// `s` with `mid` put in front of its element `at`, or at its end where `at` is its length.
pub open spec fn splice<T>(s: Seq<T>, at: int, mid: Seq<T>) -> Seq<T> {
    s.take(at) + mid + s.skip(at)
}

/// `s` with the elements at `a` and `b` exchanged.
pub open spec fn swapped<T>(s: Seq<T>, a: int, b: int) -> Seq<T> {
    s.update(a, s[b]).update(b, s[a])
}

/// The elements of `s` whose mark in `keep` is set, in their order.
pub open spec fn keep_marked<T>(s: Seq<T>, keep: Seq<bool>) -> Seq<T>
    decreases s.len(),
{
    if s.len() == 0 {
        Seq::empty()
    } else {
        let rest = keep_marked(s.drop_last(), keep.drop_last());
        if keep.last() {
            rest.push(s.last())
        } else {
            rest
        }
    }
}

/// What has been kept of a sequence after one more element was held against the last one kept:
/// `last` is what that comparison left of the last one kept, `next` what it left of the new
/// element, which goes where it was found to be the `same`.
pub open spec fn dedup_step<T>(kept: Seq<T>, last: T, next: T, same: bool) -> Seq<T> {
    if same {
        kept.drop_last().push(last)
    } else {
        kept.drop_last().push(last).push(next)
    }
}

/// `s` without each element that is the `same` as the last one kept before it. `same` takes the
/// later element first.
pub open spec fn deduped<T>(s: Seq<T>, same: spec_fn(T, T) -> bool) -> Seq<T>
    decreases s.len(),
{
    if s.len() <= 1 {
        s
    } else {
        let rest = deduped(s.drop_last(), same);
        if same(s.last(), rest.last()) {
            rest
        } else {
            rest.push(s.last())
        }
    }
}

/// Two elements are the same where `key` maps them to equal keys.
pub open spec fn same_key<T, K: PartialEq>(key: spec_fn(T) -> K) -> spec_fn(T, T) -> bool {
    |a: T, b: T| vstd::std_specs::cmp::PartialEqSpec::eq_spec(&key(a), &key(b))
}

/// Two elements are the same where `==` finds them equal.
pub open spec fn same_value<T: PartialEq>() -> spec_fn(T, T) -> bool {
    |a: T, b: T| vstd::std_specs::cmp::PartialEqSpec::eq_spec(&a, &b)
}

/// `to` holds, element by element, what `clone` gives on `from`.
pub open spec fn all_cloned<T: Clone>(from: Seq<T>, to: Seq<T>) -> bool {
    &&& to.len() == from.len()
    &&& forall|i: int| #[trigger]
        within(i, from) ==> call_ensures(T::clone, (&from[i],), to[i])
}

/// Marks that a predicate sets keep what `filter` keeps.
pub proof fn lemma_keep_marked_filter<T>(s: Seq<T>, keep: Seq<bool>, p: spec_fn(T) -> bool)
    requires
        keep.len() == s.len(),
        forall|i: int| 0 <= i < s.len() ==> #[trigger] keep[i] == p(s[i]),
    ensures
        keep_marked(s, keep) == s.filter(p),
    decreases s.len(),
{
    reveal(Seq::filter);
    if s.len() > 0 {
        lemma_keep_marked_filter(s.drop_last(), keep.drop_last(), p);
    }
}

/// What is left of a sequence that is not empty is not empty.
pub proof fn lemma_deduped_len<T>(s: Seq<T>, same: spec_fn(T, T) -> bool)
    ensures
        deduped(s, same).len() <= s.len(),
        s.len() > 0 ==> deduped(s, same).len() > 0,
    decreases s.len(),
{
    if s.len() > 1 {
        lemma_deduped_len(s.drop_last(), same);
    }
}

/// What has been kept after each element of `s`, where no comparison changes what it compares.
pub open spec fn dedup_trace<T>(s: Seq<T>, kept: Seq<Seq<T>>, same: Seq<bool>) -> bool {
    &&& kept.len() == same.len() == s.len()
    &&& kept[0] == s.take(1)
    &&& forall|r: int|
        1 <= r && #[trigger] within(r, s) ==> kept[r] == dedup_step(
            kept[r - 1],
            kept[r - 1].last(),
            s[r],
            same[r],
        )
}

/// A trace whose marks come from a relation ends in what that relation leaves.
pub proof fn lemma_trace_deduped<T>(
    s: Seq<T>,
    kept: Seq<Seq<T>>,
    marks: Seq<bool>,
    same: spec_fn(T, T) -> bool,
    r: int,
)
    requires
        dedup_trace(s, kept, marks),
        forall|j: int| 1 <= j && #[trigger] within(j, s) ==> marks[j] == same(s[j], kept[j - 1].last()),
        0 <= r < s.len(),
    ensures
        kept[r] == deduped(s.take(r + 1), same),
    decreases r,
{
    if r > 0 {
        lemma_trace_deduped(s, kept, marks, same, r - 1);
        lemma_deduped_len(s.take(r), same);
        assert(within(r, s));
        assert(s.take(r + 1).drop_last() =~= s.take(r));
        assert(kept[r - 1].drop_last().push(kept[r - 1].last()) =~= kept[r - 1]);
    }
}

/// Of a trace whose comparisons change nothing, what is kept and what is marked as the same are
/// together the elements that were compared.
pub proof fn lemma_trace_account<T>(s: Seq<T>, kept: Seq<Seq<T>>, same: Seq<bool>, r: int)
    requires
        dedup_trace(s, kept, same),
        !same[0],
        0 <= r < s.len(),
    ensures
        kept[r].len() > 0,
        kept[r].to_multiset().add(keep_marked(s.take(r + 1), same.take(r + 1)).to_multiset())
            == s.take(r + 1).to_multiset(),
    decreases r,
{
    broadcast use vstd::seq_lib::group_to_multiset_ensures;

    let marked = keep_marked(s.take(r + 1), same.take(r + 1));
    assert(s.take(r + 1).drop_last() =~= s.take(r));
    assert(same.take(r + 1).drop_last() =~= same.take(r));
    if r == 0 {
        reveal_with_fuel(keep_marked, 2);
        assert(marked =~= Seq::<T>::empty());
        assert(kept[0].to_multiset().add(marked.to_multiset()) =~= s.take(1).to_multiset());
    } else {
        lemma_trace_account(s, kept, same, r - 1);
        assert(within(r, s));
        assert(kept[r - 1].drop_last().push(kept[r - 1].last()) =~= kept[r - 1]);
        let before = keep_marked(s.take(r), same.take(r));
        assert(s.take(r + 1) =~= s.take(r).push(s[r]));
        assert(s.take(r + 1).to_multiset() =~= s.take(r).to_multiset().insert(s[r]));
        if same[r] {
            assert(marked =~= before.push(s[r]));
            assert(marked.to_multiset() =~= before.to_multiset().insert(s[r]));
        } else {
            assert(marked =~= before);
            assert(kept[r].to_multiset() =~= kept[r - 1].to_multiset().insert(s[r]));
        }
        assert(kept[r].to_multiset().add(marked.to_multiset()) =~= s.take(r + 1).to_multiset());
    }
}

/// Moving the first element to the end changes the order alone.
pub proof fn lemma_rotate<T>(s: Seq<T>)
    requires
        s.len() > 0,
    ensures
        s.drop_first().push(s.first()).to_multiset() == s.to_multiset(),
{
    let first = seq![s.first()];
    vstd::seq_lib::lemma_multiset_commutative(first, s.drop_first());
    vstd::seq_lib::lemma_multiset_commutative(s.drop_first(), first);
    assert(first + s.drop_first() =~= s);
    assert(s.drop_first() + first =~= s.drop_first().push(s.first()));
    assert(s.drop_first().push(s.first()).to_multiset() =~= s.to_multiset());
}

} // verus!
