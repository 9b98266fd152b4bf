//! Comparison of vectors: element by element, the shorter one first.
use core::cmp::Ordering;
use vstd::prelude::*;
use vstd::laws_cmp::obeys_partial_cmp_spec_properties;
use vstd::laws_eq::{obeys_concrete_eq, obeys_eq, obeys_eq_spec_properties, obeys_view_eq};
use vstd::std_specs::cmp::{PartialEqSpec, PartialOrdSpec};
use crate::seqs::{rest, within};
use crate::stack_vec::StackVec;

verus! {

/// The lexicographic order of two sequences: that of the first two elements which are not equal,
/// and that of the lengths where one is a prefix of the other.
pub open spec fn lexicographic<T: PartialOrd>(a: Seq<T>, b: Seq<T>) -> Option<Ordering>
    decreases a.len(),
{
    if a.len() == 0 {
        if b.len() == 0 {
            Some(Ordering::Equal)
        } else {
            Some(Ordering::Less)
        }
    } else if b.len() == 0 {
        Some(Ordering::Greater)
    } else {
        match a.first().partial_cmp_spec(&b.first()) {
            Some(Ordering::Equal) => lexicographic(a.drop_first(), b.drop_first()),
            unequal => unequal,
        }
    }
}

/// `order` is what comes of comparing the elements of `a` and `b` position by position, where
/// `partial_cmp` found those at the first `n` positions equal: what it gave on those at `n`, or the
/// order of the lengths where `a` or `b` ends there.
pub open spec fn decides<T: PartialOrd>(
    a: Seq<T>,
    b: Seq<T>,
    n: int,
    order: Option<Ordering>,
) -> bool {
    &&& 0 <= n <= a.len()
    &&& n <= b.len()
    &&& forall|i: int| #[trigger]
        within(i, a) && i < n ==> call_ensures(
            T::partial_cmp,
            (&a[i], &b[i]),
            Some(Ordering::Equal),
        )
    &&& if n < a.len() && n < b.len() {
        call_ensures(T::partial_cmp, (&a[n], &b[n]), order) && order != Some(Ordering::Equal)
    } else if n < b.len() {
        order == Some(Ordering::Less)
    } else if n < a.len() {
        order == Some(Ordering::Greater)
    } else {
        order == Some(Ordering::Equal)
    }
}

impl<T: PartialEq<U>, U, const TN: usize, const UN: usize> PartialEq<StackVec<U, UN>>
    for StackVec<T, TN> {
    /// Compares the lengths first, and the elements at each position where they are the same.
    fn eq(&self, other: &StackVec<U, UN>) -> (equal: bool)
        ensures
            equal ==> self@.len() == other@.len() && forall|i: int| #[trigger]
                within(i, self@) ==> call_ensures(T::eq, (&self@[i], &other@[i]), true),
            !equal && self@.len() == other@.len() ==> exists|i: int| #[trigger]
                within(i, self@) && call_ensures(T::eq, (&self@[i], &other@[i]), false),
    {
        let a = self.as_slice();
        let b = other.as_slice();
        if a.len() != b.len() {
            return false;
        }
        let mut i: usize = 0;
        while i < a.len()
            invariant
                a@ == self@,
                b@ == other@,
                a@.len() == b@.len(),
                i <= a@.len(),
                forall|j: int| #[trigger]
                    within(j, a@) && j < i ==> call_ensures(T::eq, (&a@[j], &b@[j]), true),
                T::obeys_eq_spec() ==> forall|j: int|
                    #[trigger] within(j, a@) && j < i ==> a@[j].eq_spec(&b@[j]),
            decreases a@.len() - i,
        {
            if !a[i].eq(&b[i]) {
                assert(within(i as int, a@));
                return false;
            }
            i += 1;
        }
        true
    }
}

impl<T: PartialEq<U>, U, const TN: usize, const UN: usize> vstd::std_specs::cmp::PartialEqSpecImpl<StackVec<U, UN>>
    for StackVec<T, TN> {
    open spec fn obeys_eq_spec() -> bool {
        <T as PartialEqSpec<U>>::obeys_eq_spec()
    }

    open spec fn eq_spec(&self, other: &StackVec<U, UN>) -> bool {
        &&& self@.len() == other@.len()
        &&& forall|i: int| #[trigger] within(i, self@) ==> self@[i].eq_spec(&other@[i])
    }
}

impl<T: PartialOrd, const N: usize> PartialOrd for StackVec<T, N> {
    /// Compares the elements at each position, up to the first two that do not compare as equal.
    fn partial_cmp(&self, other: &StackVec<T, N>) -> (order: Option<Ordering>)
        ensures
            exists|n: int| #[trigger] decides(self@, other@, n, order),
    {
        let a = self.as_slice();
        let b = other.as_slice();
        let mut i: usize = 0;
        let ghost mut n: int = 0;
        assert(rest(a@, i) =~= a@);
        assert(rest(b@, i) =~= b@);
        while i < a.len() && i < b.len()
            invariant
                a@ == self@,
                b@ == other@,
                n == i,
                i <= a@.len(),
                i <= b@.len(),
                forall|j: int| #[trigger]
                    within(j, a@) && j < i ==> call_ensures(
                        T::partial_cmp,
                        (&a@[j], &b@[j]),
                        Some(Ordering::Equal),
                    ),
                T::obeys_partial_cmp_spec() ==> lexicographic(a@, b@) == lexicographic(
                    rest(a@, i),
                    rest(b@, i),
                ),
            decreases a@.len() - i,
        {
            let ghost rest_a = rest(a@, i);
            let ghost rest_b = rest(b@, i);
            match a[i].partial_cmp(&b[i]) {
                Some(Ordering::Equal) => {},
                unequal => {
                    assert(decides(a@, b@, n, unequal));
                    return unequal;
                },
            }
            i += 1;
            proof {
                n = n + 1;
            }
            assert(rest_a.drop_first() =~= rest(a@, i));
            assert(rest_b.drop_first() =~= rest(b@, i));
        }
        let order = if a.len() < b.len() {
            Some(Ordering::Less)
        } else if a.len() > b.len() {
            Some(Ordering::Greater)
        } else {
            Some(Ordering::Equal)
        };
        assert(decides(a@, b@, n, order));
        order
    }
}

impl<T: PartialOrd, const N: usize> vstd::std_specs::cmp::PartialOrdSpecImpl for StackVec<T, N> {
    open spec fn obeys_partial_cmp_spec() -> bool {
        T::obeys_partial_cmp_spec()
    }

    open spec fn partial_cmp_spec(&self, other: &StackVec<T, N>) -> Option<Ordering> {
        lexicographic(self@, other@)
    }
}

/// Equal elements compare alike with every other element.
pub open spec fn order_respects_eq<T: PartialOrd>() -> bool {
    forall|x: T, y: T, z: T| #[trigger]
        y.eq_spec(&z) ==> (#[trigger] x.partial_cmp_spec(&y)) == x.partial_cmp_spec(&z)
            && y.partial_cmp_spec(&x) == z.partial_cmp_spec(&x)
}

/// Equality of vectors is symmetric and transitive where that of their elements is.
pub proof fn law_eq_equivalence<T: PartialEq, const N: usize>()
    requires
        obeys_eq::<T>(),
    ensures
        obeys_eq::<StackVec<T, N>>(),
{
    lemma_eq_properties::<T, N>();
}

proof fn lemma_eq_properties<T: PartialEq, const N: usize>()
    requires
        obeys_eq_spec_properties::<T>(),
    ensures
        obeys_eq_spec_properties::<StackVec<T, N>>(),
{
    reveal(obeys_eq_spec_properties);
    assert forall|x: StackVec<T, N>, y: StackVec<T, N>| #[trigger] x.eq_spec(&y) implies y.eq_spec(
        &x,
    ) by {
        assert forall|i: int| #[trigger] within(i, y@) implies y@[i].eq_spec(&x@[i]) by {
            assert(within(i, x@));
        }
    }
    assert forall|x: StackVec<T, N>, y: StackVec<T, N>, z: StackVec<T, N>|
        x.eq_spec(&y) && #[trigger] y.eq_spec(&z) implies #[trigger] x.eq_spec(&z) by {
        assert forall|i: int| #[trigger] within(i, x@) implies x@[i].eq_spec(&z@[i]) by {
            assert(within(i, y@));
        }
    }
}

/// Where equal elements are the same, vectors are equal if and only if they hold the same elements
/// in the same order, whatever their capacities.
pub proof fn law_eq_same_elements<T: PartialEq, const M: usize, const N: usize>(
    a: StackVec<T, M>,
    b: StackVec<T, N>,
)
    requires
        obeys_concrete_eq::<T>(),
    ensures
        a.eq_spec(&b) <==> a@ == b@,
        obeys_view_eq::<StackVec<T, N>>(),
{
    reveal(obeys_concrete_eq);
    reveal(obeys_view_eq);
    lemma_eq_same_elements(a, b);
    assert forall|x: StackVec<T, N>, y: StackVec<T, N>| x.eq_spec(&y) <==> x@ == y@ by {
        lemma_eq_same_elements(x, y);
    }
}

proof fn lemma_eq_same_elements<T: PartialEq, const M: usize, const N: usize>(
    a: StackVec<T, M>,
    b: StackVec<T, N>,
)
    requires
        obeys_concrete_eq::<T>(),
    ensures
        a.eq_spec(&b) <==> a@ == b@,
{
    reveal(obeys_concrete_eq);
    if a.eq_spec(&b) {
        assert forall|i: int| 0 <= i < a@.len() implies a@[i] == b@[i] by {
            assert(within(i, a@));
        }
        assert(a@ =~= b@);
    }
}

/// The order of vectors is a strict order that agrees with their equality, where that of their
/// elements is one that equal elements agree in: two vectors compare as equal if and only if `==`
/// finds them equal, the first is less than the second if and only if the second is greater than
/// the first, and both relations are transitive.
pub proof fn law_order<T: PartialOrd, const N: usize>()
    requires
        obeys_partial_cmp_spec_properties::<T>(),
        order_respects_eq::<T>(),
    ensures
        obeys_partial_cmp_spec_properties::<StackVec<T, N>>(),
{
    reveal(obeys_partial_cmp_spec_properties);
    assert forall|x: StackVec<T, N>, y: StackVec<T, N>| #[trigger]
        x.partial_cmp_spec(&y) == Some(Ordering::Equal) <==> x.eq_spec(&y) by {
        lemma_order_eq(x@, y@);
    }
    assert forall|x: StackVec<T, N>, y: StackVec<T, N>| #[trigger]
        x.partial_cmp_spec(&y) == Some(Ordering::Less) <==> y.partial_cmp_spec(&x) == Some(
            Ordering::Greater,
        ) by {
        lemma_order_reverse(x@, y@);
    }
    assert forall|x: StackVec<T, N>, y: StackVec<T, N>, z: StackVec<T, N>|
        x.partial_cmp_spec(&y) == Some(Ordering::Less) && #[trigger] y.partial_cmp_spec(&z) == Some(
            Ordering::Less,
        ) implies #[trigger] x.partial_cmp_spec(&z) == Some(Ordering::Less) by {
        lemma_order_transitive(x@, y@, z@);
    }
    assert forall|x: StackVec<T, N>, y: StackVec<T, N>, z: StackVec<T, N>|
        x.partial_cmp_spec(&y) == Some(Ordering::Greater) && #[trigger] y.partial_cmp_spec(&z)
            == Some(Ordering::Greater) implies #[trigger] x.partial_cmp_spec(&z) == Some(
        Ordering::Greater,
    ) by {
        lemma_order_reverse(y@, x@);
        lemma_order_reverse(z@, y@);
        lemma_order_reverse(z@, x@);
        lemma_order_transitive(z@, y@, x@);
    }
    lemma_eq_properties::<T, N>();
}

proof fn lemma_order_eq<T: PartialOrd>(a: Seq<T>, b: Seq<T>)
    requires
        obeys_partial_cmp_spec_properties::<T>(),
    ensures
        lexicographic(a, b) == Some(Ordering::Equal) <==> (a.len() == b.len() && forall|i: int|
            #[trigger] within(i, a) ==> a[i].eq_spec(&b[i])),
    decreases a.len(),
{
    reveal(obeys_partial_cmp_spec_properties);
    if a.len() > 0 && b.len() > 0 {
        let rest_a = a.drop_first();
        let rest_b = b.drop_first();
        lemma_order_eq(rest_a, rest_b);
        if lexicographic(a, b) == Some(Ordering::Equal) {
            assert forall|i: int| #[trigger] within(i, a) implies a[i].eq_spec(&b[i]) by {
                if i > 0 {
                    assert(within(i - 1, rest_a));
                    assert(rest_a[i - 1].eq_spec(&rest_b[i - 1]));
                }
            }
        }
        if a.len() == b.len() && forall|i: int| #[trigger] within(i, a) ==> a[i].eq_spec(&b[i]) {
            assert(within(0, a));
            assert forall|i: int| #[trigger] within(i, rest_a) implies rest_a[i].eq_spec(
                &rest_b[i],
            ) by {
                assert(within(i + 1, a));
            }
        }
    }
}

proof fn lemma_order_reverse<T: PartialOrd>(a: Seq<T>, b: Seq<T>)
    requires
        obeys_partial_cmp_spec_properties::<T>(),
    ensures
        lexicographic(a, b) == Some(Ordering::Less) <==> lexicographic(b, a) == Some(
            Ordering::Greater,
        ),
    decreases a.len(),
{
    reveal(obeys_partial_cmp_spec_properties);
    reveal(obeys_eq_spec_properties);
    if a.len() > 0 && b.len() > 0 {
        lemma_order_reverse(a.drop_first(), b.drop_first());
        let x = a.first();
        let y = b.first();
        assert(x.partial_cmp_spec(&y) == Some(Ordering::Equal) <==> x.eq_spec(&y));
        assert(y.partial_cmp_spec(&x) == Some(Ordering::Equal) <==> y.eq_spec(&x));
    }
}

proof fn lemma_order_transitive<T: PartialOrd>(a: Seq<T>, b: Seq<T>, c: Seq<T>)
    requires
        obeys_partial_cmp_spec_properties::<T>(),
        order_respects_eq::<T>(),
        lexicographic(a, b) == Some(Ordering::Less),
        lexicographic(b, c) == Some(Ordering::Less),
    ensures
        lexicographic(a, c) == Some(Ordering::Less),
    decreases a.len(),
{
    reveal(obeys_partial_cmp_spec_properties);
    reveal(obeys_eq_spec_properties);
    if a.len() > 0 && b.len() > 0 && c.len() > 0 {
        let x = a.first();
        let y = b.first();
        let z = c.first();
        assert(x.partial_cmp_spec(&y) == Some(Ordering::Equal) <==> x.eq_spec(&y));
        assert(y.partial_cmp_spec(&z) == Some(Ordering::Equal) <==> y.eq_spec(&z));
        if x.eq_spec(&y) && y.eq_spec(&z) {
            assert(x.eq_spec(&z));
            assert(x.partial_cmp_spec(&z) == Some(Ordering::Equal));
            lemma_order_transitive(a.drop_first(), b.drop_first(), c.drop_first());
        } else if y.eq_spec(&z) {
            assert(x.partial_cmp_spec(&z) == x.partial_cmp_spec(&y));
        } else if x.eq_spec(&y) {
            assert(z.partial_cmp_spec(&x) == z.partial_cmp_spec(&y));
            assert(x.partial_cmp_spec(&z) == y.partial_cmp_spec(&z));
        }
    }
}

/// A vector is less than every longer one that it is the beginning of, where each element compares
/// as equal to itself.
pub proof fn law_order_prefix<T: PartialOrd>(a: Seq<T>, more: Seq<T>)
    requires
        forall|i: int|
            0 <= i < a.len() ==> (#[trigger] a[i]).partial_cmp_spec(&a[i]) == Some(Ordering::Equal),
    ensures
        lexicographic(a, a + more) == if more.len() == 0 {
            Some(Ordering::Equal)
        } else {
            Some(Ordering::Less)
        },
    decreases a.len(),
{
    if a.len() > 0 {
        let rest_a = a.drop_first();
        assert forall|i: int| 0 <= i < rest_a.len() implies (#[trigger] rest_a[i]).partial_cmp_spec(
            &rest_a[i],
        ) == Some(Ordering::Equal) by {
            assert(a[i + 1].partial_cmp_spec(&a[i + 1]) == Some(Ordering::Equal));
        }
        law_order_prefix(rest_a, more);
        assert((a + more).drop_first() =~= rest_a + more);
        assert(a[0].partial_cmp_spec(&a[0]) == Some(Ordering::Equal));
    }
}

/// The first two elements at the same position that do not compare as equal decide, whatever
/// follows them.
pub proof fn law_order_decided<T: PartialOrd>(
    front: Seq<T>,
    other: Seq<T>,
    x: T,
    y: T,
    a: Seq<T>,
    b: Seq<T>,
)
    requires
        front.len() == other.len(),
        forall|i: int|
            0 <= i < front.len() ==> (#[trigger] front[i]).partial_cmp_spec(&other[i]) == Some(
                Ordering::Equal,
            ),
        x.partial_cmp_spec(&y) != Some(Ordering::Equal),
    ensures
        lexicographic(front.push(x) + a, other.push(y) + b) == x.partial_cmp_spec(&y),
    decreases front.len(),
{
    let left = front.push(x) + a;
    let right = other.push(y) + b;
    if front.len() > 0 {
        let rest_front = front.drop_first();
        let rest_other = other.drop_first();
        assert forall|i: int| 0 <= i < rest_front.len() implies (
        #[trigger] rest_front[i]).partial_cmp_spec(&rest_other[i]) == Some(Ordering::Equal) by {
            assert(front[i + 1].partial_cmp_spec(&other[i + 1]) == Some(Ordering::Equal));
        }
        law_order_decided(rest_front, rest_other, x, y, a, b);
        assert(left.drop_first() =~= rest_front.push(x) + a);
        assert(right.drop_first() =~= rest_other.push(y) + b);
        assert(front[0].partial_cmp_spec(&other[0]) == Some(Ordering::Equal));
    }
}

/// Vectors are equal if and only if they have as many elements and those at each position are
/// equal, and `==` on them finds that out where `==` on the elements does.
pub proof fn law_eq_elements<T: PartialEq<U>, U, const M: usize, const N: usize>(
    a: StackVec<T, M>,
    b: StackVec<U, N>,
)
    ensures
        a.eq_spec(&b) <==> a@.len() == b@.len() && forall|i: int|
            0 <= i < a@.len() ==> (#[trigger] a@[i]).eq_spec(&b@[i]),
        <StackVec<T, M> as PartialEqSpec<StackVec<U, N>>>::obeys_eq_spec()
            == <T as PartialEqSpec<U>>::obeys_eq_spec(),
{
    if a.eq_spec(&b) {
        assert forall|i: int| 0 <= i < a@.len() implies (#[trigger] a@[i]).eq_spec(&b@[i]) by {
            assert(within(i, a@));
        }
    }
}

/// Whatever `==` on elements is: `==` on vectors answers `true` only where they have as many
/// elements and it found those at each position equal, and `false` only where they do not have as
/// many or it found those at a position not equal.
pub proof fn law_eq_calls<T: PartialEq<U>, U, const M: usize, const N: usize>(
    a: StackVec<T, M>,
    b: StackVec<U, N>,
    equal: bool,
)
    requires
        call_ensures(<StackVec<T, M> as PartialEq<StackVec<U, N>>>::eq, (&a, &b), equal),
    ensures
        equal ==> a@.len() == b@.len() && forall|i: int|
            0 <= i < a@.len() ==> call_ensures(T::eq, (&#[trigger] a@[i], &b@[i]), true),
        !equal ==> a@.len() != b@.len() || exists|i: int|
            0 <= i < a@.len() && call_ensures(T::eq, (&#[trigger] a@[i], &b@[i]), false),
{
    if equal {
        assert forall|i: int| 0 <= i < a@.len() implies call_ensures(
            T::eq,
            (&#[trigger] a@[i], &b@[i]),
            true,
        ) by {
            assert(within(i, a@));
        }
    } else if a@.len() == b@.len() {
        let i = choose|i: int| #[trigger]
            within(i, a@) && call_ensures(T::eq, (&a@[i], &b@[i]), false);
        assert(0 <= i < a@.len() && call_ensures(T::eq, (&a@[i], &b@[i]), false));
    }
}

/// Whatever the order of elements is: that of vectors is what comparing the elements at some
/// position gave, where comparing those at each position before it gave equal, or the order of the
/// lengths where one vector ends there.
pub proof fn law_order_calls<T: PartialOrd, const N: usize>(
    a: StackVec<T, N>,
    b: StackVec<T, N>,
    order: Option<Ordering>,
)
    requires
        call_ensures(StackVec::<T, N>::partial_cmp, (&a, &b), order),
    ensures
        exists|n: int|
            {
                &&& 0 <= n <= a@.len()
                &&& n <= b@.len()
                &&& #[trigger] decides(a@, b@, n, order)
                &&& forall|i: int|
                    0 <= i < n ==> call_ensures(
                        T::partial_cmp,
                        (&#[trigger] a@[i], &b@[i]),
                        Some(Ordering::Equal),
                    )
                &&& n < a@.len() && n < b@.len() ==> order != Some(Ordering::Equal)
                    && call_ensures(T::partial_cmp, (&a@[n], &b@[n]), order)
                &&& n == a@.len() && n < b@.len() ==> order == Some(Ordering::Less)
                &&& n < a@.len() && n == b@.len() ==> order == Some(Ordering::Greater)
                &&& n == a@.len() && n == b@.len() ==> order == Some(Ordering::Equal)
            },
        StackVec::<T, N>::obeys_partial_cmp_spec() == T::obeys_partial_cmp_spec(),
        a.partial_cmp_spec(&b) == lexicographic(a@, b@),
{
    let n = choose|n: int| #[trigger] decides(a@, b@, n, order);
    assert forall|i: int| 0 <= i < n implies call_ensures(
        T::partial_cmp,
        (&#[trigger] a@[i], &b@[i]),
        Some(Ordering::Equal),
    ) by {
        assert(within(i, a@));
    }
}

} // verus!
