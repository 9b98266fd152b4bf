# stackvector

A vector with a fixed capacity, `StackVec<T, N>`, verified with Verus.

- `src/stack_vec.rs`: the type and its operations.
- `src/iter.rs`, `src/cursor.rs`: the iterators that give the elements away, from either end.
- `src/slices.rs`, `src/convert.rs`, `src/order.rs`, `src/traits.rs`: the vector as a slice,
  conversions, comparison, and the traits that it shares with `Vec`.
- `src/seqs.rs`: what the operations do, as functions on sequences.
- `src/laws.rs`, and the proof functions of `src/order.rs`: what holds of the operations together.
- `src/outside.rs`: the functions and types of `std` that are trusted.
- `tests/`: tests of the library.
- `app/`: the vector for callers that are not verified. It tests the preconditions at run time and
  panics where they fail, and has the traits of `std` that cannot carry a precondition and the
  macro `stackvec!`.

The elements stand in a `Vec<T>`, of which the contracts bound the length by `N`: to hand out a slice
of an array that is filled in part only would take `unsafe` code, and the library has none.
