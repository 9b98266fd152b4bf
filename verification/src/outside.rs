//! The operations of `std` that the library calls and does not prove.
use vstd::prelude::*;

verus! {

/// Calls `Vec::from` on an array, which moves the array's elements into a vector in their order.
#[verifier::external_body]
pub(crate) fn array_into_vec<T, const N: usize>(array: [T; N]) -> (vec: Vec<T>)
    ensures
        vec@ == array@,
{
    Vec::from(array)
}

/// Calls `<[T; N]>::try_from` on a vector, which moves the vector's elements into an array of `N`
/// in their order if there are exactly `N`, and otherwise gives the vector back.
#[verifier::external_body]
pub(crate) fn vec_into_array<T, const N: usize>(vec: Vec<T>) -> (result: Result<[T; N], Vec<T>>)
    ensures
        vec@.len() == N ==> result is Ok && result->Ok_0@ == vec@,
        vec@.len() != N ==> result is Err && result->Err_0 == vec,
{
    vec.try_into()
}

/// Calls `Iterator::size_hint` and gives its lower bound. An iterator may yield fewer elements than
/// it says here, and nothing obliges it to say the same twice, so nothing is claimed of the result:
/// the callers are proved for every value of it.
#[verifier::external_body]
pub(crate) fn size_hint_lower<I: Iterator>(iter: &I) -> usize {
    iter.size_hint().0
}

/// The error of `std::io`, which no operation here ever returns.
#[verifier::external_type_specification]
#[verifier::external_body]
pub struct ExIoError(std::io::Error);

/// The target of formatted output.
#[verifier::external_type_specification]
#[verifier::external_body]
pub struct ExFormatter<'a>(core::fmt::Formatter<'a>);

/// The error of a formatted output that failed.
#[verifier::external_type_specification]
#[verifier::external_body]
pub struct ExFmtError(core::fmt::Error);

/// Calls the `Debug` implementation of slices, which writes the list of the elements. What each
/// element writes, and whether the target takes it, is up to the element's type and the target,
/// so nothing is claimed of the result; a caller's contract names the call that gave it.
#[verifier::external_body]
pub fn fmt_slice<T: core::fmt::Debug>(
    slice: &[T],
    f: &mut core::fmt::Formatter<'_>,
) -> core::fmt::Result {
    core::fmt::Debug::fmt(slice, f)
}

} // verus!
