//! A vector with a fixed capacity.
//!
//! [`StackVec<T, N>`](StackVec) has the operations of a `Vec<T>` and holds at most `N` elements.
//! The contracts speak of a vector through its view, the sequence of its elements: `v@` is a
//! `Seq<T>`. What an operation does to that sequence is written with the functions of [`seqs`];
//! what holds of several operations together is proved in [`laws`] and [`order`]. What an operation
//! did with elements that it gave up, and with functions and iterators that it was handed, is in its
//! contract through the records of [`evidence`]; what each call does is proved in [`effects`].
//!
//! An operation that has to make room states in its precondition that there is room, and one that
//! takes a position states that the position exists.

pub mod convert;
mod cursor;
pub mod effects;
pub mod evidence;
pub mod iter;
pub mod laws;
pub mod order;
mod outside;
pub mod seqs;
pub mod slices;
pub mod stack_vec;
pub mod traits;

pub use iter::{Drain, IntoIter};
pub use stack_vec::StackVec;
pub use traits::{Contents, ExtendFromSlice, VecLike};
