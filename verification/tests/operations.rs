use std::cell::{Cell, RefCell};
use std::cmp::Ordering;
use std::collections::hash_map::DefaultHasher;
use std::hash::{Hash, Hasher};

use stackvector::{ExtendFromSlice, StackVec, VecLike};

/// Notes its number when it is dropped.
struct Noted<'a>(u8, &'a RefCell<Vec<u8>>);

impl<'a> Drop for Noted<'a> {
    fn drop(&mut self) {
        self.1.borrow_mut().push(self.0);
    }
}

#[test]
fn from_buf_takes_the_whole_array() {
    let v: StackVec<i32, 5> = StackVec::from_buf([1, 2, 3, 4, 5]);
    assert_eq!(&*v, &[1, 2, 3, 4, 5]);
    assert_eq!(v.len(), v.capacity());
}

#[test]
fn from_buf_and_len_takes_the_first_elements() {
    let buf = [1, 2, 3, 4, 5, 0, 0, 0];
    let v: StackVec<i32, 8> = StackVec::from_buf_and_len(buf, 5);
    assert_eq!(&*v, &[1, 2, 3, 4, 5]);
    let v: StackVec<i32, 8> = StackVec::from_buf_and_len_unchecked(buf, 0);
    assert!(v.is_empty());
    let v: StackVec<i32, 8> = StackVec::from_buf_and_len_unchecked(buf, 8);
    assert_eq!(&*v, &buf);
}

#[test]
fn from_buf_and_len_drops_what_it_leaves_out() {
    let log = RefCell::new(Vec::new());
    let buf = [Noted(0, &log), Noted(1, &log), Noted(2, &log)];
    let v: StackVec<Noted, 3> = StackVec::from_buf_and_len(buf, 1);
    assert_eq!(v.len(), 1);
    assert_eq!(*log.borrow(), vec![1, 2]);
}

#[test]
fn from_vec_unchecked_keeps_the_elements() {
    let v: StackVec<i32, 5> = StackVec::from_vec_unchecked(vec![1, 2, 3]);
    assert_eq!(&*v, &[1, 2, 3]);
    assert_eq!(v.capacity(), 5);
}

#[test]
fn array_round_trip() {
    let array = ["a".to_string(), "b".to_string()];
    let v: StackVec<String, 2> = StackVec::from_buf(array.clone());
    assert_eq!(v.into_inner().unwrap(), array);
}

#[test]
fn into_inner_gives_back_a_vector_that_is_not_full() {
    let v: StackVec<u8, 3> = StackVec::from_slice(&[1, 2]);
    let back = v.into_inner().unwrap_err();
    assert_eq!(&*back, &[1, 2]);
    let empty: StackVec<u8, 0> = StackVec::new();
    assert_eq!(empty.into_inner(), Ok([]));
}

#[test]
fn vec_round_trip() {
    let v: StackVec<u8, 4> = StackVec::from_vec(vec![7, 8, 9]);
    assert_eq!(v.into_vec(), vec![7, 8, 9]);
}

#[test]
fn iterator_round_trip() {
    let v: StackVec<u8, 4> = StackVec::from_slice(&[7, 8, 9]);
    let copy: StackVec<u8, 4> = StackVec::from_iter(v.clone().into_iter());
    assert_eq!(copy, v);
    let mut emptied = v.clone();
    let taken: Vec<u8> = emptied.drain().collect();
    emptied.extend(taken.into_iter());
    assert_eq!(emptied, v);
}

#[test]
fn set_len_drops_nothing() {
    let log = RefCell::new(Vec::new());
    let mut v: StackVec<Noted, 3> = StackVec::new();
    v.push(Noted(0, &log));
    v.push(Noted(1, &log));
    v.set_len(1);
    assert_eq!(v.len(), 1);
    assert!(log.borrow().is_empty());
    v.set_len(1);
    drop(v);
    assert_eq!(*log.borrow(), vec![0]);
}

#[test]
fn push_then_pop() {
    let mut v: StackVec<u8, 2> = StackVec::new();
    assert_eq!(v.pop(), None);
    v.push(1);
    v.push(2);
    assert_eq!(v.pop(), Some(2));
    assert_eq!(v.pop(), Some(1));
    assert_eq!(v.pop(), None);
}

#[test]
fn pop_then_push_restores() {
    let mut v: StackVec<u8, 3> = StackVec::from_slice(&[1, 2, 3]);
    let last = v.pop().unwrap();
    v.push(last);
    assert_eq!(&*v, &[1, 2, 3]);
}

#[test]
fn insert_then_remove_restores() {
    let mut v: StackVec<u8, 5> = StackVec::from_slice(&[1, 2, 3]);
    v.insert(0, 9);
    assert_eq!(&*v, &[9, 1, 2, 3]);
    v.insert(3, 8);
    assert_eq!(&*v, &[9, 1, 2, 8, 3]);
    assert_eq!(v.remove(3), 8);
    assert_eq!(v.remove(0), 9);
    assert_eq!(&*v, &[1, 2, 3]);
}

#[test]
fn remove_then_insert_restores() {
    let mut v: StackVec<u8, 3> = StackVec::from_slice(&[1, 2, 3]);
    let removed = v.remove(1);
    assert_eq!(&*v, &[1, 3]);
    v.insert(1, removed);
    assert_eq!(&*v, &[1, 2, 3]);
    let removed = v.remove(2);
    v.push(removed);
    assert_eq!(&*v, &[1, 2, 3]);
}

#[test]
fn swap_remove_moves_the_last_element() {
    let mut v: StackVec<u8, 4> = StackVec::from_slice(&[1, 2, 3, 4]);
    assert_eq!(v.swap_remove(0), 1);
    assert_eq!(&*v, &[4, 2, 3]);
    assert_eq!(v.swap_remove(2), 3);
    assert_eq!(&*v, &[4, 2]);
    assert_eq!(v.swap_remove(1), 2);
    assert_eq!(v.swap_remove(0), 4);
    assert!(v.is_empty());
}

#[test]
fn removal_keeps_the_other_elements() {
    let mut a: StackVec<u8, 5> = StackVec::from_slice(&[3, 1, 3, 2, 1]);
    let mut b = a.clone();
    assert_eq!(a.remove(2), 3);
    assert_eq!(b.swap_remove(2), 3);
    a.sort();
    b.sort();
    assert_eq!(&*a, &[1, 1, 2, 3]);
    assert_eq!(a, b);
}

#[test]
fn truncate_drops_the_last_element_first() {
    let log = RefCell::new(Vec::new());
    let mut v: StackVec<Noted, 4> = StackVec::new();
    for i in 0..4 {
        v.push(Noted(i, &log));
    }
    v.truncate(7);
    assert_eq!(v.len(), 4);
    v.truncate(2);
    assert_eq!(*log.borrow(), vec![3, 2]);
    v.clear();
    assert_eq!(*log.borrow(), vec![3, 2, 1, 0]);
    assert!(v.is_empty());
}

#[test]
fn truncate_twice_is_truncate_to_the_shorter() {
    let mut a: StackVec<u8, 5> = StackVec::from_slice(&[1, 2, 3, 4, 5]);
    let mut b = a.clone();
    a.truncate(4);
    a.truncate(2);
    b.truncate(2);
    b.truncate(4);
    assert_eq!(&*a, &[1, 2]);
    assert_eq!(a, b);
}

#[test]
fn insert_many_at_each_end() {
    let mut v: StackVec<u8, 8> = StackVec::from_slice(&[1, 2]);
    v.insert_many(2, vec![3, 4].into_iter());
    assert_eq!(&*v, &[1, 2, 3, 4]);
    v.insert_many(0, 8..10);
    assert_eq!(&*v, &[8, 9, 1, 2, 3, 4]);
    v.insert_many(3, 0..0);
    assert_eq!(&*v, &[8, 9, 1, 2, 3, 4]);
    v.insert_many(6, 6..8);
    assert_eq!(v.len(), v.capacity());
}

#[test]
fn insert_many_of_one_is_insert() {
    let mut a: StackVec<u8, 4> = StackVec::from_slice(&[1, 2]);
    let mut b = a.clone();
    a.insert_many(1, 7..8);
    b.insert(1, 7);
    assert_eq!(a, b);
    assert_eq!(&*a, &[1, 7, 2]);
}

#[test]
fn insert_many_whatever_the_hint() {
    for lower_bound in 0..6 {
        let mut v: StackVec<u8, 8> = StackVec::from_slice(&[1, 2]);
        v.insert_many_hinted(1, 7..10, lower_bound);
        assert_eq!(&*v, &[1, 7, 8, 9, 2]);
    }
}

/// Says that it will yield more elements than it does.
struct Boastful(u8);

impl Iterator for Boastful {
    type Item = u8;

    fn next(&mut self) -> Option<u8> {
        if self.0 == 0 {
            return None;
        }
        self.0 -= 1;
        Some(self.0)
    }

    fn size_hint(&self) -> (usize, Option<usize>) {
        (self.0 as usize + 2, None)
    }
}

#[test]
fn insert_many_with_a_hint_that_is_too_large() {
    let mut v: StackVec<u8, 8> = StackVec::from_slice(&[1, 2]);
    v.insert_many(0, Boastful(3));
    assert_eq!(&*v, &[2, 1, 0, 1, 2]);
}

#[test]
fn insert_many_drops_nothing_twice() {
    let log = RefCell::new(Vec::new());
    let mut v: StackVec<Noted, 5> = StackVec::new();
    v.push(Noted(0, &log));
    v.push(Noted(1, &log));
    v.insert_many_hinted(1, vec![Noted(2, &log), Noted(3, &log)].into_iter(), 1);
    assert!(log.borrow().is_empty());
    drop(v);
    assert_eq!(*log.borrow(), vec![0, 2, 3, 1]);
}

#[test]
fn insertion_in_parts() {
    let mut a: StackVec<u8, 8> = StackVec::from_slice(&[1, 2, 3]);
    let mut b = a.clone();
    a.insert_from_slice(1, &[7, 8]);
    a.insert_from_slice(3, &[9]);
    b.insert_many(1, 7..10);
    assert_eq!(&*a, &[1, 7, 8, 9, 2, 3]);
    assert_eq!(a, b);
}

#[test]
fn insert_from_slice_at_each_end() {
    let mut v: StackVec<u8, 6> = StackVec::from_slice(&[1, 2]);
    v.insert_from_slice(0, &[5]);
    v.insert_from_slice(3, &[6, 7]);
    v.insert_from_slice(2, &[]);
    assert_eq!(&*v, &[5, 1, 2, 6, 7]);
}

#[test]
fn extend_appends_what_the_iterator_yields() {
    let mut v: StackVec<u8, 6> = StackVec::new();
    v.extend(0..3);
    v.extend([9, 8].iter().cloned());
    assert_eq!(&*v, &[0, 1, 2, 9, 8]);
    let w: StackVec<u8, 5> = StackVec::from_iter(v.into_iter().rev());
    assert_eq!(&*w, &[8, 9, 2, 1, 0]);
}

#[test]
fn retain_keeps_what_the_visits_left() {
    let mut v: StackVec<i32, 6> = StackVec::from_slice(&[1, 2, 3, 4, 5, 6]);
    let mut visited = Vec::new();
    v.retain(|e| {
        visited.push(*e);
        *e *= 10;
        *e % 20 == 0
    });
    assert_eq!(visited, vec![1, 2, 3, 4, 5, 6]);
    assert_eq!(&*v, &[20, 40, 60]);
}

#[test]
fn retain_all_none_and_again() {
    let mut v: StackVec<i32, 4> = StackVec::from_slice(&[4, 1, 4, 2]);
    v.retain(|_| true);
    assert_eq!(&*v, &[4, 1, 4, 2]);
    v.retain(|e| *e > 1);
    assert_eq!(&*v, &[4, 4, 2]);
    v.retain(|e| *e > 1);
    assert_eq!(&*v, &[4, 4, 2]);
    v.retain(|_| false);
    assert!(v.is_empty());
    v.retain(|_| true);
    assert!(v.is_empty());
}

#[test]
fn dedup_by_hands_the_later_element_first() {
    let mut v: StackVec<i32, 5> = StackVec::from_slice(&[1, 2, 3, 10, 11]);
    let mut calls = Vec::new();
    v.dedup_by(|a, b| {
        calls.push((*a, *b));
        *a - *b < 5
    });
    assert_eq!(calls, vec![(2, 1), (3, 1), (10, 1), (11, 10)]);
    assert_eq!(&*v, &[1, 10]);
}

#[test]
fn dedup_by_keeps_what_the_calls_left() {
    let mut v: StackVec<(char, u32), 5> =
        StackVec::from_slice(&[('a', 1), ('a', 2), ('b', 3), ('b', 4), ('a', 5)]);
    v.dedup_by(|later, kept| {
        if later.0 == kept.0 {
            kept.1 += later.1;
            true
        } else {
            later.1 *= 100;
            false
        }
    });
    assert_eq!(&*v, &[('a', 3), ('b', 304), ('a', 500)]);
}

#[test]
fn dedup_by_key_compares_the_keys() {
    let mut v: StackVec<i32, 6> = StackVec::from_slice(&[10, 20, 21, 30, 20, 29]);
    let mut keyed = Vec::new();
    v.dedup_by_key(|e| {
        keyed.push(*e);
        *e / 10
    });
    assert_eq!(&*v, &[10, 20, 30, 20]);
    assert_eq!(keyed, vec![20, 10, 21, 20, 30, 20, 20, 30, 29, 20]);
    let mut single: StackVec<i32, 1> = StackVec::from_slice(&[3]);
    single.dedup_by_key(|e| *e);
    assert_eq!(&*single, &[3]);
}

#[test]
fn dedup_again_changes_nothing() {
    let mut v: StackVec<i32, 7> = StackVec::from_slice(&[1, 1, 2, 1, 1, 3, 3]);
    v.dedup();
    assert_eq!(&*v, &[1, 2, 1, 3]);
    v.dedup();
    assert_eq!(&*v, &[1, 2, 1, 3]);
}

#[test]
fn dedup_drops_the_later_of_two_equal_elements() {
    let log = RefCell::new(Vec::new());
    let mut v: StackVec<Noted, 3> = StackVec::new();
    v.push(Noted(5, &log));
    v.push(Noted(6, &log));
    v.push(Noted(5, &log));
    v.dedup_by_key(|e| e.0 / 5);
    assert_eq!(v.len(), 1);
    assert_eq!(*log.borrow(), vec![5, 6]);
}

#[test]
fn from_elem_clones() {
    let v = StackVec::<char, 128>::from_elem('d', 2);
    assert_eq!(v, StackVec::from_buf(['d', 'd']));
    let mut resized = StackVec::<char, 4>::new();
    resized.resize(2, 'd');
    assert_eq!(v, resized);
    assert!(StackVec::<char, 4>::from_elem('d', 0).is_empty());
}

#[test]
fn from_slice_cloned_clones_each_element() {
    let words = ["x".to_string(), "y".to_string()];
    let v: StackVec<String, 3> = StackVec::from_slice_cloned(&words);
    assert_eq!(&*v, &words);
}

#[test]
fn clone_calls_clone_once_for_each_element() {
    struct Counted<'a>(&'a Cell<usize>);
    impl<'a> Clone for Counted<'a> {
        fn clone(&self) -> Self {
            self.0.set(self.0.get() + 1);
            Counted(self.0)
        }
    }
    let cell = Cell::new(0);
    let mut v: StackVec<Counted, 4> = StackVec::new();
    v.push(Counted(&cell));
    v.push(Counted(&cell));
    let w = v.clone();
    assert_eq!(w.len(), 2);
    assert_eq!(cell.get(), 2);
    v.resize(4, Counted(&cell));
    assert_eq!(cell.get(), 4);
}

#[test]
fn clone_is_equal() {
    let v: StackVec<String, 3> = StackVec::from_vec(vec!["p".to_string(), "q".to_string()]);
    assert_eq!(v.clone(), v);
}

#[test]
fn default_is_empty() {
    let v: StackVec<u8, 3> = StackVec::default();
    assert!(v.is_empty());
    assert_eq!(v.capacity(), 3);
}

#[test]
fn debug_lists_the_elements() {
    let v: StackVec<u8, 4> = StackVec::from_slice(&[1, 2, 3]);
    assert_eq!(format!("{:?}", v), "[1, 2, 3]");
    assert_eq!(format!("{:#?}", v), "[\n    1,\n    2,\n    3,\n]");
    assert_eq!(format!("{:?}", StackVec::<u8, 4>::new()), "[]");
}

#[test]
fn equality_does_not_depend_on_the_capacity() {
    let a: StackVec<u8, 2> = StackVec::from_slice(&[1, 2]);
    let b: StackVec<u8, 9> = StackVec::from_slice(&[1, 2]);
    let c: StackVec<u8, 9> = StackVec::from_slice(&[1, 2, 3]);
    assert!(a == b);
    assert!(a != c);
    assert!(c != a);
}

#[test]
fn order_is_lexicographic() {
    let a: StackVec<u8, 3> = StackVec::from_slice(&[1, 9, 9]);
    let b: StackVec<u8, 3> = StackVec::from_slice(&[2]);
    let c: StackVec<u8, 3> = StackVec::new();
    assert_eq!(a.partial_cmp(&b), Some(Ordering::Less));
    assert_eq!(b.partial_cmp(&a), Some(Ordering::Greater));
    assert_eq!(a.partial_cmp(&a), Some(Ordering::Equal));
    assert_eq!(c.partial_cmp(&b), Some(Ordering::Less));
    assert_eq!(a.cmp(&b), Ordering::Less);
    assert_eq!(b.cmp(&c), Ordering::Greater);
    assert_eq!(c.cmp(&c), Ordering::Equal);
}

#[test]
fn elements_that_cannot_be_compared_decide() {
    let a: StackVec<f64, 3> = StackVec::from_slice(&[1.0, f64::NAN, 0.0]);
    let b: StackVec<f64, 3> = StackVec::from_slice(&[1.0, 2.0, 0.0]);
    let c: StackVec<f64, 3> = StackVec::from_slice(&[0.5]);
    assert_eq!(a.partial_cmp(&b), None);
    assert_eq!(a.partial_cmp(&c), Some(Ordering::Greater));
    assert!(a != a);
}

#[test]
fn hash_is_that_of_the_slice() {
    let v: StackVec<u32, 4> = StackVec::from_slice(&[1, 2, 11]);
    let mut of_vector = DefaultHasher::new();
    v.hash(&mut of_vector);
    let mut of_slice = DefaultHasher::new();
    [1u32, 2, 11][..].hash(&mut of_slice);
    assert_eq!(of_vector.finish(), of_slice.finish());
}

#[test]
fn into_iter_from_both_ends() {
    let v: StackVec<u8, 5> = StackVec::from_slice(&[1, 2, 3, 4, 5]);
    let mut iter = v.into_iter();
    assert_eq!(iter.size_hint(), (5, Some(5)));
    assert_eq!(iter.next(), Some(1));
    assert_eq!(iter.next_back(), Some(5));
    assert_eq!(iter.next(), Some(2));
    assert_eq!(iter.len(), 2);
    assert_eq!(iter.next_back(), Some(4));
    assert_eq!(iter.next_back(), Some(3));
    assert_eq!(iter.next_back(), None);
    assert_eq!(iter.next(), None);
    assert_eq!(iter.size_hint(), (0, Some(0)));
}

#[test]
fn drain_from_both_ends_leaves_the_vector_empty() {
    let mut v: StackVec<u8, 5> = StackVec::from_slice(&[1, 2, 3]);
    {
        let mut drain = v.drain();
        assert_eq!(drain.size_hint(), (3, Some(3)));
        assert_eq!(drain.next_back(), Some(3));
        assert_eq!(drain.next(), Some(1));
        assert_eq!(drain.len(), 1);
    }
    assert!(v.is_empty());
    v.push(9);
    assert_eq!(v.drain().collect::<Vec<_>>(), vec![9]);
}

#[test]
fn drain_drops_what_was_not_taken() {
    let log = RefCell::new(Vec::new());
    let mut v: StackVec<Noted, 3> = StackVec::new();
    for i in 0..3 {
        v.push(Noted(i, &log));
    }
    let taken = v.drain().next().unwrap();
    assert_eq!(*log.borrow(), vec![1, 2]);
    drop(taken);
    assert_eq!(*log.borrow(), vec![1, 2, 0]);
    assert!(v.is_empty());
}

#[test]
fn iteration_by_reference() {
    let mut v: StackVec<u8, 4> = StackVec::from_slice(&[1, 2, 3]);
    let mut sum = 0;
    for e in &v {
        sum += *e;
    }
    assert_eq!(sum, 6);
    for e in v.iter_mut() {
        *e += 1;
    }
    let mut seen = Vec::new();
    for e in v {
        seen.push(e);
    }
    assert_eq!(seen, vec![2, 3, 4]);
}

#[test]
fn positions_and_ranges() {
    let mut v: StackVec<u8, 6> = StackVec::from_slice(&[1, 2, 3, 4]);
    v[2] = 9;
    assert_eq!(v[2], 9);
    assert_eq!(v[1..3], [2, 9]);
    assert_eq!(v[1..], [2, 9, 4]);
    assert_eq!(v[..2], [1, 2]);
    assert_eq!(v[..=1], [1, 2]);
    assert_eq!(v[1..=2], [2, 9]);
    v[..2].reverse();
    assert_eq!(v[..], [2, 1, 9, 4]);
    v.as_mut_slice()[0] = 7;
    assert_eq!(v.as_slice(), [7, 1, 9, 4]);
}

#[test]
fn generic_over_the_kind_of_vector() {
    fn initialize<V: VecLike<u8>>(v: &mut V) {
        for i in 0..5 {
            v.push(i);
        }
        assert_eq!(v.pop(), Some(4));
        v[0] = 7;
    }
    let mut vec = Vec::new();
    initialize(&mut vec);
    assert_eq!(vec, [7, 1, 2, 3]);
    let mut stack_vec = StackVec::<u8, 8>::new();
    initialize(&mut stack_vec);
    assert_eq!(&*stack_vec, &[7, 1, 2, 3]);
}

#[test]
fn generic_extension_from_a_slice() {
    fn initialize<V: ExtendFromSlice<u8>>(v: &mut V) {
        v.extend_from_slice(b"Test!");
    }
    let mut vec = Vec::new();
    initialize(&mut vec);
    assert_eq!(&vec, b"Test!");
    let mut stack_vec = StackVec::<u8, 8>::new();
    initialize(&mut stack_vec);
    assert_eq!(&stack_vec as &[_], b"Test!");
}

#[test]
fn writes_append() {
    let mut v: StackVec<u8, 5> = StackVec::new();
    assert_eq!(v.write(&[1, 2]).unwrap(), 2);
    assert_eq!(v.write(&[]).unwrap(), 0);
    v.write_all(&[3, 4, 5]).unwrap();
    v.flush().unwrap();
    assert_eq!(&*v, &[1, 2, 3, 4, 5]);
}

#[test]
fn vectors_of_capacity_zero() {
    let mut v: StackVec<String, 0> = StackVec::new();
    assert_eq!(v.capacity(), 0);
    assert_eq!(v.pop(), None);
    v.clear();
    v.dedup();
    v.insert_many(0, Vec::new().into_iter());
    assert_eq!(v.drain().next(), None);
    assert_eq!(v.into_vec(), Vec::<String>::new());
}
