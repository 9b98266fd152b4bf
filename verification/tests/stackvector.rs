use std::borrow::{Borrow, BorrowMut};
use std::cell::Cell;
use std::collections::hash_map::DefaultHasher;
use std::hash::Hash;
use std::rc::Rc;

use stackvector::{StackVec, VecLike};

struct BadBoundsIterator1(u8);

impl BadBoundsIterator1 {
    pub fn new() -> Self {
        BadBoundsIterator1(0)
    }
}

impl Iterator for BadBoundsIterator1 {
    type Item = u8;

    fn next(&mut self) -> Option<Self::Item> {
        self.0 += 1;
        if self.0 >= 10 {
            None
        } else {
            Some(0x41)
        }
    }

    fn size_hint(&self) -> (usize, Option<usize>) {
        let lower_bound = 20;
        let upper_bound = Some(0);
        (lower_bound, upper_bound)
    }
}

struct BadBoundsIterator2(u8);

impl BadBoundsIterator2 {
    pub fn new() -> Self {
        BadBoundsIterator2(0)
    }
}

impl Iterator for BadBoundsIterator2 {
    type Item = u8;

    fn next(&mut self) -> Option<Self::Item> {
        self.0 += 1;
        if self.0 >= 30 {
            None
        } else {
            Some(0x41)
        }
    }

    fn size_hint(&self) -> (usize, Option<usize>) {
        let lower_bound = 0;
        let upper_bound = Some(0);
        (lower_bound, upper_bound)
    }
}

struct BadSizeHint(u8);

impl BadSizeHint {
    pub fn new(start: u8) -> Self {
        BadSizeHint(start)
    }
}

impl Iterator for BadSizeHint {
    type Item = u8;

    fn next(&mut self) -> Option<Self::Item> {
        self.0 += 1;
        if self.0 >= 30 {
            None
        } else {
            Some(0x41)
        }
    }

    fn size_hint(&self) -> (usize, Option<usize>) {
        let lower_bound = 0;
        let upper_bound = None;
        (lower_bound, upper_bound)
    }
}

#[test]
pub fn test_zero() {
    let v = StackVec::<usize, 0>::new();
    assert_eq!(v.len(), 0);
}

#[test]
pub fn test_inline() {
    let mut v = StackVec::<String, 16>::new();
    v.push("hello".to_owned());
    v.push("there".to_owned());
    assert_eq!(&*v, &["hello".to_owned(), "there".to_owned(),][..]);
}

#[test]
fn issue_4() {
    StackVec::<Box<u32>, 2>::new();
}

#[test]
fn issue_5() {
    assert!(Some(StackVec::<&u32, 2>::new()).is_some());
}

#[test]
fn drain_test() {
    let mut v: StackVec<u8, 2> = StackVec::new();
    v.push(3);
    assert_eq!(v.drain().collect::<Vec<_>>(), &[3]);
}

#[test]
fn drain_rev_test() {
    let mut v: StackVec<u8, 2> = StackVec::new();
    v.push(3);
    assert_eq!(v.drain().rev().collect::<Vec<_>>(), &[3]);
}

#[test]
fn into_iter() {
    let mut v: StackVec<u8, 2> = StackVec::new();
    v.push(3);
    assert_eq!(v.into_iter().collect::<Vec<_>>(), &[3]);
}

#[test]
fn into_iter_rev() {
    let mut v: StackVec<u8, 2> = StackVec::new();
    v.push(3);
    assert_eq!(v.into_iter().rev().collect::<Vec<_>>(), &[3]);
}

#[test]
fn into_iter_drop() {
    struct DropCounter<'a>(&'a Cell<i32>);

    impl<'a> Drop for DropCounter<'a> {
        fn drop(&mut self) {
            self.0.set(self.0.get() + 1);
        }
    }

    {
        let cell = Cell::new(0);
        let mut v: StackVec<DropCounter, 2> = StackVec::new();
        v.push(DropCounter(&cell));
        v.into_iter();
        assert_eq!(cell.get(), 1);
    }

    {
        let cell = Cell::new(0);
        let mut v: StackVec<DropCounter, 2> = StackVec::new();
        v.push(DropCounter(&cell));
        v.push(DropCounter(&cell));
        assert!(v.into_iter().next().is_some());
        assert_eq!(cell.get(), 2);
    }
}

#[test]
fn test_capacity() {
    let v: StackVec<u8, 2> = StackVec::new();
    assert_eq!(v.capacity(), 2);
}

#[test]
fn test_truncate() {
    let mut v: StackVec<Box<u8>, 8> = StackVec::new();

    for x in 0..8 {
        v.push(Box::new(x));
    }
    v.truncate(4);

    assert_eq!(v.len(), 4);

    assert_eq!(*v.swap_remove(1), 1);
    assert_eq!(*v.remove(1), 3);
    v.insert(1, Box::new(3));

    assert_eq!(&v.iter().map(|v| **v).collect::<Vec<_>>(), &[0, 3, 2]);
}

#[test]
fn test_insert_many() {
    let mut v: StackVec<u8, 8> = StackVec::new();
    for x in 0..4 {
        v.push(x);
    }
    assert_eq!(v.len(), 4);
    v.insert_many(1, [5, 6].iter().cloned());
    assert_eq!(
        &v.iter().map(|v| *v).collect::<Vec<_>>(),
        &[0, 5, 6, 1, 2, 3]
    );
}

#[test]
fn test_insert_many_buggy_iterator() {
    let mut v: StackVec<u8, 64> = StackVec::new();
    for x in 0..4 {
        v.push(x);
    }
    v.insert_many(1, BadBoundsIterator1::new());
    assert_eq!(
        &v.iter().map(|v| *v).collect::<Vec<_>>(),
        &[0, 65, 65, 65, 65, 65, 65, 65, 65, 65, 1, 2, 3]
    );

    let mut v: StackVec<u8, 64> = StackVec::new();
    for x in 0..4 {
        v.push(x);
    }
    v.insert_many(1, BadBoundsIterator2::new());
    assert_eq!(v.len(), 33);

    let mut v: StackVec<u8, 64> = StackVec::new();
    for x in 0..4 {
        v.push(x);
    }
    v.insert_many(1, BadSizeHint::new(1));
    assert_eq!(v.len(), 32);
}

#[test]
fn test_insert_from_slice() {
    let mut v: StackVec<u8, 8> = StackVec::new();
    for x in 0..4 {
        v.push(x);
    }
    assert_eq!(v.len(), 4);
    v.insert_from_slice(1, &[5, 6]);
    assert_eq!(
        &v.iter().map(|v| *v).collect::<Vec<_>>(),
        &[0, 5, 6, 1, 2, 3]
    );
}

#[test]
fn test_extend_from_slice() {
    let mut v: StackVec<u8, 8> = StackVec::new();
    for x in 0..4 {
        v.push(x);
    }
    assert_eq!(v.len(), 4);
    v.extend_from_slice(&[5, 6]);
    assert_eq!(
        &v.iter().map(|v| *v).collect::<Vec<_>>(),
        &[0, 1, 2, 3, 5, 6]
    );
}

#[test]
#[should_panic]
fn test_drop_panic_smallvec() {
    // This test should only panic once, and not double panic,
    // which would mean a double drop
    struct DropPanic;

    impl Drop for DropPanic {
        fn drop(&mut self) {
            panic!("drop");
        }
    }

    let mut v = StackVec::<DropPanic, 1>::new();
    v.push(DropPanic);
}

#[test]
fn test_eq() {
    let mut a: StackVec<u32, 2> = StackVec::new();
    let mut b: StackVec<u32, 2> = StackVec::new();
    let mut c: StackVec<u32, 2> = StackVec::new();
    // a = [1, 2]
    a.push(1);
    a.push(2);
    // b = [1, 2]
    b.push(1);
    b.push(2);
    // c = [3, 4]
    c.push(3);
    c.push(4);

    assert!(a == b);
    assert!(a != c);
}

#[test]
fn test_ord() {
    let mut a: StackVec<u32, 2> = StackVec::new();
    let mut b: StackVec<u32, 2> = StackVec::new();
    let mut c: StackVec<u32, 2> = StackVec::new();
    // a = [1]
    a.push(1);
    // b = [1, 1]
    b.push(1);
    b.push(1);
    // c = [1, 2]
    c.push(1);
    c.push(2);

    assert!(a < b);
    assert!(b > a);
    assert!(b < c);
    assert!(c > b);
}

#[test]
fn test_hash() {
    {
        let mut a: StackVec<u32, 2> = StackVec::new();
        let b = [1, 2];
        a.extend(b.iter().cloned());
        let mut hasher = DefaultHasher::new();
        assert_eq!(a.hash(&mut hasher), b.hash(&mut hasher));
    }
    {
        let mut a: StackVec<u32, 4> = StackVec::new();
        let b = [1, 2, 11, 12];
        a.extend(b.iter().cloned());
        let mut hasher = DefaultHasher::new();
        assert_eq!(a.hash(&mut hasher), b.hash(&mut hasher));
    }
}

#[test]
fn test_as_ref() {
    let mut a: StackVec<u32, 3> = StackVec::new();
    a.push(1);
    assert_eq!(a.as_ref(), [1]);
    a.push(2);
    assert_eq!(a.as_ref(), [1, 2]);
    a.push(3);
    assert_eq!(a.as_ref(), [1, 2, 3]);
}

#[test]
fn test_as_mut() {
    let mut a: StackVec<u32, 3> = StackVec::new();
    a.push(1);
    assert_eq!(a.as_mut(), [1]);
    a.push(2);
    assert_eq!(a.as_mut(), [1, 2]);
    a.push(3);
    assert_eq!(a.as_mut(), [1, 2, 3]);
    a.as_mut()[1] = 4;
    assert_eq!(a.as_mut(), [1, 4, 3]);
}

#[test]
fn test_borrow() {
    let mut a: StackVec<u32, 3> = StackVec::new();
    a.push(1);
    assert_eq!(a.borrow(), [1]);
    a.push(2);
    assert_eq!(a.borrow(), [1, 2]);
    a.push(3);
    assert_eq!(a.borrow(), [1, 2, 3]);
}

#[test]
fn test_borrow_mut() {
    let mut a: StackVec<u32, 3> = StackVec::new();
    a.push(1);
    assert_eq!(a.borrow_mut(), [1]);
    a.push(2);
    assert_eq!(a.borrow_mut(), [1, 2]);
    a.push(3);
    assert_eq!(a.borrow_mut(), [1, 2, 3]);
    BorrowMut::<[u32]>::borrow_mut(&mut a)[1] = 4;
    assert_eq!(a.borrow_mut(), [1, 4, 3]);
}

#[test]
fn test_from() {
    assert_eq!(&StackVec::<u32, 2>::from_slice_cloned(&[1][..])[..], [1]);
    assert_eq!(&StackVec::<u32, 3>::from_slice_cloned(&[1, 2, 3][..])[..], [1, 2, 3]);

    let vec = vec![];
    let stack_vec: StackVec<u8, 3> = StackVec::from_vec(vec);
    assert_eq!(&*stack_vec, &[]);
    drop(stack_vec);

    let vec = vec![1, 2, 3, 4, 5];
    let stack_vec: StackVec<u8, 5> = StackVec::from_vec(vec);
    assert_eq!(&*stack_vec, &[1, 2, 3, 4, 5]);
    drop(stack_vec);

    let vec = vec![1, 2, 3, 4, 5];
    let stack_vec: StackVec<u8, 5> = StackVec::from_vec(vec);
    assert_eq!(&*stack_vec, &[1, 2, 3, 4, 5]);
    drop(stack_vec);

    let array = [1];
    let stack_vec: StackVec<u8, 1> = StackVec::from(array);
    assert_eq!(&*stack_vec, &[1]);
    drop(stack_vec);

    let array = [99; 128];
    let stack_vec: StackVec<u8, 128> = StackVec::from(array);
    assert_eq!(&*stack_vec, vec![99u8; 128].as_slice());
    drop(stack_vec);
}

#[test]
fn test_from_slice() {
    assert_eq!(&StackVec::<u32, 2>::from_slice(&[1][..])[..], [1]);
    assert_eq!(
        &StackVec::<u32, 3>::from_slice(&[1, 2, 3][..])[..],
        [1, 2, 3]
    );
}

#[test]
fn test_exact_size_iterator() {
    let mut vec = StackVec::<u32, 3>::from_slice_cloned(&[1, 2, 3][..]);
    assert_eq!(vec.clone().into_iter().len(), 3);
    assert_eq!(vec.drain().len(), 3);
}

#[test]
fn veclike_deref_slice() {
    fn test<T: VecLike<i32>>(vec: &mut T) {
        assert!(!vec.is_empty());
        assert_eq!(vec.len(), 3);

        vec.sort();
        assert_eq!(&vec[..], [1, 2, 3]);
    }

    let mut vec = StackVec::<i32, 3>::from_slice_cloned(&[3, 1, 2][..]);
    test(&mut vec);
}

#[test]
fn test_into_vec() {
    let vec = StackVec::<u8, 2>::from_iter(0..2);
    assert_eq!(vec.into_vec(), vec![0, 1]);

    let vec = StackVec::<u8, 3>::from_iter(0..3);
    assert_eq!(vec.into_vec(), vec![0, 1, 2]);
}

#[test]
fn test_into_inner() {
    let vec = StackVec::<u8, 2>::from_iter(0..2);
    assert_eq!(vec.into_inner(), Ok([0, 1]));

    let vec = StackVec::<u8, 2>::from_iter(0..1);
    assert_eq!(vec.clone().into_inner(), Err(vec));

    let vec = StackVec::<u8, 3>::from_iter(0..3);
    assert_eq!(vec.clone().into_inner(), Ok([0, 1, 2]));

    let vec = StackVec::<u8, 4>::from_iter(0..3);
    assert_eq!(vec.clone().into_inner(), Err(vec));
}

#[test]
fn test_from_vec() {
    let vec = vec![];
    let stack_vec: StackVec<u8, 3> = StackVec::from_vec(vec);
    assert_eq!(&*stack_vec, &[]);
    drop(stack_vec);

    let vec = vec![];
    let stack_vec: StackVec<u8, 1> = StackVec::from_vec(vec);
    assert_eq!(&*stack_vec, &[]);
    drop(stack_vec);

    let vec = vec![1];
    let stack_vec: StackVec<u8, 3> = StackVec::from_vec(vec);
    assert_eq!(&*stack_vec, &[1]);
    drop(stack_vec);

    let vec = vec![1, 2, 3];
    let stack_vec: StackVec<u8, 3> = StackVec::from_vec(vec);
    assert_eq!(&*stack_vec, &[1, 2, 3]);
    drop(stack_vec);

    let vec = vec![1, 2, 3, 4, 5];
    let stack_vec: StackVec<u8, 5> = StackVec::from_vec(vec);
    assert_eq!(&*stack_vec, &[1, 2, 3, 4, 5]);
    drop(stack_vec);
}

#[test]
fn test_retain() {
    let mut sv: StackVec<i32, 5> = StackVec::from_slice(&[1, 2, 3, 3, 4]);
    sv.retain(|&mut i| i != 3);
    assert_eq!(sv.pop(), Some(4));
    assert_eq!(sv.pop(), Some(2));
    assert_eq!(sv.pop(), Some(1));
    assert_eq!(sv.pop(), None);

    // Test that drop implementations are called for inline.
    let one = Rc::new(1);
    let mut sv: StackVec<Rc<i32>, 3> = StackVec::new();
    sv.push(Rc::clone(&one));
    assert_eq!(Rc::strong_count(&one), 2);
    sv.retain(|_| false);
    assert_eq!(Rc::strong_count(&one), 1);
}

#[test]
fn test_dedup() {
    let mut dupes: StackVec<i32, 5> = StackVec::from_slice(&[1, 1, 2, 3, 3]);
    dupes.dedup();
    assert_eq!(&*dupes, &[1, 2, 3]);

    let mut empty: StackVec<i32, 5> = StackVec::new();
    empty.dedup();
    assert!(empty.is_empty());

    let mut all_ones: StackVec<i32, 5> = StackVec::from_slice(&[1, 1, 1, 1, 1]);
    all_ones.dedup();
    assert_eq!(all_ones.len(), 1);

    let mut no_dupes: StackVec<i32, 5> = StackVec::from_slice(&[1, 2, 3, 4, 5]);
    no_dupes.dedup();
    assert_eq!(no_dupes.len(), 5);
}

#[test]
fn test_resize() {
    let mut v: StackVec<i32, 8> = StackVec::new();
    v.push(1);
    v.resize(5, 0);
    assert_eq!(v[..], [1, 0, 0, 0, 0][..]);

    v.resize(2, -1);
    assert_eq!(v[..], [1, 0][..]);
}

#[test]
fn test_write() {
    let data = [1, 2, 3, 4, 5];

    let mut small_vec: StackVec<u8, 5> = StackVec::new();
    let len = small_vec.write(&data[..]).unwrap();
    assert_eq!(len, 5);
    assert_eq!(small_vec.as_ref(), data.as_ref());

    let mut small_vec: StackVec<u8, 5> = StackVec::new();
    small_vec.write_all(&data[..]).unwrap();
    assert_eq!(small_vec.as_ref(), data.as_ref());
}
