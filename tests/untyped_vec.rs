use untyped_vec::layout::{array_layout, padding_needed_for, repeat_layout};
use untyped_vec::{Layout, UntypedVec};

#[derive(Debug, PartialEq)]
struct Foo {
    i: usize,
}

#[derive(Debug, PartialEq)]
#[allow(dead_code)]
struct Bar {
    i: u32,
}

#[derive(Debug, PartialEq)]
struct ZST;

#[allow(dead_code)]
struct Tagged {
    tag: u64,
}

fn foo_bytes(foo: &Foo) -> Vec<u8> {
    foo.i.to_le_bytes().to_vec()
}

fn foo_from(bytes: &[u8]) -> Foo {
    Foo {
        i: usize::from_le_bytes(bytes.try_into().unwrap()),
    }
}

fn zst_from(bytes: &[u8]) -> ZST {
    assert!(bytes.is_empty());
    ZST
}

#[test]
fn push_elements() {
    let mut vec = UntypedVec::new::<Foo>();
    for i in 0..100 {
        vec.push(&foo_bytes(&Foo { i }))
    }

    for i in 0..100 {
        assert_eq!(foo_from(vec.get(i)), Foo { i })
    }

    for i in 0..100 {
        assert_eq!(foo_from(&vec.pop().unwrap()), Foo { i: 99 - i })
    }
}

#[test]
fn push_zsts() {
    let mut vec = UntypedVec::new::<ZST>();
    for _ in 0..100 {
        vec.push(&[])
    }

    for i in 0..100 {
        assert_eq!(zst_from(vec.get(i)), ZST)
    }

    for _ in 0..100 {
        assert_eq!(zst_from(&vec.pop().unwrap()), ZST)
    }
}

#[test]
fn swap_remove() {
    let mut vec = UntypedVec::new::<Foo>();
    for i in 0..100 {
        vec.push(&foo_bytes(&Foo { i }))
    }

    for i in 0..100 {
        assert_eq!(foo_from(vec.get(i)), Foo { i })
    }

    assert_eq!(foo_from(&vec.swap_remove(0)), Foo { i: 0 });
    assert_eq!(foo_from(vec.get(0)), Foo { i: 99 });
}

#[test]
fn pop_empty_gives_none() {
    let mut vec = UntypedVec::new::<Foo>();
    assert!(vec.pop().is_none());
    vec.push(&foo_bytes(&Foo { i: 7 }));
    vec.push(&foo_bytes(&Foo { i: 8 }));
    assert_eq!(foo_from(&vec.pop().unwrap()), Foo { i: 8 });
    assert_eq!(foo_from(&vec.pop().unwrap()), Foo { i: 7 });
    assert!(vec.pop().is_none());
    assert_eq!(vec.len(), 0);
    assert_eq!(vec.capacity(), 2);
}

#[test]
fn swap_remove_four() {
    let mut vec = UntypedVec::new::<u8>();
    for b in [b'a', b'b', b'c', b'd'] {
        vec.push(&[b]);
    }
    assert_eq!(vec.swap_remove(0), vec![b'a']);
    assert_eq!(vec.len(), 3);
    assert_eq!(vec.get(0), &[b'd']);
    assert_eq!(vec.get(1), &[b'b']);
    assert_eq!(vec.get(2), &[b'c']);
}

#[test]
fn swap_remove_last() {
    let mut vec = UntypedVec::new::<u8>();
    vec.push(&[1]);
    vec.push(&[2]);
    assert_eq!(vec.swap_remove(1), vec![2]);
    assert_eq!(vec.len(), 1);
    assert_eq!(vec.get(0), &[1]);
}

#[test]
fn reserve_then_push_tagged() {
    let mut vec = UntypedVec::new::<Tagged>();
    assert_eq!(vec.layout().size(), 8);
    assert_eq!(vec.layout().align(), 8);
    vec.reserve_exact(100);
    assert_eq!(vec.capacity(), 100);
    for i in 0..100u64 {
        vec.push(&(1000 + i).to_le_bytes());
    }
    assert!(vec.capacity() >= 100);
    assert_eq!(vec.capacity(), 100);
    assert_eq!(vec.len(), 100);
    assert_eq!(vec.get(50), &1050u64.to_le_bytes());
    assert_eq!(vec.swap_remove(50), 1050u64.to_le_bytes().to_vec());
    assert_eq!(vec.get(50), &1099u64.to_le_bytes());
    assert_eq!(vec.len(), 99);
}

#[test]
fn growth_is_exact() {
    let mut vec = UntypedVec::new::<u32>();
    assert_eq!(vec.capacity(), 0);
    vec.push(&[1, 2, 3, 4]);
    assert_eq!(vec.capacity(), 1);
    vec.push(&[5, 6, 7, 8]);
    assert_eq!(vec.capacity(), 2);
    vec.reserve_exact(1);
    assert_eq!(vec.capacity(), 3);
    vec.reserve_exact(1);
    assert_eq!(vec.capacity(), 3);
    vec.reserve_exact(5);
    assert_eq!(vec.capacity(), 8);
    assert_eq!(vec.get(1), &[5, 6, 7, 8]);
}

#[test]
fn with_capacity_reserves() {
    let vec = UntypedVec::with_capacity::<Bar>(10);
    assert_eq!(vec.capacity(), 10);
    assert_eq!(vec.len(), 0);
    let empty = UntypedVec::with_capacity::<Bar>(0);
    assert_eq!(empty.capacity(), 0);
    let zst = UntypedVec::with_capacity::<ZST>(10);
    assert_eq!(zst.capacity(), usize::MAX);
}

#[test]
fn zst_capacity_is_max() {
    let mut vec = UntypedVec::new::<ZST>();
    assert_eq!(vec.capacity(), usize::MAX);
    for _ in 0..100 {
        vec.push(&[]);
        assert_eq!(vec.capacity(), usize::MAX);
    }
    assert_eq!(vec.len(), 100);
}

#[test]
fn clear_hands_out_each_once() {
    let mut vec = UntypedVec::new::<u16>();
    vec.push(&[1, 0]);
    vec.push(&[2, 0]);
    vec.push(&[3, 0]);
    let cap = vec.capacity();
    let dropped = vec.clear();
    assert_eq!(dropped, vec![vec![1, 0], vec![2, 0], vec![3, 0]]);
    assert_eq!(vec.len(), 0);
    assert_eq!(vec.capacity(), cap);
    assert!(vec.pop().is_none());
    vec.push(&[9, 9]);
    assert_eq!(vec.get(0), &[9, 9]);
}

#[test]
fn get_mut_changes_in_place() {
    let mut vec = UntypedVec::new::<u16>();
    vec.push(&[1, 1]);
    vec.push(&[2, 2]);
    vec.push(&[3, 3]);
    vec.get_mut(1).copy_from_slice(&[7, 8]);
    assert_eq!(vec.get(0), &[1, 1]);
    assert_eq!(vec.get(1), &[7, 8]);
    assert_eq!(vec.get(2), &[3, 3]);
}

#[test]
fn padded_shape_round_trip() {
    let layout = Layout::from_size_align(3, 4).unwrap();
    let mut vec = UntypedVec::from_layout(layout);
    vec.push(&[1, 2, 3]);
    vec.push(&[4, 5, 6]);
    vec.push(&[7, 8, 9]);
    assert_eq!(vec.get(1), &[4, 5, 6]);
    assert_eq!(vec.swap_remove(0), vec![1, 2, 3]);
    assert_eq!(vec.get(0), &[7, 8, 9]);
    assert_eq!(vec.get(1), &[4, 5, 6]);
    assert_eq!(vec.pop(), Some(vec![4, 5, 6]));
}

#[test]
fn layout_from_size_align() {
    let l = Layout::from_size_align(6, 4).unwrap();
    assert_eq!(l.size(), 6);
    assert_eq!(l.align(), 4);
    assert!(Layout::from_size_align(4, 0).is_none());
    assert!(Layout::from_size_align(4, 3).is_none());
    assert!(Layout::from_size_align(isize::MAX as usize, 2).is_none());
    assert!(Layout::from_size_align(isize::MAX as usize, 1).is_some());
    assert_eq!(Layout::new::<u64>(), Layout::from_size_align(8, 8).unwrap());
}

#[test]
fn padding_and_array_layouts() {
    let l = Layout::from_size_align(6, 4).unwrap();
    assert_eq!(padding_needed_for(&l, 4), 2);
    assert_eq!(padding_needed_for(&l, 2), 0);
    assert_eq!(padding_needed_for(&l, 8), 2);
    let (array, stride) = repeat_layout(&l, 5).unwrap();
    assert_eq!(stride, 8);
    assert_eq!(array.size(), 40);
    assert_eq!(array.align(), 4);
    let a = array_layout(&l, 3).unwrap();
    assert_eq!(a.size(), 24);
    assert!(array_layout(&l, usize::MAX / 4).is_none());
    assert!(repeat_layout(&l, usize::MAX).is_none());
}
