use std::cmp::Reverse;
use std::collections::BinaryHeap;

use meldable_heaps::ParingHeap;

#[test]
fn basic_test() {
    let mut heap = ParingHeap::new();
    for x in [3, 1, 4, 1, 5, 9, 2, 6, 5, 3, 5, 8, 9, 7, 9] {
        heap.push(x);
    }
    let mut actual = Vec::new();
    while !heap.is_empty() {
        let x = heap.pop().unwrap();
        actual.push(x);
    }
    let expected = vec![1, 1, 2, 3, 3, 4, 5, 5, 5, 6, 7, 8, 9, 9, 9];
    assert_eq!(expected, actual);
}

#[test]
fn drop_test() {
    let mut heap = ParingHeap::new();
    for x in [3, 1, 4, 1, 5, 9, 2, 6, 5, 3, 5, 8, 9, 7, 9] {
        heap.push(x);
    }
    drop(heap);
}

#[test]
fn large_drop_test() {
    let n = 1000000;
    let mut heap = ParingHeap::new();
    for i in 0..n {
        heap.push(i);
    }
    drop(heap);
}

#[test]
fn iter_test() {
    let mut heap = ParingHeap::new();
    for x in [3, 1, 4, 1, 5, 9, 2, 6, 5, 3, 5, 8, 9, 7, 9] {
        heap.push(x);
    }
    let mut actual: Vec<_> = heap.iter().copied().collect();
    actual.sort();
    let expected = vec![1, 1, 2, 3, 3, 4, 5, 5, 5, 6, 7, 8, 9, 9, 9];
    assert_eq!(expected, actual);
}

#[test]
fn randomized_test() {
    for _ in 0..1000 {
        let mut heap = ParingHeap::new();
        // BinaryHeap is a max-heap, so Reverse(x) makes it a min-heap.
        let mut expected = BinaryHeap::new();
        for i in 0..100 {
            match rand::random::<u32>() % 2 {
                0 => {
                    heap.push(i);
                    expected.push(Reverse(i));
                }
                1 => {
                    let actual_x = heap.pop();
                    let expected_x = expected.pop().map(|r| r.0);
                    assert_eq!(actual_x, expected_x);
                }
                _ => unreachable!(),
            }
            assert_eq!(expected.is_empty(), heap.is_empty());
            assert_eq!(expected.peek().map(|r| r.0), heap.peek().copied());
        }
    }
}

#[test]
fn paring_empty_heap_stays_empty() {
    let mut heap: ParingHeap<i32> = ParingHeap::new();
    assert!(heap.is_empty());
    assert_eq!(heap.pop(), None);
    assert_eq!(heap.peek(), None);
    assert_eq!(heap.pop(), None);
    assert!(heap.is_empty());
    assert_eq!(heap.iter().count(), 0);
    heap.push(7);
    assert_eq!(heap.peek(), Some(&7));
    assert_eq!(heap.pop(), Some(7));
    assert!(heap.is_empty());
    assert_eq!(heap.pop(), None);
}

#[test]
fn paring_meld_keeps_every_value() {
    let mut a = ParingHeap::new();
    for x in [5, 3, 8, 3] {
        a.push(x);
    }
    let mut b = ParingHeap::new();
    for x in [4, 9, 1] {
        b.push(x);
    }
    let mut m = ParingHeap::meld(a, b);
    assert_eq!(m.peek(), Some(&1));
    let mut seen: Vec<i32> = m.iter().copied().collect();
    seen.sort();
    assert_eq!(seen, vec![1, 3, 3, 4, 5, 8, 9]);
    let mut out = Vec::new();
    while let Some(x) = m.pop() {
        out.push(x);
    }
    assert_eq!(out, vec![1, 3, 3, 4, 5, 8, 9]);
}

#[test]
fn paring_meld_with_empty() {
    let mut a = ParingHeap::new();
    a.push(2);
    a.push(1);
    let empty = ParingHeap::new();
    let mut m = ParingHeap::meld(empty, a);
    assert_eq!(m.pop(), Some(1));
    assert_eq!(m.pop(), Some(2));
    assert_eq!(m.pop(), None);
    let both: ParingHeap<u8> = ParingHeap::meld(ParingHeap::new(), ParingHeap::new());
    assert!(both.is_empty());
}

#[test]
fn paring_decreasing_pushes_then_pops() {
    let n = 100000;
    let mut heap = ParingHeap::new();
    for i in (0..n).rev() {
        heap.push(i);
    }
    for i in 0..n {
        assert_eq!(heap.pop(), Some(i));
    }
    assert!(heap.is_empty());
}

#[test]
fn paring_deep_meld_then_drop() {
    let mut a = ParingHeap::new();
    let mut b = ParingHeap::new();
    for i in 0..500000u64 {
        a.push(i);
        b.push(i + 500000);
    }
    let m = ParingHeap::meld(a, b);
    assert_eq!(m.peek(), Some(&0));
    drop(m);
}
