use std::cmp::Reverse;
use std::collections::BinaryHeap;

use meldable_heaps::LeftistHeap;

#[test]
fn leftist_sorted_extraction() {
    let mut heap = LeftistHeap::new();
    for x in [3, 1, 4, 1, 5, 9, 2, 6, 5, 3, 5, 8, 9, 7, 9] {
        heap.push(x);
    }
    let mut actual = Vec::new();
    while !heap.is_empty() {
        actual.push(heap.pop().unwrap());
    }
    assert_eq!(actual, vec![1, 1, 2, 3, 3, 4, 5, 5, 5, 6, 7, 8, 9, 9, 9]);
}

#[test]
fn leftist_iter_yields_every_value() {
    let mut heap = LeftistHeap::new();
    for x in [3, 1, 4, 1, 5, 9, 2, 6, 5, 3, 5, 8, 9, 7, 9] {
        heap.push(x);
    }
    let mut actual: Vec<_> = heap.iter().copied().collect();
    actual.sort();
    assert_eq!(actual, vec![1, 1, 2, 3, 3, 4, 5, 5, 5, 6, 7, 8, 9, 9, 9]);
    assert_eq!(heap.peek(), Some(&1));
}

#[test]
fn leftist_empty_heap_stays_empty() {
    let mut heap: LeftistHeap<i32> = LeftistHeap::new();
    assert!(heap.is_empty());
    assert_eq!(heap.pop(), None);
    assert_eq!(heap.peek(), None);
    assert_eq!(heap.pop(), None);
    assert!(heap.is_empty());
    assert_eq!(heap.iter().count(), 0);
    heap.push(-4);
    assert!(!heap.is_empty());
    assert_eq!(heap.pop(), Some(-4));
    assert!(heap.is_empty());
    assert_eq!(heap.peek(), None);
}

#[test]
fn leftist_meld_keeps_every_value() {
    let mut a = LeftistHeap::new();
    for x in [5, 3, 8, 3] {
        a.push(x);
    }
    let mut b = LeftistHeap::new();
    for x in [4, 9, 1] {
        b.push(x);
    }
    let mut m = LeftistHeap::meld(a, b);
    assert_eq!(m.peek(), Some(&1));
    let mut seen: Vec<i32> = m.iter().copied().collect();
    seen.sort();
    assert_eq!(seen, vec![1, 3, 3, 4, 5, 8, 9]);
    let mut out = Vec::new();
    while let Some(x) = m.pop() {
        out.push(x);
    }
    assert_eq!(out, vec![1, 3, 3, 4, 5, 8, 9]);
    let both: LeftistHeap<u8> = LeftistHeap::meld(LeftistHeap::new(), LeftistHeap::new());
    assert!(both.is_empty());
}

#[test]
fn leftist_differential_against_binary_heap() {
    for _ in 0..200 {
        let mut heap = LeftistHeap::new();
        let mut expected = BinaryHeap::new();
        for i in 0..200 {
            if rand::random::<u32>() % 2 == 0 {
                let x = rand::random::<u32>() % 50;
                heap.push(x);
                expected.push(Reverse(x));
            } else {
                assert_eq!(heap.pop(), expected.pop().map(|r| r.0));
            }
            assert_eq!(expected.is_empty(), heap.is_empty());
            assert_eq!(expected.peek().map(|r| r.0), heap.peek().copied(), "step {}", i);
        }
    }
}

#[test]
fn leftist_large_increasing_drop() {
    let mut heap = LeftistHeap::new();
    for i in 0..1000000 {
        heap.push(i);
    }
    drop(heap);
}

#[test]
fn leftist_large_decreasing_then_pops() {
    let n = 200000;
    let mut heap = LeftistHeap::new();
    for i in (0..n).rev() {
        heap.push(i);
    }
    for i in 0..n {
        assert_eq!(heap.pop(), Some(i));
    }
    assert!(heap.is_empty());
}
