use std::cmp::Ordering;

use meldable_heaps::{LeftistHeap, ParingHeap, SkewHeap};

/// Ordered by `key` alone, so two items with different tags compare equal.
#[derive(Debug, Clone, Copy, PartialEq, Eq)]
struct Tagged {
    key: u32,
    tag: u32,
}

impl PartialOrd for Tagged {
    fn partial_cmp(&self, other: &Self) -> Option<Ordering> {
        Some(self.cmp(other))
    }
}

impl Ord for Tagged {
    fn cmp(&self, other: &Self) -> Ordering {
        self.key.cmp(&other.key)
    }
}

/// An order that breaks the laws: every value is less than every other.
#[derive(Debug, Clone, Copy, PartialEq, Eq)]
struct Chaotic(u32);

impl PartialOrd for Chaotic {
    fn partial_cmp(&self, other: &Self) -> Option<Ordering> {
        Some(self.cmp(other))
    }
}

impl Ord for Chaotic {
    fn cmp(&self, _other: &Self) -> Ordering {
        Ordering::Less
    }
}

fn tagged_items() -> Vec<Tagged> {
    vec![
        Tagged { key: 2, tag: 0 },
        Tagged { key: 1, tag: 1 },
        Tagged { key: 1, tag: 2 },
        Tagged { key: 3, tag: 3 },
        Tagged { key: 1, tag: 4 },
    ]
}

#[test]
fn pop_returns_what_peek_showed() {
    let mut p = ParingHeap::new();
    let mut s = SkewHeap::new();
    let mut l = LeftistHeap::new();
    for x in tagged_items() {
        p.push(x);
        s.push(x);
        l.push(x);
    }
    for _ in 0..5 {
        let shown = *p.peek().unwrap();
        assert_eq!(p.pop(), Some(shown));
        let shown = *s.peek().unwrap();
        assert_eq!(s.pop(), Some(shown));
        let shown = *l.peek().unwrap();
        assert_eq!(l.pop(), Some(shown));
    }
    assert!(p.is_empty() && s.is_empty() && l.is_empty());
}

#[test]
fn iter_order_is_the_same_on_every_call() {
    let mut p = ParingHeap::new();
    let mut s = SkewHeap::new();
    let mut l = LeftistHeap::new();
    for x in [3, 1, 4, 1, 5, 9, 2, 6, 5, 3, 5] {
        p.push(x);
        s.push(x);
        l.push(x);
    }
    let a: Vec<&i32> = p.iter().collect();
    let b: Vec<&i32> = p.iter().collect();
    assert_eq!(a, b);
    assert!(a.iter().zip(b.iter()).all(|(x, y)| std::ptr::eq(*x, *y)));
    let a: Vec<&i32> = s.iter().collect();
    assert_eq!(a, s.iter().collect::<Vec<&i32>>());
    let a: Vec<&i32> = l.iter().collect();
    assert_eq!(a, l.iter().collect::<Vec<&i32>>());
    assert_eq!(p.iter().next(), Some(&1));
    assert_eq!(s.iter().next(), Some(&1));
    assert_eq!(l.iter().next(), Some(&1));
}

#[test]
fn inconsistent_order_loses_no_value() {
    let mut p = ParingHeap::new();
    let mut s = SkewHeap::new();
    let mut l = LeftistHeap::new();
    for i in 0..1000 {
        p.push(Chaotic(i));
        s.push(Chaotic(i));
        l.push(Chaotic(i));
    }
    for heap_out in [
        std::iter::from_fn(|| p.pop()).map(|c| c.0).collect::<Vec<u32>>(),
        std::iter::from_fn(|| s.pop()).map(|c| c.0).collect::<Vec<u32>>(),
        std::iter::from_fn(|| l.pop()).map(|c| c.0).collect::<Vec<u32>>(),
    ] {
        let mut out = heap_out;
        out.sort();
        assert_eq!(out, (0..1000).collect::<Vec<u32>>());
    }
}

#[test]
fn drop_after_meld_of_deep_heaps() {
    let mut a = SkewHeap::new();
    let mut b = LeftistHeap::new();
    for i in 0..300000u32 {
        a.push(i);
        b.push(i);
    }
    let a2 = SkewHeap::meld(a, SkewHeap::new());
    let b2 = LeftistHeap::meld(LeftistHeap::new(), b);
    assert_eq!(a2.peek(), Some(&0));
    assert_eq!(b2.peek(), Some(&0));
    drop(a2);
    drop(b2);
}
