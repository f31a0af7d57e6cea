//! A leftist heap: a binary tree whose nodes keep their rank, the length of
//! their rightmost path, so that no right child outranks its left sibling.
use crate::order::{
    is_least, leq, lemma_leq_total, lemma_leq_trans, lemma_obeys_partial_cmp, lemma_refs_push,
    refs_ms, refs_seq,
};
use vstd::laws_cmp::obeys_cmp;
use vstd::multiset::Multiset;
use vstd::prelude::*;
use vstd::std_specs::cmp::PartialOrdSpec;
use vstd::std_specs::iter::IteratorSpec;

verus! {

/// A min-ordered leftist heap.
pub struct LeftistHeap<T: Ord> {
    root: Option<Box<Node<T>>>,
}

struct Node<T: Ord> {
    value: T,
    rank: usize,
    left: Option<Box<Node<T>>>,
    right: Option<Box<Node<T>>>,
}

impl<T: Ord> View for LeftistHeap<T> {
    type V = Multiset<T>;

    /// The values the heap holds, with their multiplicities.
    closed spec fn view(&self) -> Multiset<T> {
        tree_ms(self.root)
    }
}

impl<T: Ord> LeftistHeap<T> {
    /// No child in the tree is smaller than its parent.
    pub closed spec fn heap_ordered(&self) -> bool {
        ordered(self.root)
    }

    /// The invariant kept between operations: every rank is one more than
    /// the right child's and at most the left child's plus one, the number
    /// of values fits in a `usize`, and the tree is heap-ordered whenever
    /// `T`'s order is a lawful total order.
    pub closed spec fn well_formed(&self) -> bool {
        &&& leftist(self.root)
        &&& tree_ms(self.root).len() <= usize::MAX
        &&& obeys_cmp::<T>() ==> self.heap_ordered()
    }

    /// The value at the root, which `peek` shows and `pop` removes.
    pub closed spec fn top(&self) -> Option<T> {
        match self.root {
            None => None,
            Some(n) => Some(n.value),
        }
    }

    /// An empty heap.
    pub fn new() -> (r: Self)
        ensures
            r.well_formed(),
            r@ == Multiset::<T>::empty(),
    {
        let r = LeftistHeap { root: None };
        assert(r@ =~= Multiset::<T>::empty());
        r
    }

    /// Whether the heap holds no value.
    pub fn is_empty(&self) -> (r: bool)
        ensures
            r == (self@.len() == 0),
    {
        self.root.is_none()
    }

    /// Adds `value` to the heap.
    pub fn push(&mut self, value: T)
        requires
            old(self).well_formed(),
            old(self)@.len() < usize::MAX,
        ensures
            final(self).well_formed(),
            final(self)@ == old(self)@.insert(value),
    {
        let single = Node::singleton(value);
        self.root = Node::meld(self.root.take(), single);
        assert(self@ =~= old(self)@.insert(value));
    }

    /// Removes and returns the value at the root, a least value, or returns
    /// `None`, leaving the heap as it was, when it is empty. Under an order
    /// that breaks the laws no value is lost, only the heap order.
    pub fn pop(&mut self) -> (r: Option<T>)
        requires
            old(self).well_formed(),
        ensures
            final(self).well_formed(),
            r == old(self).top(),
            old(self)@.len() == 0 ==> r is None && *final(self) == *old(self),
            old(self)@.len() > 0 ==> (r matches Some(v) && old(self)@.contains(v) && final(self)@
                == old(self)@.remove(v)),
            obeys_cmp::<T>() && old(self)@.len() > 0 ==> is_least(r->Some_0, old(self)@),
    {
        let root = match self.root.take() {
            None => return None,
            Some(root) => root,
        };
        proof {
            lemma_root_split(root);
            if obeys_cmp::<T>() {
                lemma_root_least(root);
                lemma_above(root.left, root.value);
                lemma_above(root.right, root.value);
            }
            assert(tree_ms(Some(root)).len() == 1 + tree_ms(root.left).len() + tree_ms(root.right).len());
        }
        let value = root.value;
        self.root = Node::meld(root.left, root.right);
        Some(value)
    }

    /// The value at the root, a least value, or `None` when the heap is
    /// empty.
    pub fn peek(&self) -> (r: Option<&T>)
        requires
            self.well_formed(),
        ensures
            self@.len() == 0 ==> r is None,
            self@.len() > 0 ==> (r matches Some(v) && Some(*v) == self.top() && self@.contains(*v)),
            obeys_cmp::<T>() && self@.len() > 0 ==> is_least(*r->Some_0, self@),
    {
        match &self.root {
            None => None,
            Some(node) => {
                proof {
                    lemma_root_split(*node);
                    if obeys_cmp::<T>() {
                        lemma_root_least(*node);
                    }
                }
                Some(&node.value)
            },
        }
    }

    /// The order in which `iter` hands out the values: each node, then its
    /// right subtree, then its left subtree.
    pub closed spec fn walk(&self) -> Seq<T> {
        walk_tree(self.root)
    }

    /// Every value of the heap once, in the order of `walk`: a pre-order
    /// walk of the tree with an explicit stack, done at the call, whose
    /// references come out of a vector.
    pub fn iter(&self) -> (r: std::vec::IntoIter<&T>)
        ensures
            refs_seq(r.remaining()) == self.walk(),
            refs_ms(r.remaining()) == self@,
    {
        let mut out: Vec<&T> = Vec::new();
        let mut stack: Vec<&Box<Node<T>>> = Vec::new();
        proof {
            assert(tree_ms::<T>(None) =~= Multiset::empty());
            assert(refs_ms(out@) =~= Multiset::empty()) by {
                broadcast use vstd::seq_lib::group_to_multiset_ensures;
            }
        }
        assert(refs_seq(out@) =~= Seq::<T>::empty());
        assert(walk_tree::<T>(None) =~= Seq::<T>::empty());
        match &self.root {
            None => {
                assert(refs_ms(out@).add(stack_ms(stack@)) =~= self@);
                assert(refs_seq(out@) + stack_walk(stack@) =~= self.walk());
            },
            Some(node) => {
                stack.push(node);
                proof {
                    lemma_stack_push(Seq::<&Box<Node<T>>>::empty(), node);
                    assert(Seq::<&Box<Node<T>>>::empty().push(node) =~= stack@);
                    assert(refs_ms(out@).add(stack_ms(stack@)) =~= self@);
                    assert(stack_walk(Seq::<&Box<Node<T>>>::empty()) =~= Seq::<T>::empty());
                    assert(refs_seq(out@) + stack_walk(stack@) =~= self.walk());
                }
            },
        }
        loop
            invariant
                refs_ms(out@).add(stack_ms(stack@)) == self@,
                refs_seq(out@) + stack_walk(stack@) == self.walk(),
            ensures
                refs_ms(out@) == self@,
                refs_seq(out@) == self.walk(),
            decreases stack_ms(stack@).len(),
        {
            let ghost s0 = stack@;
            let node = match stack.pop() {
                None => {
                    assert(stack_ms(stack@) =~= Multiset::empty());
                    assert(refs_seq(out@) + stack_walk(stack@) =~= refs_seq(out@));
                    break;
                },
                Some(node) => node,
            };
            assert(s0.drop_last() == stack@);
            let ghost s1 = stack@;
            if let Some(l) = &node.left {
                proof {
                    lemma_stack_push(stack@, l);
                }
                stack.push(l);
            }
            let ghost s2 = stack@;
            if let Some(r) = &node.right {
                proof {
                    lemma_stack_push(stack@, r);
                }
                stack.push(r);
            }
            proof {
                assert(tree_ms::<T>(None) =~= Multiset::empty());
                assert(stack_ms(s2) =~= stack_ms(s1).add(tree_ms(node.left)));
                assert(stack_ms(stack@) =~= stack_ms(s2).add(tree_ms(node.right)));
                assert(stack_walk(s2) =~= walk_tree(node.left) + stack_walk(s1));
                assert(stack_walk(stack@) =~= walk_tree(node.right) + stack_walk(s2));
                lemma_refs_push(out@, &node.value);
            }
            out.push(&node.value);
            assert(refs_ms(out@).add(stack_ms(stack@)) =~= self@);
            assert(refs_seq(out@) + stack_walk(stack@) =~= self.walk());
        }
        out.into_iter()
    }

    /// Melds two heaps into one that holds the values of both, consuming
    /// them.
    pub fn meld(heap1: LeftistHeap<T>, heap2: LeftistHeap<T>) -> (r: LeftistHeap<T>)
        requires
            heap1.well_formed(),
            heap2.well_formed(),
            heap1@.len() + heap2@.len() <= usize::MAX,
        ensures
            r.well_formed(),
            r@ == heap1@.add(heap2@),
    {
        let mut heap1 = heap1;
        let mut heap2 = heap2;
        let root = Node::meld(heap1.root.take(), heap2.root.take());
        LeftistHeap { root }
    }
}

/// Tearing the tree down node by node: a node without a left child is freed
/// and its right child takes its place; otherwise the tree is rotated so that
/// the left child moves up. Each step frees a node or lowers this weight.
spec fn teardown_weight<T: Ord>(t: Option<Box<Node<T>>>) -> nat
    decreases t,
{
    match t {
        None => 0,
        Some(n) => 1 + tree_ms(n.left).len() + teardown_weight(n.left) + teardown_weight(n.right),
    }
}

impl<T: Ord> Drop for LeftistHeap<T> {
    /// Frees the nodes one at a time, with no recursion and no extra memory,
    /// however deep the tree is.
    fn drop(&mut self)
        ensures
            final(self)@.len() == 0,
        opens_invariants none
        no_unwind
    {
        let mut cur: Option<Box<Node<T>>> = None;
        core::mem::swap(&mut cur, &mut self.root);
        assert(tree_ms::<T>(None) =~= Multiset::empty());
        loop
            decreases teardown_weight(cur),
        {
            let mut node = match cur {
                None => break,
                Some(node) => node,
            };
            let ghost n = node;
            let mut child: Option<Box<Node<T>>> = None;
            core::mem::swap(&mut child, &mut node.left);
            match child {
                None => {
                    let mut next: Option<Box<Node<T>>> = None;
                    core::mem::swap(&mut next, &mut node.right);
                    cur = next;
                },
                Some(mut c) => {
                    let ghost c0 = c;
                    core::mem::swap(&mut node.left, &mut c.right);
                    c.right = Some(node);
                    cur = Some(c);
                    proof {
                        let moved = c.right.unwrap();
                        assert(tree_ms(Some(c0)).len() == 1 + tree_ms(c0.left).len() + tree_ms(
                            c0.right,
                        ).len());
                        assert(teardown_weight(Some(moved)) == 1 + tree_ms(c0.right).len()
                            + teardown_weight(c0.right) + teardown_weight(n.right));
                        assert(teardown_weight(Some(c0)) == 1 + tree_ms(c0.left).len()
                            + teardown_weight(c0.left) + teardown_weight(c0.right));
                        assert(teardown_weight(Some(n)) == 1 + tree_ms(Some(c0)).len()
                            + teardown_weight(Some(c0)) + teardown_weight(n.right));
                    }
                },
            }
        }
    }
}

/// The values held by the trees of a traversal stack.
spec fn stack_ms<T: Ord>(s: Seq<&Box<Node<T>>>) -> Multiset<T>
    decreases s.len(),
{
    if s.len() == 0 {
        Multiset::empty()
    } else {
        stack_ms(s.drop_last()).add(tree_ms(Some(*s.last())))
    }
}

/// The order in which a walk with a stack visits a tree: the root, then its
/// right subtree, then its left subtree.
spec fn walk_tree<T: Ord>(t: Option<Box<Node<T>>>) -> Seq<T>
    decreases t,
{
    match t {
        None => Seq::empty(),
        Some(n) => seq![n.value] + walk_tree(n.right) + walk_tree(n.left),
    }
}

/// The order in which a walk visits the trees left on its stack, the top
/// one first.
spec fn stack_walk<T: Ord>(s: Seq<&Box<Node<T>>>) -> Seq<T>
    decreases s.len(),
{
    if s.len() == 0 {
        Seq::empty()
    } else {
        walk_tree(Some(*s.last())) + stack_walk(s.drop_last())
    }
}

proof fn lemma_stack_push<T: Ord>(s: Seq<&Box<Node<T>>>, n: &Box<Node<T>>)
    ensures
        stack_ms(s.push(n)) == stack_ms(s).add(tree_ms(Some(*n))),
        stack_walk(s.push(n)) == walk_tree(Some(*n)) + stack_walk(s),
{
    assert(s.push(n).drop_last() =~= s);
}

/// The values held by a tree.
spec fn tree_ms<T: Ord>(t: Option<Box<Node<T>>>) -> Multiset<T>
    decreases t,
{
    match t {
        None => Multiset::empty(),
        Some(n) => tree_ms(n.left).add(tree_ms(n.right)).insert(n.value),
    }
}

/// The root of `t` is at least `bound`, and no child in `t` is smaller than
/// its parent.
spec fn above<T: Ord>(t: Option<Box<Node<T>>>, bound: T) -> bool
    decreases t,
{
    match t {
        None => true,
        Some(n) => leq(bound, n.value) && above(n.left, n.value) && above(n.right, n.value),
    }
}

/// No child in `t` is smaller than its parent.
spec fn ordered<T: Ord>(t: Option<Box<Node<T>>>) -> bool {
    match t {
        None => true,
        Some(n) => above(n.left, n.value) && above(n.right, n.value),
    }
}

/// Everything in a tree that lies above `bound` is at least `bound`.
proof fn lemma_above<T: Ord>(t: Option<Box<Node<T>>>, bound: T)
    requires
        obeys_cmp::<T>(),
        above(t, bound),
    ensures
        forall|x: T| tree_ms(t).contains(x) ==> leq(bound, x),
        ordered(t),
    decreases t,
{
    if let Some(n) = t {
        lemma_above(n.left, n.value);
        lemma_above(n.right, n.value);
        assert forall|x: T| tree_ms(t).contains(x) implies leq(bound, x) by {
            if x != n.value {
                lemma_leq_trans(bound, n.value, x);
            }
        }
    }
}

/// A tree holds its root's value and those of its two subtrees.
proof fn lemma_root_split<T: Ord>(n: Box<Node<T>>)
    ensures
        tree_ms(Some(n)) =~= tree_ms(n.left).add(tree_ms(n.right)).insert(n.value),
        tree_ms(Some(n)).contains(n.value),
{
}

/// The root of a heap-ordered tree is a least value of it.
proof fn lemma_root_least<T: Ord>(n: Box<Node<T>>)
    requires
        obeys_cmp::<T>(),
        ordered(Some(n)),
    ensures
        is_least(n.value, tree_ms(Some(n))),
        tree_ms(Some(n)) =~= tree_ms(n.left).add(tree_ms(n.right)).insert(n.value),
{
    lemma_above(n.left, n.value);
    lemma_above(n.right, n.value);
    lemma_leq_total(n.value, n.value);
}

/// The rank recorded at the root of `t`; an empty tree has rank 0.
spec fn rank_of<T: Ord>(t: Option<Box<Node<T>>>) -> nat {
    match t {
        None => 0,
        Some(n) => n.rank as nat,
    }
}

/// Every node's rank is one more than its right child's, and no right child
/// outranks its left sibling.
spec fn leftist<T: Ord>(t: Option<Box<Node<T>>>) -> bool
    decreases t,
{
    match t {
        None => true,
        Some(n) => {
            &&& n.rank == 1 + rank_of(n.right)
            &&& rank_of(n.left) >= rank_of(n.right)
            &&& leftist(n.left)
            &&& leftist(n.right)
        },
    }
}

/// A rank never exceeds the number of values in the tree.
proof fn lemma_rank_bound<T: Ord>(t: Option<Box<Node<T>>>)
    requires
        leftist(t),
    ensures
        rank_of(t) <= tree_ms(t).len(),
    decreases t,
{
    if let Some(n) = t {
        lemma_rank_bound(n.right);
    }
}

impl<T: Ord> Node<T> {
    fn singleton(value: T) -> (r: Option<Box<Node<T>>>)
        ensures
            ordered(r),
            leftist(r),
            tree_ms(r) =~= Multiset::singleton(value),
    {
        let r = Some(Box::new(Node { value, rank: 1, left: None, right: None }));
        assert(leftist::<T>(None));
        assert(tree_ms(r) =~= Multiset::singleton(value)) by {
            assert(tree_ms::<T>(None) =~= Multiset::empty());
        }
        r
    }

    fn rank(t: &Option<Box<Node<T>>>) -> (r: usize)
        ensures
            r == rank_of(*t),
    {
        match t {
            None => 0,
            Some(n) => n.rank,
        }
    }

    /// Melds two trees: the smaller root keeps its left child and takes the
    /// meld of its right child with the other tree; the higher-ranked of the
    /// two then goes to the left. It recurses down right children only, so
    /// no deeper than the two ranks together, which grow with the logarithm
    /// of the size.
    fn meld(a: Option<Box<Node<T>>>, b: Option<Box<Node<T>>>) -> (r: Option<Box<Node<T>>>)
        requires
            obeys_cmp::<T>() ==> ordered(a) && ordered(b),
            leftist(a),
            leftist(b),
            tree_ms(a).len() + tree_ms(b).len() <= usize::MAX,
        ensures
            obeys_cmp::<T>() ==> ordered(r),
            leftist(r),
            tree_ms(r) == tree_ms(a).add(tree_ms(b)),
            r matches Some(n) ==> (a matches Some(x) && x.value == n.value) || (b matches Some(
                y,
            ) && y.value == n.value),
        decreases tree_ms(a).len() + tree_ms(b).len(),
    {
        proof {
            assert(tree_ms::<T>(None) =~= Multiset::empty());
        }
        let (n1, n2) = match (a, b) {
            (None, b) => {
                assert(tree_ms(b) =~= tree_ms(a).add(tree_ms(b)));
                return b;
            },
            (a, None) => {
                assert(tree_ms(a) =~= tree_ms(a).add(tree_ms(b)));
                return a;
            },
            (Some(n1), Some(n2)) => (n1, n2),
        };
        proof {
            if obeys_cmp::<T>() {
                lemma_obeys_partial_cmp::<T>();
            }
        }
        let (mut small, big) = if n1.value > n2.value {
            (n2, n1)
        } else {
            (n1, n2)
        };
        proof {
            if obeys_cmp::<T>() {
                lemma_leq_total(small.value, big.value);
                lemma_above(small.right, small.value);
            }
        }
        let ghost small0 = small;
        let right = small.right.take();
        let merged = Self::meld(right, Some(big));
        let left = small.left.take();
        let rank_left = Self::rank(&left);
        let rank_merged = Self::rank(&merged);
        proof {
            lemma_rank_bound(left);
            lemma_rank_bound(merged);
            assert(tree_ms(Some(small0)) =~= tree_ms(left).add(tree_ms(right)).insert(small0.value));
        }
        if rank_merged > rank_left {
            small.left = merged;
            small.right = left;
            small.rank = rank_left + 1;
        } else {
            small.left = left;
            small.right = merged;
            small.rank = rank_merged + 1;
        }
        let r = Some(small);
        assert(tree_ms(r) =~= tree_ms(Some(n1)).add(tree_ms(Some(n2))));
        r
    }
}

} // verus!
