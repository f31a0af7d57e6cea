//! A skew heap: a binary tree whose meld swaps the children of every node on
//! its merge path, with no balance field.
use crate::order::{
    is_least, leq, lemma_leq_total, lemma_leq_trans, lemma_obeys_partial_cmp, lemma_refs_push,
    refs_ms, refs_seq,
};
use vstd::laws_cmp::obeys_cmp;
use vstd::multiset::Multiset;
use vstd::prelude::*;
use vstd::std_specs::cmp::PartialOrdSpec;
use vstd::std_specs::iter::IteratorSpec;

verus! {

/// A min-ordered skew heap.
pub struct SkewHeap<T: Ord> {
    root: Option<Box<Node<T>>>,
}

struct Node<T: Ord> {
    value: T,
    left: Option<Box<Node<T>>>,
    right: Option<Box<Node<T>>>,
}

impl<T: Ord> View for SkewHeap<T> {
    type V = Multiset<T>;

    /// The values the heap holds, with their multiplicities.
    closed spec fn view(&self) -> Multiset<T> {
        tree_ms(self.root)
    }
}

impl<T: Ord> SkewHeap<T> {
    /// No child in the tree is smaller than its parent.
    pub closed spec fn heap_ordered(&self) -> bool {
        ordered(self.root)
    }

    /// The invariant kept between operations: the tree is heap-ordered
    /// whenever `T`'s order is a lawful total order. A skew heap has no
    /// further shape to keep.
    pub closed spec fn well_formed(&self) -> bool {
        obeys_cmp::<T>() ==> self.heap_ordered()
    }

    /// The value at the root, which `peek` shows and `pop` removes.
    pub closed spec fn top(&self) -> Option<T> {
        match self.root {
            None => None,
            Some(n) => Some(n.value),
        }
    }

    /// An empty heap.
    pub fn new() -> (r: Self)
        ensures
            r.well_formed(),
            r@ == Multiset::<T>::empty(),
    {
        let r = SkewHeap { root: None };
        assert(r@ =~= Multiset::<T>::empty());
        r
    }

    /// Whether the heap holds no value.
    pub fn is_empty(&self) -> (r: bool)
        ensures
            r == (self@.len() == 0),
    {
        self.root.is_none()
    }

    /// Adds `value` to the heap.
    pub fn push(&mut self, value: T)
        requires
            old(self).well_formed(),
        ensures
            final(self).well_formed(),
            final(self)@ == old(self)@.insert(value),
    {
        let single = Node::singleton(value);
        self.root = Node::meld(self.root.take(), single);
        assert(self@ =~= old(self)@.insert(value));
    }

    /// Removes and returns the value at the root, a least value, or returns
    /// `None`, leaving the heap as it was, when it is empty. Under an order
    /// that breaks the laws no value is lost, only the heap order.
    pub fn pop(&mut self) -> (r: Option<T>)
        requires
            old(self).well_formed(),
        ensures
            final(self).well_formed(),
            r == old(self).top(),
            old(self)@.len() == 0 ==> r is None && *final(self) == *old(self),
            old(self)@.len() > 0 ==> (r matches Some(v) && old(self)@.contains(v) && final(self)@
                == old(self)@.remove(v)),
            obeys_cmp::<T>() && old(self)@.len() > 0 ==> is_least(r->Some_0, old(self)@),
    {
        let root = match self.root.take() {
            None => return None,
            Some(root) => root,
        };
        proof {
            lemma_root_split(root);
            if obeys_cmp::<T>() {
                lemma_root_least(root);
                lemma_above(root.left, root.value);
                lemma_above(root.right, root.value);
            }
        }
        let value = root.value;
        self.root = Node::meld(root.left, root.right);
        Some(value)
    }

    /// The value at the root, a least value, or `None` when the heap is
    /// empty.
    pub fn peek(&self) -> (r: Option<&T>)
        requires
            self.well_formed(),
        ensures
            self@.len() == 0 ==> r is None,
            self@.len() > 0 ==> (r matches Some(v) && Some(*v) == self.top() && self@.contains(*v)),
            obeys_cmp::<T>() && self@.len() > 0 ==> is_least(*r->Some_0, self@),
    {
        match &self.root {
            None => None,
            Some(node) => {
                proof {
                    lemma_root_split(*node);
                    if obeys_cmp::<T>() {
                        lemma_root_least(*node);
                    }
                }
                Some(&node.value)
            },
        }
    }

    /// The order in which `iter` hands out the values: each node, then its
    /// right subtree, then its left subtree.
    pub closed spec fn walk(&self) -> Seq<T> {
        walk_tree(self.root)
    }

    /// Every value of the heap once, in the order of `walk`: a pre-order
    /// walk of the tree with an explicit stack, done at the call, whose
    /// references come out of a vector.
    pub fn iter(&self) -> (r: std::vec::IntoIter<&T>)
        ensures
            refs_seq(r.remaining()) == self.walk(),
            refs_ms(r.remaining()) == self@,
    {
        let mut out: Vec<&T> = Vec::new();
        let mut stack: Vec<&Box<Node<T>>> = Vec::new();
        proof {
            assert(tree_ms::<T>(None) =~= Multiset::empty());
            assert(refs_ms(out@) =~= Multiset::empty()) by {
                broadcast use vstd::seq_lib::group_to_multiset_ensures;
            }
        }
        assert(refs_seq(out@) =~= Seq::<T>::empty());
        assert(walk_tree::<T>(None) =~= Seq::<T>::empty());
        match &self.root {
            None => {
                assert(refs_ms(out@).add(stack_ms(stack@)) =~= self@);
                assert(refs_seq(out@) + stack_walk(stack@) =~= self.walk());
            },
            Some(node) => {
                stack.push(node);
                proof {
                    lemma_stack_push(Seq::<&Box<Node<T>>>::empty(), node);
                    assert(Seq::<&Box<Node<T>>>::empty().push(node) =~= stack@);
                    assert(refs_ms(out@).add(stack_ms(stack@)) =~= self@);
                    assert(stack_walk(Seq::<&Box<Node<T>>>::empty()) =~= Seq::<T>::empty());
                    assert(refs_seq(out@) + stack_walk(stack@) =~= self.walk());
                }
            },
        }
        loop
            invariant
                refs_ms(out@).add(stack_ms(stack@)) == self@,
                refs_seq(out@) + stack_walk(stack@) == self.walk(),
            ensures
                refs_ms(out@) == self@,
                refs_seq(out@) == self.walk(),
            decreases stack_ms(stack@).len(),
        {
            let ghost s0 = stack@;
            let node = match stack.pop() {
                None => {
                    assert(stack_ms(stack@) =~= Multiset::empty());
                    assert(refs_seq(out@) + stack_walk(stack@) =~= refs_seq(out@));
                    break;
                },
                Some(node) => node,
            };
            assert(s0.drop_last() == stack@);
            let ghost s1 = stack@;
            if let Some(l) = &node.left {
                proof {
                    lemma_stack_push(stack@, l);
                }
                stack.push(l);
            }
            let ghost s2 = stack@;
            if let Some(r) = &node.right {
                proof {
                    lemma_stack_push(stack@, r);
                }
                stack.push(r);
            }
            proof {
                assert(tree_ms::<T>(None) =~= Multiset::empty());
                assert(stack_ms(s2) =~= stack_ms(s1).add(tree_ms(node.left)));
                assert(stack_ms(stack@) =~= stack_ms(s2).add(tree_ms(node.right)));
                assert(stack_walk(s2) =~= walk_tree(node.left) + stack_walk(s1));
                assert(stack_walk(stack@) =~= walk_tree(node.right) + stack_walk(s2));
                lemma_refs_push(out@, &node.value);
            }
            out.push(&node.value);
            assert(refs_ms(out@).add(stack_ms(stack@)) =~= self@);
            assert(refs_seq(out@) + stack_walk(stack@) =~= self.walk());
        }
        out.into_iter()
    }

    /// Melds two heaps into one that holds the values of both, consuming
    /// them.
    pub fn meld(heap1: SkewHeap<T>, heap2: SkewHeap<T>) -> (r: SkewHeap<T>)
        requires
            heap1.well_formed(),
            heap2.well_formed(),
        ensures
            r.well_formed(),
            r@ == heap1@.add(heap2@),
    {
        let mut heap1 = heap1;
        let mut heap2 = heap2;
        let root = Node::meld(heap1.root.take(), heap2.root.take());
        SkewHeap { root }
    }
}

/// Tearing the tree down node by node: a node without a left child is freed
/// and its right child takes its place; otherwise the tree is rotated so that
/// the left child moves up. Each step frees a node or lowers this weight.
spec fn teardown_weight<T: Ord>(t: Option<Box<Node<T>>>) -> nat
    decreases t,
{
    match t {
        None => 0,
        Some(n) => 1 + tree_ms(n.left).len() + teardown_weight(n.left) + teardown_weight(n.right),
    }
}

impl<T: Ord> Drop for SkewHeap<T> {
    /// Frees the nodes one at a time, with no recursion and no extra memory,
    /// however deep the tree is.
    fn drop(&mut self)
        ensures
            final(self)@.len() == 0,
        opens_invariants none
        no_unwind
    {
        let mut cur: Option<Box<Node<T>>> = None;
        core::mem::swap(&mut cur, &mut self.root);
        assert(tree_ms::<T>(None) =~= Multiset::empty());
        loop
            decreases teardown_weight(cur),
        {
            let mut node = match cur {
                None => break,
                Some(node) => node,
            };
            let ghost n = node;
            let mut child: Option<Box<Node<T>>> = None;
            core::mem::swap(&mut child, &mut node.left);
            match child {
                None => {
                    let mut next: Option<Box<Node<T>>> = None;
                    core::mem::swap(&mut next, &mut node.right);
                    cur = next;
                },
                Some(mut c) => {
                    let ghost c0 = c;
                    core::mem::swap(&mut node.left, &mut c.right);
                    c.right = Some(node);
                    cur = Some(c);
                    proof {
                        let moved = c.right.unwrap();
                        assert(tree_ms(Some(c0)).len() == 1 + tree_ms(c0.left).len() + tree_ms(
                            c0.right,
                        ).len());
                        assert(teardown_weight(Some(moved)) == 1 + tree_ms(c0.right).len()
                            + teardown_weight(c0.right) + teardown_weight(n.right));
                        assert(teardown_weight(Some(c0)) == 1 + tree_ms(c0.left).len()
                            + teardown_weight(c0.left) + teardown_weight(c0.right));
                        assert(teardown_weight(Some(n)) == 1 + tree_ms(Some(c0)).len()
                            + teardown_weight(Some(c0)) + teardown_weight(n.right));
                    }
                },
            }
        }
    }
}

/// The values held by the trees of a traversal stack.
spec fn stack_ms<T: Ord>(s: Seq<&Box<Node<T>>>) -> Multiset<T>
    decreases s.len(),
{
    if s.len() == 0 {
        Multiset::empty()
    } else {
        stack_ms(s.drop_last()).add(tree_ms(Some(*s.last())))
    }
}

/// The order in which a walk with a stack visits a tree: the root, then its
/// right subtree, then its left subtree.
spec fn walk_tree<T: Ord>(t: Option<Box<Node<T>>>) -> Seq<T>
    decreases t,
{
    match t {
        None => Seq::empty(),
        Some(n) => seq![n.value] + walk_tree(n.right) + walk_tree(n.left),
    }
}

/// The order in which a walk visits the trees left on its stack, the top
/// one first.
spec fn stack_walk<T: Ord>(s: Seq<&Box<Node<T>>>) -> Seq<T>
    decreases s.len(),
{
    if s.len() == 0 {
        Seq::empty()
    } else {
        walk_tree(Some(*s.last())) + stack_walk(s.drop_last())
    }
}

proof fn lemma_stack_push<T: Ord>(s: Seq<&Box<Node<T>>>, n: &Box<Node<T>>)
    ensures
        stack_ms(s.push(n)) == stack_ms(s).add(tree_ms(Some(*n))),
        stack_walk(s.push(n)) == walk_tree(Some(*n)) + stack_walk(s),
{
    assert(s.push(n).drop_last() =~= s);
}

/// The values held by a tree.
spec fn tree_ms<T: Ord>(t: Option<Box<Node<T>>>) -> Multiset<T>
    decreases t,
{
    match t {
        None => Multiset::empty(),
        Some(n) => tree_ms(n.left).add(tree_ms(n.right)).insert(n.value),
    }
}

/// The root of `t` is at least `bound`, and no child in `t` is smaller than
/// its parent.
spec fn above<T: Ord>(t: Option<Box<Node<T>>>, bound: T) -> bool
    decreases t,
{
    match t {
        None => true,
        Some(n) => leq(bound, n.value) && above(n.left, n.value) && above(n.right, n.value),
    }
}

/// No child in `t` is smaller than its parent.
spec fn ordered<T: Ord>(t: Option<Box<Node<T>>>) -> bool {
    match t {
        None => true,
        Some(n) => above(n.left, n.value) && above(n.right, n.value),
    }
}

/// Everything in a tree that lies above `bound` is at least `bound`.
proof fn lemma_above<T: Ord>(t: Option<Box<Node<T>>>, bound: T)
    requires
        obeys_cmp::<T>(),
        above(t, bound),
    ensures
        forall|x: T| tree_ms(t).contains(x) ==> leq(bound, x),
        ordered(t),
    decreases t,
{
    if let Some(n) = t {
        lemma_above(n.left, n.value);
        lemma_above(n.right, n.value);
        assert forall|x: T| tree_ms(t).contains(x) implies leq(bound, x) by {
            if x != n.value {
                lemma_leq_trans(bound, n.value, x);
            }
        }
    }
}

/// A tree holds its root's value and those of its two subtrees.
proof fn lemma_root_split<T: Ord>(n: Box<Node<T>>)
    ensures
        tree_ms(Some(n)) =~= tree_ms(n.left).add(tree_ms(n.right)).insert(n.value),
        tree_ms(Some(n)).contains(n.value),
{
}

/// The root of a heap-ordered tree is a least value of it.
proof fn lemma_root_least<T: Ord>(n: Box<Node<T>>)
    requires
        obeys_cmp::<T>(),
        ordered(Some(n)),
    ensures
        is_least(n.value, tree_ms(Some(n))),
        tree_ms(Some(n)) =~= tree_ms(n.left).add(tree_ms(n.right)).insert(n.value),
{
    lemma_above(n.left, n.value);
    lemma_above(n.right, n.value);
    lemma_leq_total(n.value, n.value);
}

/// The nodes on a meld's merge path, top first, each as its value and its
/// right child: every right child is heap-ordered, and no value is smaller
/// than the one above it.
spec fn path_ok<T: Ord>(path: Seq<(T, Option<Box<Node<T>>>)>) -> bool {
    &&& forall|i: int| 0 <= i < path.len() ==> above((#[trigger] path[i]).1, path[i].0)
    &&& forall|i: int| 0 < i < path.len() ==> leq(path[i - 1].0, (#[trigger] path[i]).0)
}

/// The values held by the nodes of a merge path and their right children.
spec fn path_ms<T: Ord>(path: Seq<(T, Option<Box<Node<T>>>)>) -> Multiset<T>
    decreases path.len(),
{
    if path.len() == 0 {
        Multiset::empty()
    } else {
        path_ms(path.drop_last()).add(tree_ms(path.last().1)).insert(path.last().0)
    }
}

/// The tree that a merge path makes once `t` hangs as the left child of its
/// lowest node.
spec fn plug<T: Ord>(path: Seq<(T, Option<Box<Node<T>>>)>, t: Option<Box<Node<T>>>) -> Option<
    Box<Node<T>>,
>
    decreases path.len(),
{
    if path.len() == 0 {
        t
    } else {
        plug(
            path.drop_last(),
            Some(Box::new(Node { value: path.last().0, left: t, right: path.last().1 })),
        )
    }
}

/// A well-ordered merge path with a heap-ordered tree below its lowest node
/// makes a heap-ordered tree of all their values.
proof fn lemma_plug<T: Ord>(path: Seq<(T, Option<Box<Node<T>>>)>, t: Option<Box<Node<T>>>)
    requires
        obeys_cmp::<T>() ==> path_ok(path),
        obeys_cmp::<T>() && path.len() == 0 ==> ordered(t),
        obeys_cmp::<T>() && path.len() > 0 ==> above(t, path.last().0),
    ensures
        obeys_cmp::<T>() ==> ordered(plug(path, t)),
        tree_ms(plug(path, t)) == path_ms(path).add(tree_ms(t)),
    decreases path.len(),
{
    if path.len() == 0 {
        assert(path_ms(path).add(tree_ms(t)) =~= tree_ms(t));
    } else {
        let last = path.last();
        let up = Some(Box::new(Node { value: last.0, left: t, right: last.1 }));
        let rest = path.drop_last();
        if obeys_cmp::<T>() {
            assert(path_ok(rest)) by {
                assert forall|i: int| 0 < i < rest.len() implies leq(rest[i - 1].0, (#[trigger] rest[i]).0) by {
                    assert(rest[i] == path[i] && rest[i - 1] == path[i - 1]);
                }
                assert forall|i: int| 0 <= i < rest.len() implies above((#[trigger] rest[i]).1, rest[i].0) by {
                    assert(rest[i] == path[i]);
                }
            }
            assert(above(last.1, last.0));
            if rest.len() > 0 {
                assert(path[path.len() - 2] == rest.last());
                assert(leq(rest.last().0, last.0));
            }
        }
        lemma_plug(rest, up);
        assert(tree_ms(up) =~= tree_ms(t).add(tree_ms(last.1)).insert(last.0));
        assert(path_ms(path).add(tree_ms(t)) =~= path_ms(rest).add(tree_ms(up)));
    }
}

impl<T: Ord> Node<T> {
    fn singleton(value: T) -> (r: Option<Box<Node<T>>>)
        ensures
            ordered(r),
            tree_ms(r) =~= Multiset::singleton(value),
    {
        let r = Some(Box::new(Node { value, left: None, right: None }));
        assert(tree_ms(r) =~= Multiset::singleton(value)) by {
            assert(tree_ms::<T>(None) =~= Multiset::empty());
        }
        r
    }

    /// Melds two trees. Walking down, it takes the smaller of the two roots,
    /// moves that node's left child to its right and goes on with its old
    /// right child and the other tree, building the result top down in the
    /// left link of the node it placed last. It uses neither recursion nor
    /// memory beyond the nodes themselves.
    fn meld(a: Option<Box<Node<T>>>, b: Option<Box<Node<T>>>) -> (r: Option<Box<Node<T>>>)
        requires
            obeys_cmp::<T>() ==> ordered(a) && ordered(b),
        ensures
            obeys_cmp::<T>() ==> ordered(r),
            tree_ms(r) == tree_ms(a).add(tree_ms(b)),
    {
        let ghost total = tree_ms(a).add(tree_ms(b));
        let mut x = a;
        let mut y = b;
        let mut result: Option<Box<Node<T>>> = None;
        let mut hole = &mut result;
        let ghost mut path: Seq<(T, Option<Box<Node<T>>>)> = Seq::empty();
        proof {
            if obeys_cmp::<T>() {
                lemma_obeys_partial_cmp::<T>();
            }
            assert(path_ms(path).add(tree_ms(x)).add(tree_ms(y)) =~= total);
        }
        while x.is_some() && y.is_some()
            invariant
                obeys_cmp::<T>() ==> T::obeys_partial_cmp_spec(),
                obeys_cmp::<T>() ==> ordered(x) && ordered(y) && path_ok(path),
                obeys_cmp::<T>() && path.len() > 0 ==> above(x, path.last().0) && above(
                    y,
                    path.last().0,
                ),
                path_ms(path).add(tree_ms(x)).add(tree_ms(y)) == total,
                after_borrow(result) == plug(path, *final(hole)),
            decreases tree_ms(x).len() + tree_ms(y).len(),
        {
            let n1 = x.take().unwrap();
            let n2 = y.take().unwrap();
            let (mut small, big) = if n1.value > n2.value {
                (n2, n1)
            } else {
                (n1, n2)
            };
            proof {
                if obeys_cmp::<T>() {
                    lemma_leq_total(small.value, big.value);
                }
                assert(tree_ms(Some(small)) =~= tree_ms(small.left).add(tree_ms(small.right)).insert(small.value));
                assert(tree_ms(Some(n1)).add(tree_ms(Some(n2))) =~= tree_ms(Some(small)).add(tree_ms(Some(big))));
            }
            let ghost small0 = small;
            let old_left = small.left.take();
            let old_right = small.right.take();
            small.right = old_left;
            x = old_right;
            y = Some(big);
            let ghost frame = (small.value, small.right);
            proof {
                let p1 = path.push(frame);
                assert(p1.drop_last() =~= path);
                assert(path_ms(p1) =~= path_ms(path).add(tree_ms(small0.left)).insert(small0.value));
                assert(path_ms(p1).add(tree_ms(x)).add(tree_ms(y)) =~= total);
                if obeys_cmp::<T>() {
                    assert forall|i: int| 0 < i < p1.len() implies leq(p1[i - 1].0, (#[trigger] p1[i]).0) by {
                        if i < path.len() {
                            assert(p1[i] == path[i] && p1[i - 1] == path[i - 1]);
                        } else {
                            assert(p1[i - 1] == path.last());
                        }
                    }
                    assert forall|i: int| 0 <= i < p1.len() implies above((#[trigger] p1[i]).1, p1[i].0) by {
                        if i < path.len() {
                            assert(p1[i] == path[i]);
                        }
                    }
                }
            }
            *hole = Some(small);
            match hole {
                Some(node) => {
                    hole = &mut node.left;
                },
                None => {},
            }
            proof {
                let p1 = path.push(frame);
                assert(p1.drop_last() =~= path);
                path = p1;
            }
        }
        let rest = if x.is_none() {
            y
        } else {
            x
        };
        *hole = rest;
        proof {
            lemma_plug(path, rest);
            assert(path_ms(path).add(tree_ms(rest)) =~= total);
        }
        result
    }
}

} // verus!
