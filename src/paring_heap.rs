//! A pairing heap: a multiway tree stored as a binary tree of
//! first-child / next-sibling links.
use crate::order::{
    greater, is_least, leq, lemma_leq_total, lemma_leq_trans, lemma_obeys_partial_cmp, lemma_refs_push,
    refs_ms, refs_seq,
};
use vstd::laws_cmp::obeys_cmp;
use vstd::multiset::Multiset;
use vstd::prelude::*;
use vstd::std_specs::cmp::PartialOrdSpec;
use vstd::std_specs::iter::IteratorSpec;

verus! {

/// A min-ordered pairing heap.
pub struct ParingHeap<T: Ord> {
    root: Option<Box<Node<T>>>,
}

struct Node<T: Ord> {
    value: T,
    first_child: Option<Box<Node<T>>>,
    next_sibling: Option<Box<Node<T>>>,
}

impl<T: Ord> View for ParingHeap<T> {
    type V = Multiset<T>;

    /// The values the heap holds, with their multiplicities.
    closed spec fn view(&self) -> Multiset<T> {
        forest_ms(self.root)
    }
}

impl<T: Ord> ParingHeap<T> {
    /// No child in the tree is smaller than its parent.
    pub closed spec fn heap_ordered(&self) -> bool {
        self.root matches Some(n) ==> forest_above(n.first_child, n.value)
    }

    /// The invariant kept between operations: the heap is one tree, its root
    /// without siblings, and it is heap-ordered whenever `T`'s order is a
    /// lawful total order.
    pub closed spec fn well_formed(&self) -> bool {
        &&& self.root matches Some(n) ==> n.next_sibling is None
        &&& obeys_cmp::<T>() ==> self.heap_ordered()
    }

    /// The value at the root, which `peek` shows and `pop` removes.
    pub closed spec fn top(&self) -> Option<T> {
        match self.root {
            None => None,
            Some(n) => Some(n.value),
        }
    }

    /// An empty heap.
    pub fn new() -> (r: Self)
        ensures
            r.well_formed(),
            r@ == Multiset::<T>::empty(),
    {
        let r = ParingHeap { root: None };
        assert(r@ =~= Multiset::<T>::empty());
        r
    }

    /// Whether the heap holds no value.
    pub fn is_empty(&self) -> (r: bool)
        ensures
            r == (self@.len() == 0),
    {
        self.root.is_none()
    }

    /// Adds `value` to the heap.
    pub fn push(&mut self, value: T)
        requires
            old(self).well_formed(),
        ensures
            final(self).well_formed(),
            final(self)@ == old(self)@.insert(value),
    {
        let single = Node::singleton(value);
        self.root = Node::meld(self.root.take(), single);
        assert(self@ =~= old(self)@.insert(value));
    }

    /// Removes and returns the value at the root, a least value, or returns
    /// `None`, leaving the heap as it was, when it is empty. Under an order
    /// that breaks the laws no value is lost, only the heap order.
    pub fn pop(&mut self) -> (r: Option<T>)
        requires
            old(self).well_formed(),
        ensures
            final(self).well_formed(),
            r == old(self).top(),
            old(self)@.len() == 0 ==> r is None && *final(self) == *old(self),
            old(self)@.len() > 0 ==> (r matches Some(v) && old(self)@.contains(v) && final(self)@
                == old(self)@.remove(v)),
            obeys_cmp::<T>() && old(self)@.len() > 0 ==> is_least(r->Some_0, old(self)@),
    {
        let root = match self.root.take() {
            None => return None,
            Some(root) => root,
        };
        proof {
            lemma_root_split(root);
            if obeys_cmp::<T>() {
                lemma_root_least(root);
            }
        }
        let value = root.value;
        self.root = Node::meld_siblings(root.first_child);
        Some(value)
    }

    /// The value at the root, a least value, or `None` when the heap is
    /// empty.
    pub fn peek(&self) -> (r: Option<&T>)
        requires
            self.well_formed(),
        ensures
            self@.len() == 0 ==> r is None,
            self@.len() > 0 ==> (r matches Some(v) && Some(*v) == self.top() && self@.contains(*v)),
            obeys_cmp::<T>() && self@.len() > 0 ==> is_least(*r->Some_0, self@),
    {
        match &self.root {
            None => None,
            Some(node) => {
                proof {
                    lemma_root_split(*node);
                    if obeys_cmp::<T>() {
                        lemma_root_least(*node);
                    }
                }
                Some(&node.value)
            },
        }
    }

    /// The order in which `iter` hands out the values: each node before
    /// the nodes below it, and the children of a node from the last to the
    /// first.
    pub closed spec fn walk(&self) -> Seq<T> {
        walk_forest(self.root)
    }

    /// Every value of the heap once, in the order of `walk`: a pre-order
    /// walk of the tree with an explicit stack, done at the call, whose
    /// references come out of a vector.
    pub fn iter(&self) -> (r: std::vec::IntoIter<&T>)
        requires
            self.well_formed(),
        ensures
            refs_seq(r.remaining()) == self.walk(),
            refs_ms(r.remaining()) == self@,
    {
        let mut out: Vec<&T> = Vec::new();
        let mut stack: Vec<&Box<Node<T>>> = Vec::new();
        proof {
            assert(forest_ms::<T>(None) =~= Multiset::empty());
            assert(refs_ms(out@) =~= Multiset::empty()) by {
                broadcast use vstd::seq_lib::group_to_multiset_ensures;
            }
        }
        assert(refs_seq(out@) =~= Seq::<T>::empty());
        assert(walk_forest::<T>(None) =~= Seq::<T>::empty());
        match &self.root {
            None => {
                assert(refs_ms(out@).add(stack_ms(stack@)) =~= self@);
                assert(refs_seq(out@) + stack_walk(stack@) =~= self.walk());
            },
            Some(node) => {
                stack.push(node);
                proof {
                    lemma_stack_push(Seq::<&Box<Node<T>>>::empty(), node);
                    assert(Seq::<&Box<Node<T>>>::empty().push(node) =~= stack@);
                    assert(refs_ms(out@).add(stack_ms(stack@)) =~= self@);
                    assert(stack@.drop_last() =~= Seq::<&Box<Node<T>>>::empty());
                    assert(stack@.last() == node);
                    assert(node.next_sibling is None);
                    assert(stack_walk(stack@.drop_last()) =~= Seq::<T>::empty());
                    assert(stack_walk(stack@) =~= seq![node.value] + walk_forest(node.first_child));
                    assert(self.walk() =~= seq![node.value] + walk_forest(node.first_child));
                    assert(refs_seq(out@) + stack_walk(stack@) =~= self.walk());
                }
            },
        }
        loop
            invariant
                refs_ms(out@).add(stack_ms(stack@)) == self@,
                refs_seq(out@) + stack_walk(stack@) == self.walk(),
            ensures
                refs_ms(out@) == self@,
                refs_seq(out@) == self.walk(),
            decreases stack_ms(stack@).len(),
        {
            let node = match stack.pop() {
                None => {
                    assert(stack_ms(stack@) =~= Multiset::empty());
                    assert(refs_seq(out@) + stack_walk(stack@) =~= refs_seq(out@));
                    break;
                },
                Some(node) => node,
            };
            let ghost below = stack@;
            proof {
                assert(stack_walk(below.push(node)) == seq![node.value] + walk_forest(node.first_child)
                    + stack_walk(below)) by {
                    assert(below.push(node).drop_last() =~= below);
                }
            }
            let mut it = &node.first_child;
            loop
                invariant
                    stack_ms(stack@).add(forest_ms(*it)) == stack_ms(below).add(forest_ms(node.first_child)),
                    walk_forest(*it) + stack_walk(stack@) == walk_forest(node.first_child) + stack_walk(below),
                ensures
                    stack_ms(stack@) == stack_ms(below).add(forest_ms(node.first_child)),
                    stack_walk(stack@) == walk_forest(node.first_child) + stack_walk(below),
                decreases forest_ms(*it).len(),
            {
                match it {
                    None => {
                        assert(forest_ms::<T>(None) =~= Multiset::empty());
                        assert(stack_ms(stack@) =~= stack_ms(stack@).add(forest_ms(*it)));
                        assert(walk_forest(*it) + stack_walk(stack@) =~= stack_walk(stack@));
                        break;
                    },
                    Some(child) => {
                        let ghost s0 = stack@;
                        proof {
                            lemma_stack_push(stack@, child);
                            assert(forest_ms(*it) =~= tree_ms(child).add(forest_ms(child.next_sibling)));
                            assert(s0.push(child).drop_last() =~= s0);
                            assert(walk_forest(child.next_sibling) + stack_walk(s0.push(child))
                                =~= walk_forest(*it) + stack_walk(s0));
                        }
                        it = &child.next_sibling;
                        stack.push(child);
                        assert(stack_ms(stack@).add(forest_ms(*it)) =~= stack_ms(below).add(forest_ms(node.first_child)));
                    },
                }
            }
            proof {
                lemma_refs_push(out@, &node.value);
            }
            out.push(&node.value);
            assert(refs_ms(out@).add(stack_ms(stack@)) =~= self@);
            assert(refs_seq(out@) + stack_walk(stack@) =~= self.walk());
        }
        out.into_iter()
    }

    /// Melds two heaps into one that holds the values of both, consuming
    /// them.
    pub fn meld(heap1: ParingHeap<T>, heap2: ParingHeap<T>) -> (r: ParingHeap<T>)
        requires
            heap1.well_formed(),
            heap2.well_formed(),
        ensures
            r.well_formed(),
            r@ == heap1@.add(heap2@),
    {
        let mut heap1 = heap1;
        let mut heap2 = heap2;
        let root = Node::meld(heap1.root.take(), heap2.root.take());
        ParingHeap { root }
    }
}

/// Tearing the tree down node by node: a node without a first child is freed
/// and its next sibling takes its place; otherwise the tree is rotated so that
/// the first child moves up. Each step frees a node or lowers this weight.
spec fn teardown_weight<T: Ord>(f: Option<Box<Node<T>>>) -> nat
    decreases f,
{
    match f {
        None => 0,
        Some(n) => 1 + forest_ms(n.first_child).len() + teardown_weight(n.first_child)
            + teardown_weight(n.next_sibling),
    }
}

impl<T: Ord> Drop for ParingHeap<T> {
    /// Frees the nodes one at a time, with no recursion and no extra memory,
    /// however deep the tree is.
    fn drop(&mut self)
        ensures
            final(self)@.len() == 0,
        opens_invariants none
        no_unwind
    {
        let mut cur: Option<Box<Node<T>>> = None;
        core::mem::swap(&mut cur, &mut self.root);
        assert(forest_ms::<T>(None) =~= Multiset::empty());
        loop
            decreases teardown_weight(cur),
        {
            let mut node = match cur {
                None => break,
                Some(node) => node,
            };
            let ghost n = node;
            let mut child: Option<Box<Node<T>>> = None;
            core::mem::swap(&mut child, &mut node.first_child);
            match child {
                None => {
                    let mut next: Option<Box<Node<T>>> = None;
                    core::mem::swap(&mut next, &mut node.next_sibling);
                    cur = next;
                },
                Some(mut c) => {
                    let ghost c0 = c;
                    core::mem::swap(&mut node.first_child, &mut c.next_sibling);
                    proof {
                        assert(forest_ms::<T>(None) =~= Multiset::empty());
                        lemma_detach(c0, c);
                    }
                    c.next_sibling = Some(node);
                    cur = Some(c);
                    proof {
                        let moved = c.next_sibling.unwrap();
                        assert(forest_ms(Some(c0)).len() == 1 + forest_ms(c0.first_child).len()
                            + forest_ms(c0.next_sibling).len());
                        assert(teardown_weight(Some(c0)) == 1 + forest_ms(c0.first_child).len()
                            + teardown_weight(c0.first_child) + teardown_weight(c0.next_sibling));
                        assert(teardown_weight(Some(moved)) == 1 + forest_ms(c0.next_sibling).len()
                            + teardown_weight(c0.next_sibling) + teardown_weight(n.next_sibling));
                        assert(teardown_weight(Some(n)) == 1 + forest_ms(Some(c0)).len()
                            + teardown_weight(Some(c0)) + teardown_weight(n.next_sibling));
                    }
                },
            }
        }
    }
}

/// The values held by a node and the nodes below it, but not by its siblings.
spec fn tree_ms<T: Ord>(n: &Box<Node<T>>) -> Multiset<T> {
    forest_ms(n.first_child).insert(n.value)
}

/// The values held by the trees of a traversal stack.
spec fn stack_ms<T: Ord>(s: Seq<&Box<Node<T>>>) -> Multiset<T>
    decreases s.len(),
{
    if s.len() == 0 {
        Multiset::empty()
    } else {
        stack_ms(s.drop_last()).add(tree_ms(s.last()))
    }
}

/// The order in which a walk with a stack visits a sibling list: the last
/// sibling's tree first, and in each tree the root before its children.
spec fn walk_forest<T: Ord>(f: Option<Box<Node<T>>>) -> Seq<T>
    decreases f,
{
    match f {
        None => Seq::empty(),
        Some(n) => walk_forest(n.next_sibling) + seq![n.value] + walk_forest(n.first_child),
    }
}

/// The order in which a walk visits the trees left on its stack, the top
/// one first.
spec fn stack_walk<T: Ord>(s: Seq<&Box<Node<T>>>) -> Seq<T>
    decreases s.len(),
{
    if s.len() == 0 {
        Seq::empty()
    } else {
        seq![s.last().value] + walk_forest(s.last().first_child) + stack_walk(s.drop_last())
    }
}

/// The values held by a sibling list and everything below it.
spec fn forest_ms<T: Ord>(f: Option<Box<Node<T>>>) -> Multiset<T>
    decreases f,
{
    match f {
        None => Multiset::empty(),
        Some(n) => forest_ms(n.first_child).add(forest_ms(n.next_sibling)).insert(n.value),
    }
}

/// Every node of the sibling list `f` is at least `bound`, and every node
/// further down is at least its parent.
spec fn forest_above<T: Ord>(f: Option<Box<Node<T>>>, bound: T) -> bool
    decreases f,
{
    match f {
        None => true,
        Some(n) => {
            &&& leq(bound, n.value)
            &&& forest_above(n.first_child, n.value)
            &&& forest_above(n.next_sibling, bound)
        },
    }
}

/// Each tree of the sibling list `f` is heap-ordered.
spec fn trees_ordered<T: Ord>(f: Option<Box<Node<T>>>) -> bool
    decreases f,
{
    match f {
        None => true,
        Some(n) => forest_above(n.first_child, n.value) && trees_ordered(n.next_sibling),
    }
}

/// A lone tree (a node without siblings) that is heap-ordered.
spec fn is_tree<T: Ord>(n: Box<Node<T>>) -> bool {
    &&& n.next_sibling is None
    &&& obeys_cmp::<T>() ==> forest_above(n.first_child, n.value)
}

/// Everything held by a forest that lies above `bound` is at least `bound`.
proof fn lemma_forest_above<T: Ord>(f: Option<Box<Node<T>>>, bound: T)
    requires
        obeys_cmp::<T>(),
        forest_above(f, bound),
    ensures
        forall|x: T| forest_ms(f).contains(x) ==> leq(bound, x),
        trees_ordered(f),
    decreases f,
{
    if let Some(n) = f {
        lemma_forest_above(n.first_child, n.value);
        lemma_forest_above(n.next_sibling, bound);
        assert forall|x: T| forest_ms(f).contains(x) implies leq(bound, x) by {
            if forest_ms(n.first_child).contains(x) {
                lemma_leq_trans(bound, n.value, x);
            }
        }
    }
}

proof fn lemma_stack_push<T: Ord>(s: Seq<&Box<Node<T>>>, n: &Box<Node<T>>)
    ensures
        stack_ms(s.push(n)) == stack_ms(s).add(tree_ms(n)),
{
    assert(s.push(n).drop_last() =~= s);
}

/// A lone tree holds its root's value and those below it.
proof fn lemma_root_split<T: Ord>(n: Box<Node<T>>)
    requires
        n.next_sibling is None,
    ensures
        forest_ms(Some(n)) =~= forest_ms(n.first_child).insert(n.value),
        forest_ms(Some(n)).contains(n.value),
{
    assert(forest_ms::<T>(None) =~= Multiset::empty());
}

/// The root of a lone heap-ordered tree is a least value of it, and its
/// children form a list of heap-ordered trees.
proof fn lemma_root_least<T: Ord>(n: Box<Node<T>>)
    requires
        obeys_cmp::<T>(),
        is_tree(n),
    ensures
        is_least(n.value, forest_ms(Some(n))),
        forest_ms(Some(n)) =~= forest_ms(n.first_child).insert(n.value),
        trees_ordered(n.first_child),
{
    lemma_forest_above(n.first_child, n.value);
    lemma_leq_total(n.value, n.value);
    assert(forest_ms::<T>(None) =~= Multiset::empty());
}

/// `below` made the first child of `top`, ahead of `top`'s own children.
spec fn link<T: Ord>(top: Box<Node<T>>, below: Box<Node<T>>) -> Box<Node<T>> {
    Box::new(
        Node {
            value: top.value,
            first_child: Some(
                Box::new(
                    Node {
                        value: below.value,
                        first_child: below.first_child,
                        next_sibling: top.first_child,
                    },
                ),
            ),
            next_sibling: None,
        },
    )
}

/// What `xmeld` makes of two trees: the larger root goes below; on a tie
/// the first tree stays on top.
spec fn xmeld_spec<T: Ord>(a: Box<Node<T>>, b: Box<Node<T>>) -> Box<Node<T>> {
    if greater(a.value, b.value) {
        link(b, a)
    } else {
        link(a, b)
    }
}

/// What `meld` makes of two trees, either of which may be absent.
spec fn meld_spec<T: Ord>(a: Option<Box<Node<T>>>, b: Option<Box<Node<T>>>) -> Option<
    Box<Node<T>>,
> {
    match (a, b) {
        (None, b) => b,
        (a, None) => a,
        (Some(x), Some(y)) => Some(xmeld_spec(x, y)),
    }
}

/// A node cut off its next sibling.
spec fn detach<T: Ord>(n: Box<Node<T>>) -> Box<Node<T>> {
    Box::new(Node { value: n.value, first_child: n.first_child, next_sibling: None })
}

/// The first pass over a sibling list: neighbours melded pairwise, left to
/// right, with a last odd tree left as it is.
spec fn pairs<T: Ord>(f: Option<Box<Node<T>>>) -> Seq<Box<Node<T>>>
    decreases f,
{
    match f {
        None => Seq::empty(),
        Some(a) => match a.next_sibling {
            None => seq![detach(a)],
            Some(b) => seq![xmeld_spec(detach(a), detach(b))] + pairs(b.next_sibling),
        },
    }
}

/// The second pass: the trees of `s` melded from the right, starting from
/// `acc`.
spec fn fold_melds<T: Ord>(s: Seq<Box<Node<T>>>, acc: Option<Box<Node<T>>>) -> Option<
    Box<Node<T>>,
>
    decreases s.len(),
{
    if s.len() == 0 {
        acc
    } else {
        meld_spec(Some(s[0]), fold_melds(s.drop_first(), acc))
    }
}

/// The trees of a list linked by `next_sibling`, cut apart, the last first.
spec fn rev_chain<T: Ord>(f: Option<Box<Node<T>>>) -> Seq<Box<Node<T>>>
    decreases f,
{
    match f {
        None => Seq::empty(),
        Some(n) => rev_chain(n.next_sibling).push(detach(n)),
    }
}

/// Folding from the right starts by melding the last tree into `acc`.
proof fn lemma_fold_last<T: Ord>(
    s: Seq<Box<Node<T>>>,
    x: Box<Node<T>>,
    acc: Option<Box<Node<T>>>,
)
    ensures
        fold_melds(s.push(x), acc) == fold_melds(s, meld_spec(Some(x), acc)),
    decreases s.len(),
{
    if s.len() == 0 {
        assert(s.push(x).drop_first() =~= Seq::<Box<Node<T>>>::empty());
        assert(s.push(x)[0] == x);
        assert(fold_melds(s.push(x).drop_first(), acc) == acc);
    } else {
        lemma_fold_last(s.drop_first(), x, acc);
        assert(s.push(x).drop_first() =~= s.drop_first().push(x));
        assert(s.push(x)[0] == s[0]);
    }
}

/// Cutting a node off its next sibling splits the values in two.
proof fn lemma_detach<T: Ord>(whole: Box<Node<T>>, cut: Box<Node<T>>)
    requires
        cut.value == whole.value,
        cut.first_child == whole.first_child,
        cut.next_sibling is None,
    ensures
        forest_ms(Some(whole)) =~= forest_ms(Some(cut)).add(forest_ms(whole.next_sibling)),
        forest_ms(Some(cut)).len() >= 1,
{
    assert(forest_ms::<T>(None) =~= Multiset::empty());
}

impl<T: Ord> Node<T> {
    fn singleton(value: T) -> (r: Option<Box<Node<T>>>)
        ensures
            r matches Some(n) && is_tree(n) && n.value == value,
            forest_ms(r) =~= Multiset::singleton(value),
    {
        let r = Some(Box::new(Node { value, first_child: None, next_sibling: None }));
        assert(forest_ms(r) =~= Multiset::singleton(value)) by {
            assert(forest_ms::<T>(None) =~= Multiset::empty());
        }
        r
    }

    /// Melds two trees, either of which may be absent.
    fn meld(root1: Option<Box<Node<T>>>, root2: Option<Box<Node<T>>>) -> (r: Option<Box<Node<T>>>)
        requires
            root1 matches Some(n) ==> is_tree(n),
            root2 matches Some(n) ==> is_tree(n),
        ensures
            r matches Some(n) ==> is_tree(n),
            forest_ms(r) == forest_ms(root1).add(forest_ms(root2)),
            T::obeys_partial_cmp_spec() ==> r == meld_spec(root1, root2),
    {
        match (root1, root2) {
            (None, root2) => {
                assert(forest_ms(root2) =~= forest_ms::<T>(None).add(forest_ms(root2)));
                root2
            },
            (root1, None) => {
                assert(forest_ms(root1) =~= forest_ms(root1).add(forest_ms::<T>(None)));
                root1
            },
            (Some(r1), Some(r2)) => Some(Self::xmeld(r1, r2)),
        }
    }

    /// Melds two trees: the one with the larger root becomes the first child
    /// of the other; on a tie `root1` stays on top.
    fn xmeld(root1: Box<Node<T>>, root2: Box<Node<T>>) -> (r: Box<Node<T>>)
        requires
            is_tree(root1),
            is_tree(root2),
        ensures
            is_tree(r),
            r == link(root1, root2) || r == link(root2, root1),
            T::obeys_partial_cmp_spec() ==> r == xmeld_spec(root1, root2),
            forest_ms(Some(r)) == forest_ms(Some(root1)).add(forest_ms(Some(root2))),
    {
        let ghost (r1, r2) = (root1, root2);
        let mut root1 = root1;
        let mut root2 = root2;
        proof {
            if obeys_cmp::<T>() {
                lemma_obeys_partial_cmp::<T>();
            }
        }
        if root1.value > root2.value {
            core::mem::swap(&mut root1, &mut root2);
        }
        proof {
            if obeys_cmp::<T>() {
                lemma_leq_total(root1.value, root2.value);
            }
        }
        let ghost a = root1;
        let ghost b = root2;
        root2.next_sibling = root1.first_child.take();
        root1.first_child = Some(root2);
        proof {
            let e = forest_ms::<T>(None);
            assert(e =~= Multiset::empty());
            assert(forest_ms(root1.first_child) =~= forest_ms(b.first_child).add(
                forest_ms(a.first_child),
            ).insert(b.value));
            assert(forest_ms(Some(root1)) =~= forest_ms(root1.first_child).insert(a.value));
            assert(forest_ms(Some(a)) =~= forest_ms(a.first_child).insert(a.value));
            assert(forest_ms(Some(b)) =~= forest_ms(b.first_child).insert(b.value));
            assert(forest_ms(Some(root1)) =~= forest_ms(Some(a)).add(forest_ms(Some(b))));
            assert(root1 == link(a, b));
        }
        root1
    }

    /// Melds a sibling list into one tree: first pairs neighbours left to
    /// right, then folds the pairs right to left.
    fn meld_siblings(heaps: Option<Box<Node<T>>>) -> (r: Option<Box<Node<T>>>)
        requires
            obeys_cmp::<T>() ==> trees_ordered(heaps),
        ensures
            r matches Some(n) ==> is_tree(n),
            forest_ms(r) == forest_ms(heaps),
            T::obeys_partial_cmp_spec() ==> r == fold_melds(pairs(heaps), None),
    {
        let mut it = heaps;
        let mut stack: Option<Box<Node<T>>> = None;
        assert(rev_chain(stack) + pairs(it) =~= pairs(heaps));
        assert(forest_ms::<T>(None) =~= Multiset::empty());
        assert(forest_ms(heaps) =~= forest_ms(it).add(forest_ms(stack)));
        loop
            invariant
                obeys_cmp::<T>() ==> trees_ordered(it) && trees_ordered(stack),
                forest_ms(heaps) == forest_ms(it).add(forest_ms(stack)),
                T::obeys_partial_cmp_spec() ==> pairs(heaps) == rev_chain(stack) + pairs(it),
            ensures
                it is None,
            decreases forest_ms(it).len(),
        {
            let mut heap1 = match it {
                None => break,
                Some(h) => h,
            };
            let ghost whole1 = heap1;
            assert(obeys_cmp::<T>() ==> trees_ordered(whole1.next_sibling));
            it = heap1.next_sibling.take();
            proof {
                lemma_detach(whole1, heap1);
            }
            let mut melt = match it {
                None => heap1,
                Some(mut heap2) => {
                    let ghost whole2 = heap2;
                    assert(obeys_cmp::<T>() ==> trees_ordered(whole2.next_sibling));
                    assert(is_tree(heap1));
                    it = heap2.next_sibling.take();
                    proof {
                        lemma_detach(whole2, heap2);
                    }
                    Self::xmeld(heap1, heap2)
                },
            };
            let ghost m = melt;
            let ghost old_stack = stack;
            melt.next_sibling = stack;
            proof {
                lemma_detach(melt, m);
            }
            stack = Some(melt);
            assert(forest_ms(heaps) =~= forest_ms(it).add(forest_ms(stack)));
            proof {
                if T::obeys_partial_cmp_spec() {
                    assert(detach(melt) == m);
                    assert(rev_chain(stack) == rev_chain(old_stack).push(m));
                    assert(pairs(Some(whole1)) == seq![m] + pairs(it));
                    assert(rev_chain(stack) + pairs(it) =~= rev_chain(old_stack) + pairs(Some(whole1)));
                }
            }
        }
        let mut ret: Option<Box<Node<T>>> = None;
        assert(forest_ms::<T>(None) =~= Multiset::empty());
        assert(rev_chain(stack) + pairs(it) =~= rev_chain(stack));
        assert(forest_ms(heaps) =~= forest_ms(stack).add(forest_ms(ret)));
        loop
            invariant
                obeys_cmp::<T>() ==> trees_ordered(stack),
                ret matches Some(n) ==> is_tree(n),
                forest_ms(heaps) == forest_ms(stack).add(forest_ms(ret)),
                T::obeys_partial_cmp_spec() ==> fold_melds(pairs(heaps), None) == fold_melds(
                    rev_chain(stack),
                    ret,
                ),
            ensures
                stack is None,
            decreases forest_ms(stack).len(),
        {
            let mut h = match stack {
                None => break,
                Some(h) => h,
            };
            let ghost whole = h;
            stack = h.next_sibling.take();
            proof {
                lemma_detach(whole, h);
                if T::obeys_partial_cmp_spec() {
                    assert(detach(whole) == h);
                    lemma_fold_last(rev_chain(stack), h, ret);
                }
            }
            ret = Self::meld(Some(h), ret);
            assert(forest_ms(heaps) =~= forest_ms(stack).add(forest_ms(ret)));
        }
        assert(forest_ms::<T>(None) =~= Multiset::empty());
        assert(forest_ms(heaps) =~= forest_ms(ret));
        ret
    }
}

} // verus!
