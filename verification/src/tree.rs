//! A binary search tree over any totally ordered element type, with
//! insertion and a lazy, restartable in-order traversal.
//!
//! The abstract model of a tree is its in-order sequence of values
//! (`BST::view`); well-formedness (`BST::wf`) says that every node's left
//! subtree holds only smaller values and its right subtree only larger ones,
//! which makes that sequence strictly ascending.

use core::cmp::Ordering;
use vstd::prelude::*;

use crate::order::{strictly_less, strictly_sorted, lemma_sorted_unique, TotalOrdered};

verus! {

broadcast use
    vstd::seq_lib::lemma_seq_concat_contains_all_elements,
    vstd::seq_lib::lemma_seq_contains_after_push,
    vstd::seq_lib::lemma_seq_empty_contains_nothing,
;

/// One node of the tree: a value, plus optional left and right subtrees.
/// Each child is exclusively owned by its parent.
pub struct TreeNode<K: TotalOrdered> {
    val: K,
    left: Option<Box<TreeNode<K>>>,
    right: Option<Box<TreeNode<K>>>,
}

/// An ordered container: owns zero or one root node.
pub struct BST<K: TotalOrdered> {
    root: Option<Box<TreeNode<K>>>,
}

impl<K: TotalOrdered> TreeNode<K> {
    /// In-order sequence of an optional subtree.
    spec fn opt_seq(node: Option<Box<TreeNode<K>>>) -> Seq<K>
        decreases node,
    {
        match node {
            None => Seq::empty(),
            Some(n) => n.in_order(),
        }
    }

    /// In-order sequence of the subtree rooted at this node:
    /// left subtree, then the node's own value, then the right subtree.
    pub closed spec fn in_order(self) -> Seq<K>
        decreases self,
    {
        Self::opt_seq(self.left) + seq![self.val] + Self::opt_seq(self.right)
    }

    /// The search-tree ordering invariant: everything on the left is
    /// strictly smaller, everything on the right strictly larger, and both
    /// subtrees are themselves well-formed.
    pub closed spec fn wf(self) -> bool
        decreases self,
    {
        &&& forall|x: K| #[trigger]
            Self::opt_seq(self.left).contains(x) ==> strictly_less(x, self.val)
        &&& forall|x: K| #[trigger]
            Self::opt_seq(self.right).contains(x) ==> strictly_less(self.val, x)
        &&& (match self.left {
            Some(l) => l.wf(),
            None => true,
        })
        &&& (match self.right {
            Some(r) => r.wf(),
            None => true,
        })
    }

    /// Well-formedness of an optional subtree.
    spec fn opt_wf(node: Option<Box<TreeNode<K>>>) -> bool {
        match node {
            Some(n) => n.wf(),
            None => true,
        }
    }

    /// A fresh leaf holding `val`.
    pub fn new(val: K) -> (r: Self)
        ensures
            r.wf(),
            r.in_order() == seq![val],
    {
        let r = TreeNode { val, left: None, right: None };
        proof {
            assert(r.in_order() =~= seq![r.val]);
        }
        r
    }

    /// Attach `val` at its unique position below `node`, or do nothing when
    /// `val` is already present.
    fn insert_into_optional(node: &mut Option<Box<TreeNode<K>>>, val: K)
        requires
            Self::opt_wf(*old(node)),
        ensures
            Self::opt_wf(*final(node)),
            Self::opt_seq(*final(node)).to_set() == Self::opt_seq(*old(node)).to_set().insert(val),
            Self::opt_seq(*old(node)).contains(val) ==> Self::opt_seq(*final(node))
                == Self::opt_seq(*old(node)),
            !Self::opt_seq(*old(node)).contains(val) ==> Self::opt_seq(*final(node)).len()
                == Self::opt_seq(*old(node)).len() + 1,
        decreases *old(node),
    {
        match node.take() {
            None => {
                *node = Some(Box::new(TreeNode::new(val)));
                proof {
                    assert(Self::opt_seq(*node) == seq![val]);
                    assert(!Self::opt_seq(*old(node)).contains(val));
                    assert(Self::opt_seq(*node).to_set()
                        =~= Self::opt_seq(*old(node)).to_set().insert(val));
                }
            },
            Some(mut boxed) => {
                let ghost pre = *boxed;
                match val.compare(&boxed.val) {
                    Ordering::Equal => {
                        proof {
                            assert(pre.in_order()[Self::opt_seq(pre.left).len() as int] == val);
                            assert(pre.in_order().contains(val));
                            assert(pre.in_order().to_set() =~= pre.in_order().to_set().insert(
                                val,
                            ));
                        }
                        *node = Some(boxed);
                    },
                    Ordering::Less => {
                        Self::insert_into_optional(&mut boxed.left, val);
                        proof {
                            lemma_insert_rebuild(pre, *boxed, val, true);
                        }
                        *node = Some(boxed);
                    },
                    Ordering::Greater => {
                        Self::insert_into_optional(&mut boxed.right, val);
                        proof {
                            lemma_insert_rebuild(pre, *boxed, val, false);
                        }
                        *node = Some(boxed);
                    },
                }
            },
        }
    }
}

/// After inserting `val` into one child of `pre` (the left child when
/// `went_left`, the right one otherwise), the rebuilt node `post` is still
/// well-formed, its in-order sequence holds exactly the old values plus
/// `val`, nothing changed if `val` was already there, and otherwise the
/// sequence grew by one.
proof fn lemma_insert_rebuild<K: TotalOrdered>(
    pre: TreeNode<K>,
    post: TreeNode<K>,
    val: K,
    went_left: bool,
)
    requires
        pre.wf(),
        post.val == pre.val,
        went_left ==> strictly_less(val, pre.val) && post.right == pre.right
            && TreeNode::<K>::opt_wf(post.left),
        went_left ==> TreeNode::<K>::opt_seq(post.left).to_set() == TreeNode::<K>::opt_seq(
            pre.left,
        ).to_set().insert(val),
        went_left && TreeNode::<K>::opt_seq(pre.left).contains(val) ==> TreeNode::<K>::opt_seq(
            post.left,
        ) == TreeNode::<K>::opt_seq(pre.left),
        went_left && !TreeNode::<K>::opt_seq(pre.left).contains(val) ==> TreeNode::<K>::opt_seq(
            post.left,
        ).len() == TreeNode::<K>::opt_seq(pre.left).len() + 1,
        !went_left ==> strictly_less(pre.val, val) && post.left == pre.left
            && TreeNode::<K>::opt_wf(post.right),
        !went_left ==> TreeNode::<K>::opt_seq(post.right).to_set() == TreeNode::<K>::opt_seq(
            pre.right,
        ).to_set().insert(val),
        !went_left && TreeNode::<K>::opt_seq(pre.right).contains(val) ==> TreeNode::<K>::opt_seq(
            post.right,
        ) == TreeNode::<K>::opt_seq(pre.right),
        !went_left && !TreeNode::<K>::opt_seq(pre.right).contains(val) ==> TreeNode::<K>::opt_seq(
            post.right,
        ).len() == TreeNode::<K>::opt_seq(pre.right).len() + 1,
    ensures
        post.wf(),
        post.in_order().to_set() == pre.in_order().to_set().insert(val),
        pre.in_order().contains(val) ==> post.in_order() == pre.in_order(),
        !pre.in_order().contains(val) ==> post.in_order().len() == pre.in_order().len() + 1,
{
    let pl = TreeNode::<K>::opt_seq(pre.left);
    let pr = TreeNode::<K>::opt_seq(pre.right);
    let nl = TreeNode::<K>::opt_seq(post.left);
    let nr = TreeNode::<K>::opt_seq(post.right);
    if went_left {
        if pr.contains(val) {
            TotalOrdered::antisymmetric(val, pre.val);
            assert(false);
        }
        assert forall|x: K| #[trigger] nl.contains(x) implies strictly_less(x, post.val) by {
            assert(nl.to_set().contains(x));
        }
        assert(post.wf());
        if pre.in_order().contains(val) {
            assert(pl.contains(val));
            assert(post.in_order() == pre.in_order());
        }
    } else {
        if pl.contains(val) {
            TotalOrdered::antisymmetric(val, pre.val);
            assert(false);
        }
        assert forall|x: K| #[trigger] nr.contains(x) implies strictly_less(post.val, x) by {
            assert(nr.to_set().contains(x));
        }
        assert(post.wf());
        if pre.in_order().contains(val) {
            assert(pr.contains(val));
            assert(post.in_order() == pre.in_order());
        }
    }
    assert forall|x: K|
        post.in_order().contains(x) <==> (pre.in_order().contains(x) || x == val) by {
        assert(nl.to_set().contains(x) <==> nl.contains(x));
        assert(pl.to_set().contains(x) <==> pl.contains(x));
        assert(nr.to_set().contains(x) <==> nr.contains(x));
        assert(pr.to_set().contains(x) <==> pr.contains(x));
    }
    assert(post.in_order().to_set() =~= pre.in_order().to_set().insert(val));
}

impl<K: TotalOrdered> View for BST<K> {
    type V = Seq<K>;

    /// A tree is abstractly the in-order sequence of its values.
    closed spec fn view(&self) -> Seq<K> {
        TreeNode::<K>::opt_seq(self.root)
    }
}

impl<K: TotalOrdered> BST<K> {
    /// The tree's ordering invariant, established by `new` and preserved by
    /// `insert`.
    pub closed spec fn wf(self) -> bool {
        TreeNode::<K>::opt_wf(self.root)
    }

    /// An empty container.
    pub fn new() -> (r: Self)
        ensures
            r.wf(),
            r@ == Seq::<K>::empty(),
    {
        BST { root: None }
    }

    /// Add `val` to the container. When `val` is already present the call
    /// changes nothing (duplicates are silently ignored); otherwise exactly
    /// `val` joins the stored values.
    pub fn insert(&mut self, val: K)
        requires
            old(self).wf(),
        ensures
            final(self).wf(),
            final(self)@.to_set() == old(self)@.to_set().insert(val),
            old(self)@.contains(val) ==> final(self)@ == old(self)@,
            !old(self)@.contains(val) ==> final(self)@.len() == old(self)@.len() + 1,
    {
        TreeNode::insert_into_optional(&mut self.root, val);
    }

    /// A cursor over the whole container, positioned on its smallest value.
    /// Safe on an empty container: the cursor is then already exhausted.
    /// The tree is only borrowed; several cursors may run over it at once.
    pub fn iter<'a>(&'a self) -> (r: Zipper<'a, K>)
        ensures
            r.wf(),
            r@ == self@,
    {
        let node: Option<&'a TreeNode<K>> = match &self.root {
            None => None,
            Some(b) => Some(&**b),
        };
        let mut z = Zipper { stack: Vec::new(), node: node };
        proof {
            assert(z.pending() =~= self@);
        }
        z.push_left();
        z
    }
}

/// A lazy, forward-only in-order traversal of a `BST`. It borrows the tree,
/// never mutates it, and yields every stored value exactly once, smallest
/// first. Its model (`view`) is the sequence of values still to come.
pub struct Zipper<'a, K: TotalOrdered> {
    /// Ancestors of `node` whose own value and right subtree have not been
    /// yielded yet, nearest ancestor last.
    stack: Vec<&'a TreeNode<K>>,
    /// The node about to be yielded, or `None` once exhausted.
    node: Option<&'a TreeNode<K>>,
}

impl<'a, K: TotalOrdered> Zipper<'a, K> {
    /// The values still owed by the ancestors on `s`, top of the stack
    /// first: each ancestor's own value, then its right subtree.
    spec fn stack_seq(s: Seq<&'a TreeNode<K>>) -> Seq<K>
        decreases s.len(),
    {
        if s.len() == 0 {
            Seq::empty()
        } else {
            seq![s.last().val] + TreeNode::<K>::opt_seq(s.last().right) + Self::stack_seq(
                s.drop_last(),
            )
        }
    }

    /// Internal invariant: once `node` is gone the stack is empty too, so
    /// an exhausted traversal stays exhausted.
    pub closed spec fn wf(self) -> bool {
        self.node is None ==> self.stack@.len() == 0
    }

    /// What the cursor still has to yield when the whole subtree under
    /// `node` is unvisited (the state just before a left descent).
    spec fn pending(self) -> Seq<K> {
        match self.node {
            None => Self::stack_seq(self.stack@),
            Some(n) => n.in_order() + Self::stack_seq(self.stack@),
        }
    }

    /// Descend from `node` along left children, pushing every node passed,
    /// so that `node` ends on the smallest value of its subtree.
    fn push_left(&mut self)
        ensures
            final(self)@ == old(self).pending(),
            final(self).node is Some <==> old(self).node is Some,
            old(self).node is None ==> final(self).stack@ == old(self).stack@,
    {
        if self.node.is_none() {
            return;
        }
        while self.node.unwrap().left.is_some()
            invariant
                self.node is Some,
                self.pending() == old(self).pending(),
            decreases self.node.unwrap().in_order().len(),
        {
            let n = self.node.unwrap();
            let ghost s0 = self.stack@;
            self.stack.push(n);
            if let Some(l) = &n.left {
                self.node = Some(&**l);
            }
            proof {
                let s1 = self.stack@;
                assert(s1.drop_last() =~= s0);
                assert(s1.last() == n);
                assert(Self::stack_seq(s1) == seq![n.val] + TreeNode::<K>::opt_seq(n.right)
                    + Self::stack_seq(s0));
                assert(self.pending() =~= n.in_order() + Self::stack_seq(s0));
            }
        }
        proof {
            assert(self@ =~= self.pending());
        }
    }

    /// Yield the smallest value not yielded so far, or `None` once the
    /// traversal is exhausted. After exhaustion every further call keeps
    /// returning `None` and changes nothing.
    pub fn next(&mut self) -> (r: Option<&'a K>)
        requires
            old(self).wf(),
        ensures
            final(self).wf(),
            old(self)@.len() == 0 ==> r is None && final(self)@ == old(self)@,
            old(self)@.len() > 0 ==> (r matches Some(v) && *v == old(self)@[0]) && final(self)@
                == old(self)@.drop_first(),
    {
        match self.node {
            None => None,
            Some(n) => {
                let ret = &n.val;
                if n.right.is_some() {
                    if let Some(rc) = &n.right {
                        self.node = Some(&**rc);
                    }
                    proof {
                        assert(self.pending() =~= old(self)@.drop_first());
                    }
                    self.push_left();
                } else {
                    let ghost s0 = self.stack@;
                    self.node = self.stack.pop();
                    proof {
                        if s0.len() > 0 {
                            assert(self.stack@ =~= s0.drop_last());
                            assert(self@ == Self::stack_seq(s0));
                        }
                        assert(self@ =~= old(self)@.drop_first());
                    }
                }
                Some(ret)
            },
        }
    }
}

impl<'a, K: TotalOrdered> View for Zipper<'a, K> {
    type V = Seq<K>;

    /// The values not yet yielded, in the order they will come.
    closed spec fn view(&self) -> Seq<K> {
        match self.node {
            None => Self::stack_seq(self.stack@),
            Some(n) => seq![n.val] + TreeNode::<K>::opt_seq(n.right) + Self::stack_seq(
                self.stack@,
            ),
        }
    }
}

/// A well-formed subtree's in-order sequence is strictly ascending.
proof fn lemma_node_sorted<K: TotalOrdered>(n: TreeNode<K>)
    requires
        n.wf(),
    ensures
        strictly_sorted(n.in_order()),
    decreases n,
{
    let l = TreeNode::<K>::opt_seq(n.left);
    let r = TreeNode::<K>::opt_seq(n.right);
    match n.left {
        Some(lb) => lemma_node_sorted(*lb),
        None => {},
    }
    match n.right {
        Some(rb) => lemma_node_sorted(*rb),
        None => {},
    }
    let s = n.in_order();
    assert forall|i: int, j: int| 0 <= i < j < s.len() implies strictly_less(s[i], s[j]) by {
        if i < l.len() {
            assert(l.contains(l[i]));
        }
        if j < l.len() {
            assert(l.contains(l[j]));
        }
        if i > l.len() {
            assert(r.contains(r[i - l.len() - 1]));
        }
        if j > l.len() {
            assert(r.contains(r[j - l.len() - 1]));
        }
        if i < l.len() && j > l.len() {
            TotalOrdered::transitive(s[i], n.val, s[j]);
            if s[i] == s[j] {
                TotalOrdered::antisymmetric(s[i], n.val);
                assert(false);
            }
        }
    }
}

/// Ordering law: a well-formed container is traversed in strictly
/// ascending order, so every value it holds is yielded exactly once.
pub proof fn lemma_view_sorted<K: TotalOrdered>(t: BST<K>)
    requires
        t.wf(),
    ensures
        strictly_sorted(t@),
{
    match t.root {
        Some(n) => lemma_node_sorted(*n),
        None => {},
    }
}

/// Order-independence law, on containers: two well-formed containers that
/// hold the same set of values are traversed identically, whatever the
/// insertion orders that built them.
pub proof fn lemma_same_values_same_traversal<K: TotalOrdered>(t1: BST<K>, t2: BST<K>)
    requires
        t1.wf(),
        t2.wf(),
        t1@.to_set() == t2@.to_set(),
    ensures
        t1@ == t2@,
{
    lemma_view_sorted(t1);
    lemma_view_sorted(t2);
    lemma_sorted_unique(t1@, t2@);
}

impl<K: TotalOrdered> Default for BST<K> {
    /// Same as `BST::new`: an empty container.
    fn default() -> (r: Self)
        ensures
            r.wf(),
            r@ == Seq::<K>::empty(),
    {
        BST::new()
    }
}


} // verus!
