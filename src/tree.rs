//! The tree itself: construction, queries, traversals, insertion and removal.
use core::cmp::Ordering;
use vstd::prelude::*;
use vstd::std_specs::cmp::PartialOrdSpec;
use vstd::std_specs::iter::IteratorSpec;

use crate::balance::{bit_len, lemma_bit_len_monotone};
use crate::order::{
    all_comparable, comparable, comparable_with_all, is_sorted_permutation, lawful_order, le,
    lemma_comparable_symmetric, lemma_comparable_with_join, lemma_join_grow_left,
    lemma_join_grow_right, lemma_join_multiset, lemma_le_trans, lemma_lt_le_trans,
    lemma_members_after_remove, lemma_sorted_join, lemma_sorted_subrange, lt, sorted,
};
use crate::sort::sort_checked;

verus! {

/// Why an operation was refused.
#[derive(Debug, Clone, Copy, PartialEq, Eq, Structural)]
pub enum TreeError {
    /// A tree cannot be built from no values.
    EmptyInput,
    /// Two values that the tree would have to order are incomparable.
    Incomparable,
}

/// A node of a binary search tree, and at the same time the tree rooted at it.
/// Each node owns its two optional subtrees.
#[derive(Debug)]
pub struct BinarySearchTree<T> {
    val: T,
    left: Option<Box<BinarySearchTree<T>>>,
    right: Option<Box<BinarySearchTree<T>>>,
}

impl<T> BinarySearchTree<T> {
    /// The values in ascending (in-order) position: left subtree, root, right subtree.
    pub closed spec fn inorder_spec(self) -> Seq<T>
        decreases self,
    {
        (match self.left {
            Some(l) => l.inorder_spec(),
            None => Seq::empty(),
        }) + seq![self.val] + (match self.right {
            Some(r) => r.inorder_spec(),
            None => Seq::empty(),
        })
    }

    /// The values in pre-order: root, left subtree, right subtree.
    pub closed spec fn preorder_spec(self) -> Seq<T>
        decreases self,
    {
        seq![self.val] + (match self.left {
            Some(l) => l.preorder_spec(),
            None => Seq::empty(),
        }) + (match self.right {
            Some(r) => r.preorder_spec(),
            None => Seq::empty(),
        })
    }

    /// The number of nodes on the longest path from the root down.
    pub closed spec fn height_spec(self) -> nat
        decreases self,
    {
        let hl = match self.left {
            Some(l) => l.height_spec(),
            None => 0,
        };
        let hr = match self.right {
            Some(r) => r.height_spec(),
            None => 0,
        };
        1 + if hl >= hr {
            hl
        } else {
            hr
        }
    }

    /// The balanced tree of the values of `s` in their order: the middle one
    /// (the lower one of two) at the root, those before it in the left
    /// subtree and those after it in the right one, each built the same way.
    pub closed spec fn balanced(s: Seq<T>) -> Option<Box<Self>>
        decreases s.len(),
    {
        if s.len() == 0 {
            None
        } else {
            let m = (s.len() - 1) / 2;
            Some(
                Box::new(
                    BinarySearchTree {
                        val: s[m],
                        left: Self::balanced(s.subrange(0, m)),
                        right: Self::balanced(s.subrange(m + 1, s.len() as int)),
                    },
                ),
            )
        }
    }

    /// One step of `balanced` on a range of `data`, with the middle at `mid`.
    proof fn lemma_balanced_unfold(data: Seq<T>, start: int, mid: int, end: int)
        requires
            0 <= start <= end < data.len(),
            mid == start + (end - start) / 2,
        ensures
            Self::balanced(data.subrange(start, end + 1)) == Some(
                Box::new(
                    BinarySearchTree {
                        val: data[mid],
                        left: if start <= mid - 1 {
                            Self::balanced(data.subrange(start, mid))
                        } else {
                            None
                        },
                        right: if mid + 1 <= end {
                            Self::balanced(data.subrange(mid + 1, end + 1))
                        } else {
                            None
                        },
                    },
                ),
            ),
    {
        let s = data.subrange(start, end + 1);
        assert((s.len() - 1) / 2 == mid - start);
        assert(s[mid - start] == data[mid]);
        assert(s.subrange(0, mid - start) =~= data.subrange(start, mid));
        assert(s.subrange(mid - start + 1, s.len() as int) =~= data.subrange(mid + 1, end + 1));
        assert(Self::balanced(Seq::<T>::empty()) is None);
        if start > mid - 1 {
            assert(data.subrange(start, mid) =~= Seq::<T>::empty());
        }
        if mid + 1 > end {
            assert(data.subrange(mid + 1, end + 1) =~= Seq::<T>::empty());
        }
    }

    /// The value held at the root.
    pub closed spec fn root(self) -> T {
        self.val
    }

    /// The in-order values of an optional subtree; empty where there is none.
    pub open spec fn opt_view(node: Option<Box<Self>>) -> Seq<T> {
        match node {
            Some(n) => n@,
            None => Seq::empty(),
        }
    }
}

impl<T> View for BinarySearchTree<T> {
    type V = Seq<T>;

    closed spec fn view(&self) -> Seq<T> {
        self.inorder_spec()
    }
}

impl<T: PartialOrd + Copy> BinarySearchTree<T> {
    /// The tree's values are in ascending order, and there are no more of
    /// them than memory can address.
    pub open spec fn wf(&self) -> bool {
        sorted(self@) && self@.len() <= usize::MAX
    }

    /// The tree with `v` added at the place where a search for it ends: left
    /// of a node above `v`, right of any other.
    pub closed spec fn inserted(self, v: T) -> Self
        decreases self,
    {
        let leaf = BinarySearchTree { val: v, left: None, right: None };
        if lt(v, self.val) {
            BinarySearchTree {
                left: Some(
                    Box::new(
                        match self.left {
                            Some(l) => l.inserted(v),
                            None => leaf,
                        },
                    ),
                ),
                ..self
            }
        } else {
            BinarySearchTree {
                right: Some(
                    Box::new(
                        match self.right {
                            Some(r) => r.inserted(v),
                            None => leaf,
                        },
                    ),
                ),
                ..self
            }
        }
    }

    /// An optional subtree is well formed where it is present.
    pub open spec fn opt_wf(node: Option<Box<Self>>) -> bool {
        match node {
            Some(n) => n.wf(),
            None => true,
        }
    }

    /// A sorted tree is its left part, its root and its right part, each
    /// part sorted, the left one below or equal to the root and the right
    /// one above or equal to it.
    proof fn lemma_split(&self)
        requires
            lawful_order::<T>(),
            sorted(self@),
        ensures
            self@ == Self::opt_view(self.left) + seq![self.val] + Self::opt_view(self.right),
            sorted(Self::opt_view(self.left)),
            sorted(Self::opt_view(self.right)),
            Self::opt_view(self.left).len() < self@.len(),
            Self::opt_view(self.right).len() < self@.len(),
            forall|i: int|
                0 <= i < Self::opt_view(self.left).len() ==> le(
                    #[trigger] Self::opt_view(self.left)[i],
                    self.val,
                ),
            forall|j: int|
                0 <= j < Self::opt_view(self.right).len() ==> le(
                    self.val,
                    #[trigger] Self::opt_view(self.right)[j],
                ),
            forall|v: T|
                #[trigger] self@.contains(v) <==> (Self::opt_view(self.left).contains(v) || v
                    == self.val || Self::opt_view(self.right).contains(v)),
    {
        let ghost l = Self::opt_view(self.left);
        let r = Self::opt_view(self.right);
        let s = self@;
        let n = l.len() as int;
        assert(s == l + seq![self.val] + r);
        assert(l == s.subrange(0, n));
        assert(r == s.subrange(n + 1, s.len() as int));
        lemma_sorted_subrange(s, 0, n);
        lemma_sorted_subrange(s, n + 1, s.len() as int);
        assert forall|i: int| 0 <= i < l.len() implies le(#[trigger] l[i], self.val) by {
            assert(s[i] == l[i] && s[n] == self.val);
        }
        assert forall|j: int| 0 <= j < r.len() implies le(self.val, #[trigger] r[j]) by {
            assert(s[n + 1 + j] == r[j] && s[n] == self.val);
        }
        assert forall|v: T|
            #[trigger] s.contains(v) <==> (l.contains(v) || v == self.val || r.contains(v)) by {
            if s.contains(v) {
                let k = choose|k: int| 0 <= k < s.len() && s[k] == v;
                if k < n {
                    assert(l[k] == v);
                } else if k > n {
                    assert(r[k - n - 1] == v);
                }
            }
            if l.contains(v) {
                let k = choose|k: int| 0 <= k < l.len() && l[k] == v;
                assert(s[k] == v);
            }
            if v == self.val {
                assert(s[n] == v);
            }
            if r.contains(v) {
                let k = choose|k: int| 0 <= k < r.len() && r[k] == v;
                assert(s[n + 1 + k] == v);
            }
        }
    }

    /// A tree of the one value `v`, without subtrees.
    pub fn new(v: T) -> (r: BinarySearchTree<T>)
        requires
            lawful_order::<T>(),
        ensures
            r.wf(),
            r@ == seq![v],
            r.root() == v,
            r.height_spec() == 1,
            r.preorder_spec() == seq![v],
    {
        let r = BinarySearchTree { val: v, left: None, right: None };
        assert(r@ == seq![v]);
        assert(r.preorder_spec() == seq![v]);
        assert(v.partial_cmp_spec(&v) == Some(Ordering::Equal));
        r
    }

    /// The value held at the root.
    pub fn value(&self) -> (r: T)
        ensures
            r == self.root(),
    {
        self.val
    }

    proof fn lemma_height_le_len(&self)
        ensures
            self.height_spec() <= self@.len(),
        decreases self,
    {
        match &self.left {
            Some(l) => l.lemma_height_le_len(),
            None => {},
        }
        match &self.right {
            Some(r) => r.lemma_height_le_len(),
            None => {},
        }
    }

    /// The number of nodes on the longest path from the root down; a single
    /// node has height one.
    pub fn height(&self) -> (r: usize)
        requires
            self@.len() <= usize::MAX,
        ensures
            r == self.height_spec(),
        decreases self,
    {
        proof {
            self.lemma_height_le_len();
        }
        assert(self@ == Self::opt_view(self.left) + seq![self.val] + Self::opt_view(self.right));
        let hl: usize = match &self.left {
            None => 0,
            Some(node) => node.height(),
        };
        let hr: usize = match &self.right {
            None => 0,
            Some(node) => node.height(),
        };
        if hl >= hr {
            hl + 1
        } else {
            hr + 1
        }
    }

    /// The subtree whose root holds `value`, if the tree holds it. The search
    /// goes right where `value` is greater than a node and left where it is
    /// less; a value that is incomparable with a node is not in the tree.
    pub fn find(&self, value: &T) -> (r: Option<Box<&BinarySearchTree<T>>>)
        requires
            lawful_order::<T>(),
            self.wf(),
        ensures
            r is Some <==> self@.contains(*value),
            r matches Some(n) ==> n.root() == *value && n.wf(),
        decreases self,
    {
        proof {
            self.lemma_split();
        }
        let ghost l = Self::opt_view(self.left);
        let ghost rt = Self::opt_view(self.right);
        match value.partial_cmp(&self.val) {
            Some(Ordering::Greater) => {
                assert(*value != self.val);
                assert(!l.contains(*value));
                match &self.right {
                    None => None,
                    Some(n) => n.find(value),
                }
            },
            Some(Ordering::Less) => {
                assert(*value != self.val);
                assert(!rt.contains(*value)) by {
                    if rt.contains(*value) {
                        let j = choose|j: int| 0 <= j < rt.len() && rt[j] == *value;
                        assert(le(self.val, rt[j]));
                    }
                }
                match &self.left {
                    None => None,
                    Some(n) => n.find(value),
                }
            },
            Some(Ordering::Equal) => Some(Box::new(self)),
            None => {
                assert(*value != self.val);
                assert(!l.contains(*value));
                assert(!rt.contains(*value)) by {
                    if rt.contains(*value) {
                        let j = choose|j: int| 0 <= j < rt.len() && rt[j] == *value;
                        assert(le(self.val, rt[j]));
                    }
                }
                None
            },
        }
    }

    /// Whether the tree holds `val`.
    pub fn contains(&self, val: T) -> (r: bool)
        requires
            lawful_order::<T>(),
            self.wf(),
        ensures
            r == self@.contains(val),
    {
        self.find(&val).is_some()
    }

    /// The smallest value: the one at the leftmost node.
    pub fn find_min(&self) -> (r: T)
        ensures
            r == self@[0],
        decreases self,
    {
        match &self.left {
            None => self.val,
            Some(n) => n.find_min(),
        }
    }

    /// The largest value: the one at the rightmost node.
    pub fn find_max(&self) -> (r: T)
        ensures
            r == self@.last(),
        decreases self,
    {
        match &self.right {
            None => self.val,
            Some(n) => n.find_max(),
        }
    }

    /// Adds `val`, going left at a node whose value is greater than `val`
    /// and right otherwise, so an equal value goes right. Fails, leaving the
    /// tree as it was, where `val` is incomparable with a value in the tree.
    pub fn insert(&mut self, val: T) -> (r: Result<(), TreeError>)
        requires
            lawful_order::<T>(),
            old(self).wf(),
            old(self)@.len() < usize::MAX,
        ensures
            final(self).wf(),
            r is Ok <==> comparable_with_all(old(self)@, val),
            r is Ok ==> final(self)@.to_multiset() == old(self)@.to_multiset().insert(val),
            r is Ok ==> *final(self) == old(self).inserted(val),
            r is Err ==> r == Err::<(), TreeError>(TreeError::Incomparable) && *final(self)
                == *old(self),
            final(self).root() == old(self).root(),
        decreases *old(self),
    {
        proof {
            self.lemma_split();
            lemma_comparable_with_join(
                Self::opt_view(self.left),
                self.val,
                Self::opt_view(self.right),
                val,
            );
        }
        let ghost l = Self::opt_view(self.left);
        let ghost rt = Self::opt_view(self.right);
        let ghost p = self.val;
        match val.partial_cmp(&self.val) {
            None => Err(TreeError::Incomparable),
            Some(Ordering::Less) => {
                assert forall|j: int| 0 <= j < rt.len() implies comparable(
                    val,
                    #[trigger] rt[j],
                ) by {
                    lemma_lt_le_trans(val, p, rt[j]);
                }
                let res = match self.left.take() {
                    None => {
                        self.left = Some(Box::new(BinarySearchTree { val, left: None, right: None }));
                        Ok(())
                    },
                    Some(mut node) => {
                        let res = (&mut *node).insert(val);
                        self.left = Some(node);
                        res
                    },
                };
                proof {
                    let l2 = Self::opt_view(self.left);
                    assert(self@ == l2 + seq![p] + rt);
                    if res is Ok {
                        if l.len() == 0 {
                            assert(l2 == l.push(val));
                            vstd::seq_lib::to_multiset_build(l, val);
                        }
                        lemma_join_grow_left(l, l2, p, rt, val);
                    } else {
                        assert(self@ == old(self)@);
                    }
                }
                res
            },
            Some(_) => {
                assert(le(p, val));
                assert forall|i: int| 0 <= i < l.len() implies comparable(
                    val,
                    #[trigger] l[i],
                ) by {
                    lemma_le_trans(l[i], p, val);
                    lemma_comparable_symmetric(l[i], val);
                }
                let res = match self.right.take() {
                    None => {
                        self.right = Some(Box::new(BinarySearchTree { val, left: None, right: None }));
                        Ok(())
                    },
                    Some(mut node) => {
                        let res = (&mut *node).insert(val);
                        self.right = Some(node);
                        res
                    },
                };
                proof {
                    let r2 = Self::opt_view(self.right);
                    assert(self@ == l + seq![p] + r2);
                    if res is Ok {
                        if rt.len() == 0 {
                            assert(r2 == rt.push(val));
                            vstd::seq_lib::to_multiset_build(rt, val);
                        }
                        lemma_join_grow_right(l, p, rt, r2, val);
                    } else {
                        assert(self@ == old(self)@);
                    }
                }
                res
            },
        }
    }

    /// A value that `insert` has added is found by `contains` afterwards:
    /// the in-order values after a successful insert hold it.
    pub proof fn lemma_insert_then_contains(before: &Self, after: &Self, v: T)
        requires
            after@.to_multiset() == before@.to_multiset().insert(v),
        ensures
            after@.contains(v),
    {
        broadcast use vstd::seq_lib::group_to_multiset_ensures;

        assert(after@.to_multiset().count(v) > 0);
    }

    /// Takes the leftmost node out of a non-empty subtree, puts that node's
    /// right subtree in its place, and returns its value: the smallest one.
    fn remove_min(node: &mut Option<Box<BinarySearchTree<T>>>) -> (r: T)
        requires
            lawful_order::<T>(),
            old(node).is_some(),
            Self::opt_wf(*old(node)),
        ensures
            Self::opt_view(*old(node)) == seq![r] + Self::opt_view(*final(node)),
            Self::opt_wf(*final(node)),
        decreases *old(node),
    {
        let mut n = node.take().unwrap();
        proof {
            n.lemma_split();
        }
        let ghost l = Self::opt_view(n.left);
        let ghost rt = Self::opt_view(n.right);
        if n.left.is_none() {
            let b = *n;
            *node = b.right;
            proof {
                assert(b@ == seq![b.val] + rt);
            }
            b.val
        } else {
            let m = Self::remove_min(&mut n.left);
            *node = Some(n);
            proof {
                let l2 = Self::opt_view(n.left);
                assert(l2 == l.subrange(1, l.len() as int));
                assert(n@ == l2 + seq![n.val] + rt);
                assert(n@ == old(node).unwrap()@.subrange(1, old(node).unwrap()@.len() as int));
                lemma_sorted_subrange(old(node).unwrap()@, 1, old(node).unwrap()@.len() as int);
            }
            m
        }
    }

    /// Removes one occurrence of `value` from the tree in `node`, keeping
    /// the rest in order. A node with no subtree leaves its slot empty; a node
    /// with one subtree is replaced by it; a node with two takes the value of
    /// its in-order successor, which then leaves the right subtree. Where the
    /// tree does not hold `value`, nothing changes.
    pub fn remove(node: &mut Option<Box<BinarySearchTree<T>>>, value: &T)
        requires
            lawful_order::<T>(),
            Self::opt_wf(*old(node)),
        ensures
            Self::opt_wf(*final(node)),
            Self::opt_view(*old(node)).contains(*value) ==> Self::opt_view(*final(node)).to_multiset()
                == Self::opt_view(*old(node)).to_multiset().remove(*value),
            Self::opt_view(*old(node)).contains(*value) ==> Self::opt_view(*final(node)).len()
                == Self::opt_view(*old(node)).len() - 1,
            !Self::opt_view(*old(node)).contains(*value) ==> *final(node) == *old(node),
        decreases *old(node),
    {
        Self::remove_one(node, value);
        proof {
            broadcast use vstd::seq_lib::group_to_multiset_ensures;

            assert(Self::opt_view(*node).len() == Self::opt_view(*node).to_multiset().len());
            assert(Self::opt_view(*old(node)).len() == Self::opt_view(
                *old(node),
            ).to_multiset().len());
        }
    }

    fn remove_one(node: &mut Option<Box<BinarySearchTree<T>>>, value: &T)
        requires
            lawful_order::<T>(),
            Self::opt_wf(*old(node)),
        ensures
            Self::opt_wf(*final(node)),
            Self::opt_view(*old(node)).contains(*value) ==> Self::opt_view(*final(node)).to_multiset()
                == Self::opt_view(*old(node)).to_multiset().remove(*value),
            !Self::opt_view(*old(node)).contains(*value) ==> *final(node) == *old(node),
        decreases *old(node),
    {
        match node.take() {
            None => {},
            Some(mut n) => {
                proof {
                    broadcast use vstd::seq_lib::group_to_multiset_ensures;

                    n.lemma_split();
                    lemma_join_multiset(Self::opt_view(n.left), n.val, Self::opt_view(n.right));
                }
                let ghost l = Self::opt_view(n.left);
                let ghost rt = Self::opt_view(n.right);
                let ghost p = n.val;
                let ghost v = *value;
                match value.partial_cmp(&n.val) {
                    Some(Ordering::Greater) => {
                        assert(!l.contains(v) && v != p);
                        Self::remove_one(&mut n.right, value);
                        proof {
                            broadcast use vstd::seq_lib::group_to_multiset_ensures;

                            let r2 = Self::opt_view(n.right);
                            assert(n@ == l + seq![p] + r2);
                            if rt.contains(v) {
                                lemma_members_after_remove(rt, r2, v);
                                assert forall|j: int| 0 <= j < r2.len() implies le(
                                    p,
                                    #[trigger] r2[j],
                                ) by {
                                    let k = choose|k: int| 0 <= k < rt.len() && rt[k] == r2[j];
                                }
                                lemma_sorted_join(l, p, r2);
                                lemma_join_multiset(l, p, r2);
                                assert(n@.to_multiset() =~= old(node).unwrap()@.to_multiset().remove(v));
                                assert(n@.len() == n@.to_multiset().len());
                            }
                        }
                        *node = Some(n);
                    },
                    Some(Ordering::Less) => {
                        assert(!rt.contains(v) && v != p) by {
                            if rt.contains(v) {
                                let j = choose|j: int| 0 <= j < rt.len() && rt[j] == v;
                                assert(le(p, rt[j]));
                            }
                        }
                        Self::remove_one(&mut n.left, value);
                        proof {
                            broadcast use vstd::seq_lib::group_to_multiset_ensures;

                            let l2 = Self::opt_view(n.left);
                            assert(n@ == l2 + seq![p] + rt);
                            if l.contains(v) {
                                lemma_members_after_remove(l, l2, v);
                                assert forall|i: int| 0 <= i < l2.len() implies le(
                                    #[trigger] l2[i],
                                    p,
                                ) by {
                                    let k = choose|k: int| 0 <= k < l.len() && l[k] == l2[i];
                                }
                                lemma_sorted_join(l2, p, rt);
                                lemma_join_multiset(l2, p, rt);
                                assert(n@.to_multiset() =~= old(node).unwrap()@.to_multiset().remove(v));
                                assert(n@.len() == n@.to_multiset().len());
                            }
                        }
                        *node = Some(n);
                    },
                    None => {
                        assert(!rt.contains(v) && !l.contains(v) && v != p) by {
                            if rt.contains(v) {
                                let j = choose|j: int| 0 <= j < rt.len() && rt[j] == v;
                                assert(le(p, rt[j]));
                            }
                        }
                        *node = Some(n);
                    },
                    Some(Ordering::Equal) => {
                        if n.left.is_none() {
                            let b = *n;
                            *node = b.right;
                            proof {
                                assert(b@ == seq![p] + rt);
                                assert(rt.to_multiset() =~= b@.to_multiset().remove(v));
                            }
                        } else if n.right.is_none() {
                            let b = *n;
                            *node = b.left;
                            proof {
                                assert(b@ == l + seq![p]);
                                assert(l.to_multiset() =~= b@.to_multiset().remove(v));
                            }
                        } else {
                            let m = Self::remove_min(&mut n.right);
                            n.val = m;
                            proof {
                                broadcast use vstd::seq_lib::group_to_multiset_ensures;

                                let r2 = Self::opt_view(n.right);
                                assert(rt == seq![m] + r2);
                                assert(le(p, rt[0]));
                                assert forall|i: int| 0 <= i < l.len() implies le(
                                    #[trigger] l[i],
                                    m,
                                ) by {
                                    lemma_le_trans(l[i], p, m);
                                }
                                assert forall|j: int| 0 <= j < r2.len() implies le(
                                    m,
                                    #[trigger] r2[j],
                                ) by {
                                    assert(rt[0] == m && rt[j + 1] == r2[j]);
                                }
                                assert(n@ == l + seq![m] + r2);
                                lemma_sorted_join(l, m, r2);
                                lemma_join_multiset(l, m, r2);
                                lemma_join_multiset(Seq::empty(), m, r2);
                                assert(Seq::<T>::empty() + seq![m] + r2 == rt);
                                assert(n@.to_multiset() =~= old(node).unwrap()@.to_multiset().remove(v));
                                assert(n@.len() == n@.to_multiset().len());
                            }
                            *node = Some(n);
                        }
                    },
                }
            },
        }
    }

    /// The balanced tree of a sorted sequence holds it in order, is well
    /// formed, has the middle value at its root, and has the height of a
    /// balanced tree.
    proof fn lemma_balanced(s: Seq<T>)
        requires
            sorted(s),
            s.len() <= usize::MAX,
        ensures
            s.len() == 0 <==> Self::balanced(s) is None,
            s.len() > 0 ==> {
                let t = Self::balanced(s).unwrap();
                &&& t@ == s
                &&& t.wf()
                &&& t.height_spec() == bit_len(s.len())
                &&& t.root() == s[(s.len() - 1) / 2]
            },
        decreases s.len(),
    {
        if s.len() > 0 {
            let n = s.len();
            let m = (n - 1) / 2;
            let l = s.subrange(0, m as int);
            let r = s.subrange(m + 1, n as int);
            lemma_sorted_subrange(s, 0, m as int);
            lemma_sorted_subrange(s, m + 1, n as int);
            Self::lemma_balanced(l);
            Self::lemma_balanced(r);
            assert(s =~= l + seq![s[m as int]] + r);
            lemma_bit_len_monotone(l.len(), r.len());
            assert(bit_len(n) == 1 + bit_len(n / 2));
        }
    }

    /// The balanced tree of the values `data[start..=end]`, which are in
    /// ascending order: the middle value (the lower one of two) at the root,
    /// the values before it on the left and those after it on the right.
    /// `None` where the range is empty.
    pub fn build_recursive(data: &[T], start: isize, end: isize) -> (r: Option<
        Box<BinarySearchTree<T>>,
    >)
        requires
            lawful_order::<T>(),
            sorted(data@),
            data@.len() <= isize::MAX,
            start > end || (0 <= start && end < data@.len()),
        ensures
            start <= end ==> r == Self::balanced(data@.subrange(start as int, end + 1)),
            start > end ==> r is None,
            start <= end ==> r is Some && r.unwrap().wf() && r.unwrap()@ == data@.subrange(
                start as int,
                end + 1,
            ) && r.unwrap().height_spec() == bit_len((end - start + 1) as nat)
                && r.unwrap().root() == data@[start + (end - start) / 2],
        decreases
            if start > end {
                0
            } else {
                end - start + 1
            },
    {
        if start > end {
            return None;
        }
        let mid = start + (end - start) / 2;
        let left = BinarySearchTree::build_recursive(data, start, mid - 1);
        let right = BinarySearchTree::build_recursive(data, mid + 1, end);
        let root = BinarySearchTree { val: data[mid as usize], left, right };
        proof {
            Self::lemma_balanced_unfold(data@, start as int, mid as int, end as int);
            lemma_sorted_subrange(data@, start as int, end + 1);
            Self::lemma_balanced(data@.subrange(start as int, end + 1));
        }
        Some(Box::new(root))
    }

    /// The balanced tree of the values of `data`, which are sorted first: see
    /// `build_recursive`. Fails where `data` is empty, or where two of its
    /// values are incomparable.
    pub fn from(data: Vec<T>) -> (r: Result<BinarySearchTree<T>, TreeError>)
        requires
            lawful_order::<T>(),
            data@.len() <= isize::MAX,
        ensures
            data@.len() == 0 <==> r == Err::<BinarySearchTree<T>, TreeError>(TreeError::EmptyInput),
            data@.len() > 0 && !all_comparable(data@) <==> r == Err::<BinarySearchTree<T>, TreeError>(
                TreeError::Incomparable,
            ),
            r matches Ok(t) ==> {
                &&& t.wf()
                &&& is_sorted_permutation(data@, t@)
                &&& t.height_spec() == bit_len(data@.len())
                &&& t.root() == t@[(t@.len() - 1) / 2]
                &&& Self::balanced(t@) == Some(Box::new(t))
            },
    {
        if data.len() == 0 {
            return Err(TreeError::EmptyInput);
        }
        let sorted = match sort_checked(data) {
            None => {
                return Err(TreeError::Incomparable);
            },
            Some(s) => s,
        };
        proof {
            broadcast use vstd::seq_lib::group_to_multiset_ensures;

            assert(sorted@.len() == sorted@.to_multiset().len());
            assert(data@.len() == data@.to_multiset().len());
        }
        let n = sorted.len() as isize;
        let root = BinarySearchTree::build_recursive(sorted.as_slice(), 0, n - 1).unwrap();
        proof {
            assert(sorted@.subrange(0, n as int) == sorted@);
        }
        Ok(*root)
    }

    /// The values in ascending order.
    pub fn inorder(&self) -> (r: Vec<T>)
        ensures
            r@ == self@,
        decreases self,
    {
        let mut ret: Vec<T> = Vec::new();
        match &self.left {
            None => {},
            Some(node) => {
                let mut v = node.inorder();
                ret.append(&mut v);
            },
        }
        ret.push(self.val);
        match &self.right {
            None => {},
            Some(node) => {
                let mut v = node.inorder();
                ret.append(&mut v);
            },
        }
        ret
    }

    /// The values in pre-order: root, then left subtree, then right subtree.
    pub fn preorder(&self) -> (r: Vec<T>)
        ensures
            r@ == self.preorder_spec(),
        decreases self,
    {
        let mut ret: Vec<T> = Vec::new();
        ret.push(self.val);
        match &self.left {
            None => {},
            Some(node) => {
                let mut v = node.preorder();
                ret.append(&mut v);
            },
        }
        match &self.right {
            None => {},
            Some(node) => {
                let mut v = node.preorder();
                ret.append(&mut v);
            },
        }
        ret
    }
}

/// A cursor over the values of a tree in ascending order. It gathers
/// references to all of them in one traversal, as a stack whose top is the
/// smallest value not yet handed out, and hands them out one by one.
pub struct BinarySearchTreeIter<'a, T> {
    nodes: Vec<&'a T>,
}

impl<'a, T> View for BinarySearchTreeIter<'a, T> {
    /// The values still to come, in the order they will come.
    type V = Seq<T>;

    closed spec fn view(&self) -> Seq<T> {
        Seq::new(self.nodes@.len(), |i: int| *self.nodes@[self.nodes@.len() - 1 - i])
    }
}

impl<'a, T: PartialOrd + Copy> BinarySearchTreeIter<'a, T> {
    /// A cursor at the smallest value of `root`.
    pub fn new(root: &'a BinarySearchTree<T>) -> (r: Self)
        ensures
            r@ == root@,
    {
        let mut iter = BinarySearchTreeIter { nodes: Vec::new() };
        iter.inorder(root);
        assert(iter@ =~= root@);
        iter
    }

    /// Puts the values of `tree` in front of those still to come, by
    /// stacking the right subtree, the root, then the left subtree.
    fn inorder(&mut self, tree: &'a BinarySearchTree<T>)
        ensures
            final(self)@ == tree@ + old(self)@,
        decreases tree,
    {
        assert(tree@ == BinarySearchTree::opt_view(tree.left) + seq![tree.val]
            + BinarySearchTree::opt_view(tree.right));
        match &tree.right {
            None => {},
            Some(node) => {
                self.inorder(node);
            },
        }
        let ghost mid = self@;
        self.nodes.push(&tree.val);
        assert(self@ =~= seq![tree.val] + mid);
        match &tree.left {
            None => {},
            Some(node) => {
                self.inorder(node);
            },
        }
        assert(final(self)@ =~= tree@ + old(self)@);
    }

    /// The next value, or `None` once all have come.
    pub fn next(&mut self) -> (r: Option<&'a T>)
        ensures
            old(self)@.len() == 0 ==> r is None && final(self)@ == old(self)@,
            old(self)@.len() > 0 ==> r is Some && *r.unwrap() == old(self)@[0] && final(self)@
                == old(self)@.drop_first(),
    {
        let r = self.nodes.pop();
        proof {
            if old(self)@.len() > 0 {
                assert(self@ =~= old(self)@.drop_first());
            }
        }
        r
    }
}

impl<T: PartialOrd + Copy> BinarySearchTree<T> {
    /// The values in ascending order, handed over by value: the tree is used up.
    pub fn into_iter(self) -> (r: std::vec::IntoIter<T>)
        ensures
            r.remaining() == self@,
    {
        self.inorder().into_iter()
    }
}

} // verus!
