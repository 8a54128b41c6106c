//! An unbalanced ordered binary tree that is built by insertion alone.
//!
//! A tree is modelled by the sequence of its elements in order: those of the
//! left subtree, the node's own element, those of the right subtree. The
//! order between elements is the one that `T` gives through `PartialOrd`;
//! contracts speak of it through [`at_most`] and [`exceeds`].

use crate::tree_laws::{
    lemma_grown_by_depth, lemma_grown_by_len, lemma_grown_by_view,
    lemma_inserted_keeps_search_tree, lemma_inserted_view,
};
use std::cmp::Ordering;
use vstd::prelude::*;
use vstd::std_specs::cmp::PartialOrdSpec;

verus! {

/// An ordered collection of `T`s: either nothing, or one node that owns an
/// element and two subtrees. Equal elements are kept, not merged.
#[derive(Debug, PartialEq, Eq)]
pub enum BinaryTree<T> {
    Empty,
    NonEmpty(Box<TreeNode<T>>),
}

/// One occupied slot of a [`BinaryTree`].
#[derive(Debug, PartialEq, Eq)]
pub struct TreeNode<T> {
    pub element: T,
    pub left: BinaryTree<T>,
    pub right: BinaryTree<T>,
}

/// `a <= b` in the order of `T`.
pub open spec fn at_most<T: PartialOrd>(a: T, b: T) -> bool {
    a.partial_cmp_spec(&b) matches Some(Ordering::Less | Ordering::Equal)
}

/// `a > b` in the order of `T`.
pub open spec fn exceeds<T: PartialOrd>(a: T, b: T) -> bool {
    a.partial_cmp_spec(&b) == Some(Ordering::Greater)
}

/// The order of `T` relates `a` and `b`, one way or the other.
pub open spec fn comparable<T: PartialOrd>(a: T, b: T) -> bool {
    a.partial_cmp_spec(&b) is Some
}

/// The order of `T` compares any two values, `a > b` gives `b <= a`, and
/// `<=` is transitive.
pub open spec fn is_total_order<T: PartialOrd>() -> bool {
    &&& forall|a: T, b: T| #[trigger] comparable(a, b)
    &&& forall|a: T, b: T| #[trigger] exceeds(a, b) ==> at_most(b, a)
    &&& forall|a: T, b: T, c: T|
        #[trigger] at_most(a, b) && #[trigger] at_most(b, c) ==> at_most(a, c)
}

/// Every element of `s` is `<= bound`.
pub open spec fn all_at_most<T: PartialOrd>(s: Seq<T>, bound: T) -> bool {
    forall|i: int| 0 <= i < s.len() ==> at_most(#[trigger] s[i], bound)
}

/// Every element of `s` is `> bound`.
pub open spec fn all_exceed<T: PartialOrd>(s: Seq<T>, bound: T) -> bool {
    forall|i: int| 0 <= i < s.len() ==> exceeds(#[trigger] s[i], bound)
}

/// `s` never decreases from one position to a later one.
pub open spec fn is_non_decreasing<T: PartialOrd>(s: Seq<T>) -> bool {
    forall|i: int, j: int| 0 <= i < j < s.len() ==> at_most(#[trigger] s[i], #[trigger] s[j])
}

impl<T> BinaryTree<T> {
    /// A tree of one node that holds `value`.
    pub open spec fn leaf(value: T) -> BinaryTree<T> {
        BinaryTree::NonEmpty(
            Box::new(
                TreeNode { element: value, left: BinaryTree::Empty, right: BinaryTree::Empty },
            ),
        )
    }

    /// The number of nodes.
    pub open spec fn len(self) -> nat
        decreases self,
    {
        match self {
            BinaryTree::Empty => 0,
            BinaryTree::NonEmpty(node) => 1 + node.left.len() + node.right.len(),
        }
    }

    /// The number of nodes on the longest way down from the root.
    pub open spec fn depth(self) -> nat
        decreases self,
    {
        match self {
            BinaryTree::Empty => 0,
            BinaryTree::NonEmpty(node) => if node.left.depth() >= node.right.depth() {
                1 + node.left.depth()
            } else {
                1 + node.right.depth()
            },
        }
    }

    /// The elements in order: left subtree, element, right subtree.
    pub open spec fn in_order(self) -> Seq<T>
        decreases self,
    {
        match self {
            BinaryTree::Empty => Seq::empty(),
            BinaryTree::NonEmpty(node) => node.left.in_order().push(node.element)
                + node.right.in_order(),
        }
    }

    /// No node has a left child.
    pub open spec fn is_right_chain(self) -> bool
        decreases self,
    {
        match self {
            BinaryTree::Empty => true,
            BinaryTree::NonEmpty(node) => node.left is Empty && node.right.is_right_chain(),
        }
    }

    /// No node has a right child.
    pub open spec fn is_left_chain(self) -> bool
        decreases self,
    {
        match self {
            BinaryTree::Empty => true,
            BinaryTree::NonEmpty(node) => node.right is Empty && node.left.is_left_chain(),
        }
    }

    /// `after` is `self` with one empty slot replaced by a leaf that holds
    /// `value`, and nothing else changed. This holds of every insertion,
    /// whatever the comparisons of `T` answer.
    pub open spec fn grown_by(self, after: BinaryTree<T>, value: T) -> bool
        decreases self,
    {
        match self {
            BinaryTree::Empty => after == Self::leaf(value),
            BinaryTree::NonEmpty(node) => {
                &&& after matches BinaryTree::NonEmpty(grown)
                &&& grown.element == node.element
                &&& {
                    ||| node.left.grown_by(grown.left, value) && grown.right == node.right
                    ||| grown.left == node.left && node.right.grown_by(grown.right, value)
                }
            },
        }
    }

    /// A tree without nodes.
    pub fn new_empty() -> (tree: Self)
        ensures
            tree == BinaryTree::<T>::Empty,
            tree.len() == 0,
            tree@ == Seq::<T>::empty(),
    {
        BinaryTree::Empty
    }
}

impl<T> View for BinaryTree<T> {
    type V = Seq<T>;

    open spec fn view(&self) -> Seq<T> {
        self.in_order()
    }
}

impl<T: Ord> BinaryTree<T> {
    /// In every node, the elements of the left subtree are `<=` the node's
    /// element and those of the right subtree are `>` it.
    pub open spec fn is_search_tree(self) -> bool
        decreases self,
    {
        match self {
            BinaryTree::Empty => true,
            BinaryTree::NonEmpty(node) => {
                &&& node.left.is_search_tree()
                &&& node.right.is_search_tree()
                &&& all_at_most(node.left@, node.element)
                &&& all_exceed(node.right@, node.element)
            },
        }
    }

    /// `value` is comparable with every element of the tree.
    pub open spec fn comparable_with(self, value: T) -> bool {
        forall|i: int| 0 <= i < self@.len() ==> comparable(value, #[trigger] self@[i])
    }

    /// The tree that insertion of `value` makes of `self`: the value goes down
    /// from the root, left of each element that it is `<=` and right of the
    /// others, into the first empty slot.
    pub open spec fn inserted(self, value: T) -> BinaryTree<T>
        decreases self,
    {
        match self {
            BinaryTree::Empty => Self::leaf(value),
            BinaryTree::NonEmpty(node) => if at_most(value, node.element) {
                BinaryTree::NonEmpty(
                    Box::new(
                        TreeNode {
                            element: node.element,
                            left: node.left.inserted(value),
                            right: node.right,
                        },
                    ),
                )
            } else {
                BinaryTree::NonEmpty(
                    Box::new(
                        TreeNode {
                            element: node.element,
                            left: node.left,
                            right: node.right.inserted(value),
                        },
                    ),
                )
            },
        }
    }

    /// The position that insertion gives `value` among the elements in order.
    pub open spec fn place_of(self, value: T) -> int
        decreases self,
    {
        match self {
            BinaryTree::Empty => 0,
            BinaryTree::NonEmpty(node) => if at_most(value, node.element) {
                node.left.place_of(value)
            } else {
                node.left.len() + 1 + node.right.place_of(value)
            },
        }
    }

    /// The tree that inserting `values` one after another makes of an empty
    /// tree.
    pub open spec fn built_from(values: Seq<T>) -> BinaryTree<T>
        decreases values.len(),
    {
        if values.len() == 0 {
            BinaryTree::Empty
        } else {
            Self::built_from(values.drop_last()).inserted(values.last())
        }
    }

    /// Inserts `value`: into this slot if it is empty, else into the left
    /// subtree if `value <= element` and into the right subtree otherwise.
    ///
    /// Whatever the comparisons of `T` answer, the tree grows by one leaf that
    /// holds `value`. Where `<=` on `T` computes [`at_most`], the new tree is
    /// [`BinaryTree::inserted`], and a search tree stays one if `value` is
    /// comparable with its elements.
    pub fn add(&mut self, value: T)
        ensures
            old(self).grown_by(*final(self), value),
            final(self).len() == old(self).len() + 1,
            old(self).depth() <= final(self).depth() <= old(self).depth() + 1,
            final(self)@.to_multiset() == old(self)@.to_multiset().insert(value),
            T::obeys_partial_cmp_spec() ==> *final(self) == old(self).inserted(value),
            T::obeys_partial_cmp_spec() ==> final(self)@ == old(self)@.insert(
                old(self).place_of(value),
                value,
            ),
            T::obeys_partial_cmp_spec() && old(self).is_search_tree() && old(self).comparable_with(
                value,
            ) ==> final(self).is_search_tree(),
        decreases *old(self),
    {
        match *self {
            BinaryTree::Empty => {
                *self = BinaryTree::NonEmpty(
                    Box::new(
                        TreeNode {
                            element: value,
                            left: BinaryTree::Empty,
                            right: BinaryTree::Empty,
                        },
                    ),
                );
            },
            BinaryTree::NonEmpty(ref mut node) => {
                if value <= node.element {
                    node.left.add(value);
                } else {
                    node.right.add(value);
                }
            },
        }
        proof {
            lemma_grown_by_len(*old(self), *self, value);
            lemma_grown_by_depth(*old(self), *self, value);
            lemma_grown_by_view(*old(self), *self, value);
            lemma_inserted_view(*old(self), value);
            if T::obeys_partial_cmp_spec() && old(self).is_search_tree() && old(
                self,
            ).comparable_with(value) {
                lemma_inserted_keeps_search_tree(*old(self), value);
            }
        }
    }
}

} // verus!
