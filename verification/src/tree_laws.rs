//! What holds of [`BinaryTree`] and of insertion into it.

use crate::binary_tree::{
    at_most, comparable, exceeds, is_non_decreasing, is_total_order, BinaryTree,
};
use std::cmp::Ordering;
use vstd::prelude::*;
use vstd::std_specs::cmp::{OrdSpec, PartialEqSpec, PartialOrdSpec};

verus! {

/// The elements in order are as many as the nodes.
pub proof fn lemma_view_len<T>(tree: BinaryTree<T>)
    ensures
        tree@.len() == tree.len(),
    decreases tree,
{
    match tree {
        BinaryTree::Empty => {},
        BinaryTree::NonEmpty(node) => {
            lemma_view_len(node.left);
            lemma_view_len(node.right);
        },
    }
}

/// A tree that grew by one leaf has one node more.
pub proof fn lemma_grown_by_len<T>(before: BinaryTree<T>, after: BinaryTree<T>, value: T)
    requires
        before.grown_by(after, value),
    ensures
        after.len() == before.len() + 1,
    decreases before,
{
    match before {
        BinaryTree::Empty => {},
        BinaryTree::NonEmpty(node) => {
            let grown = after->NonEmpty_0;
            if node.left.grown_by(grown.left, value) && grown.right == node.right {
                lemma_grown_by_len(node.left, grown.left, value);
            } else {
                lemma_grown_by_len(node.right, grown.right, value);
            }
        },
    }
}

/// A tree that grew by one leaf holds the new value at some position among
/// the elements in order, and the old elements around it as they stood; as
/// multisets, the new elements are the old ones and the value.
pub proof fn lemma_grown_by_view<T>(before: BinaryTree<T>, after: BinaryTree<T>, value: T)
    requires
        before.grown_by(after, value),
    ensures
        exists|at: int| 0 <= at <= before@.len() && after@ == #[trigger] before@.insert(at, value),
        after@.to_multiset() == before@.to_multiset().insert(value),
{
    let at = grown_at(before, after, value);
    lemma_grown_at(before, after, value);
    vstd::seq_lib::to_multiset_insert(before@, at, value);
}

/// The position at which a tree that grew by one leaf holds the new value.
pub open spec fn grown_at<T>(before: BinaryTree<T>, after: BinaryTree<T>, value: T) -> int
    decreases before,
{
    match before {
        BinaryTree::Empty => 0,
        BinaryTree::NonEmpty(node) => {
            let grown = after->NonEmpty_0;
            if node.left.grown_by(grown.left, value) && grown.right == node.right {
                grown_at(node.left, grown.left, value)
            } else {
                node.left.len() + 1 + grown_at(node.right, grown.right, value)
            }
        },
    }
}

/// [`grown_at`] is a position of the old sequence, or its end, and the new
/// sequence is the old one with the value put in there.
pub proof fn lemma_grown_at<T>(before: BinaryTree<T>, after: BinaryTree<T>, value: T)
    requires
        before.grown_by(after, value),
    ensures
        0 <= grown_at(before, after, value) <= before@.len(),
        after@ == before@.insert(grown_at(before, after, value), value),
    decreases before,
{
    lemma_view_len(before);
    match before {
        BinaryTree::Empty => {},
        BinaryTree::NonEmpty(node) => {
            let grown = after->NonEmpty_0;
            lemma_view_len(node.left);
            lemma_view_len(node.right);
            if node.left.grown_by(grown.left, value) && grown.right == node.right {
                lemma_grown_at(node.left, grown.left, value);
            } else {
                lemma_grown_at(node.right, grown.right, value);
            }
        },
    }
}

/// A tree that grew by one leaf is as deep as before, or deeper by one.
pub proof fn lemma_grown_by_depth<T>(before: BinaryTree<T>, after: BinaryTree<T>, value: T)
    requires
        before.grown_by(after, value),
    ensures
        before.depth() <= after.depth() <= before.depth() + 1,
    decreases before,
{
    match before {
        BinaryTree::Empty => {},
        BinaryTree::NonEmpty(node) => {
            let grown = after->NonEmpty_0;
            if node.left.grown_by(grown.left, value) && grown.right == node.right {
                lemma_grown_by_depth(node.left, grown.left, value);
            } else {
                lemma_grown_by_depth(node.right, grown.right, value);
            }
        },
    }
}

/// What [`BinaryTree::inserted`] makes of a tree is that tree grown by one
/// leaf.
pub proof fn lemma_inserted_grows<T: Ord>(tree: BinaryTree<T>, value: T)
    ensures
        tree.grown_by(tree.inserted(value), value),
    decreases tree,
{
    match tree {
        BinaryTree::Empty => {},
        BinaryTree::NonEmpty(node) => {
            lemma_inserted_grows(node.left, value);
            lemma_inserted_grows(node.right, value);
        },
    }
}

/// Insertion puts the new value at [`BinaryTree::place_of`] among the
/// elements in order and leaves the others as they stood.
pub proof fn lemma_inserted_view<T: Ord>(tree: BinaryTree<T>, value: T)
    ensures
        0 <= tree.place_of(value) <= tree.len(),
        tree.inserted(value)@ == tree@.insert(tree.place_of(value), value),
    decreases tree,
{
    lemma_view_len(tree);
    match tree {
        BinaryTree::Empty => {},
        BinaryTree::NonEmpty(node) => {
            lemma_view_len(node.left);
            lemma_view_len(node.right);
            lemma_inserted_view(node.left, value);
            lemma_inserted_view(node.right, value);
        },
    }
}

/// Insertion keeps a search tree a search tree, provided the new value is
/// comparable with the elements that are there.
pub proof fn lemma_inserted_keeps_search_tree<T: Ord>(tree: BinaryTree<T>, value: T)
    requires
        tree.is_search_tree(),
        tree.comparable_with(value),
    ensures
        tree.inserted(value).is_search_tree(),
    decreases tree,
{
    match tree {
        BinaryTree::Empty => {},
        BinaryTree::NonEmpty(node) => {
            lemma_view_len(node.left);
            lemma_view_len(node.right);
            let at_node = node.left@.len() as int;
            assert(comparable(value, tree@[at_node]));
            if at_most(value, node.element) {
                assert forall|i: int| 0 <= i < node.left@.len() implies comparable(
                    value,
                    #[trigger] node.left@[i],
                ) by {
                    assert(tree@[i] == node.left@[i]);
                }
                lemma_inserted_keeps_search_tree(node.left, value);
                lemma_inserted_view(node.left, value);
            } else {
                assert forall|i: int| 0 <= i < node.right@.len() implies comparable(
                    value,
                    #[trigger] node.right@[i],
                ) by {
                    assert(tree@[at_node + 1 + i] == node.right@[i]);
                }
                lemma_inserted_keeps_search_tree(node.right, value);
                lemma_inserted_view(node.right, value);
            }
        },
    }
}

/// Under a total order, the elements of a search tree never decrease from
/// one position to a later one.
pub proof fn lemma_search_tree_is_sorted<T: Ord>(tree: BinaryTree<T>)
    requires
        is_total_order::<T>(),
        tree.is_search_tree(),
    ensures
        is_non_decreasing(tree@),
    decreases tree,
{
    match tree {
        BinaryTree::Empty => {},
        BinaryTree::NonEmpty(node) => {
            lemma_search_tree_is_sorted(node.left);
            lemma_search_tree_is_sorted(node.right);
            let left = node.left@;
            let right = node.right@;
            assert forall|i: int, j: int| 0 <= i < j < tree@.len() implies at_most(
                #[trigger] tree@[i],
                #[trigger] tree@[j],
            ) by {
                if j > left.len() {
                    assert(at_most(node.element, right[j - left.len() - 1]));
                }
            }
        },
    }
}

/// Under a total order, insertion puts the new value into a search tree
/// behind every element that is smaller and before every element that is
/// equal or larger.
pub proof fn lemma_place_of_splits<T: Ord>(tree: BinaryTree<T>, value: T)
    requires
        is_total_order::<T>(),
        tree.is_search_tree(),
    ensures
        0 <= tree.place_of(value) <= tree@.len(),
        forall|i: int| 0 <= i < tree.place_of(value) ==> exceeds(value, #[trigger] tree@[i]),
        forall|i: int|
            tree.place_of(value) <= i < tree@.len() ==> at_most(value, #[trigger] tree@[i]),
    decreases tree,
{
    lemma_view_len(tree);
    match tree {
        BinaryTree::Empty => {},
        BinaryTree::NonEmpty(node) => {
            lemma_view_len(node.left);
            lemma_view_len(node.right);
            lemma_place_of_splits(node.left, value);
            lemma_place_of_splits(node.right, value);
            let left = node.left@;
            let right = node.right@;
            assert(comparable(value, node.element));
            if at_most(value, node.element) {
                assert forall|i: int| tree.place_of(value) <= i < tree@.len() implies at_most(
                    value,
                    #[trigger] tree@[i],
                ) by {
                    if i > left.len() {
                        assert(at_most(node.element, right[i - left.len() - 1]));
                    }
                }
            } else {
                assert forall|i: int| 0 <= i < tree.place_of(value) implies exceeds(
                    value,
                    #[trigger] tree@[i],
                ) by {
                    if i < left.len() {
                        assert(comparable(value, left[i]));
                        assert(at_most(value, left[i]) ==> at_most(value, node.element));
                    }
                }
            }
        },
    }
}

/// A tree built from `values` has one node for each of them, and its
/// elements are the values, each as often as it was inserted.
pub proof fn lemma_built_from_len<T: Ord>(values: Seq<T>)
    ensures
        BinaryTree::built_from(values).len() == values.len(),
        BinaryTree::built_from(values)@.len() == values.len(),
        BinaryTree::built_from(values)@.to_multiset() == values.to_multiset(),
    decreases values.len(),
{
    let built = BinaryTree::built_from(values);
    lemma_view_len(built);
    if values.len() == 0 {
        assert(built@ =~= values);
    } else {
        let before = BinaryTree::built_from(values.drop_last());
        lemma_built_from_len(values.drop_last());
        lemma_inserted_grows(before, values.last());
        lemma_grown_by_len(before, built, values.last());
        lemma_grown_by_view(before, built, values.last());
        assert(values.drop_last().push(values.last()) =~= values);
        vstd::seq_lib::to_multiset_build(values.drop_last(), values.last());
    }
}

/// Every element of a tree built from `values` is one of the values.
pub proof fn lemma_built_from_elements<T: Ord>(values: Seq<T>)
    ensures
        forall|i: int|
            0 <= i < BinaryTree::built_from(values)@.len() ==> values.contains(
                #[trigger] BinaryTree::built_from(values)@[i],
            ),
    decreases values.len(),
{
    if values.len() > 0 {
        let before = BinaryTree::built_from(values.drop_last());
        let built = BinaryTree::built_from(values);
        lemma_built_from_elements(values.drop_last());
        lemma_inserted_view(before, values.last());
        lemma_view_len(before);
        let place = before.place_of(values.last());
        assert forall|i: int| 0 <= i < built@.len() implies values.contains(
            #[trigger] built@[i],
        ) by {
            if i == place {
                assert(values[values.len() - 1] == built@[i]);
            } else {
                let old_i = if i < place {
                    i
                } else {
                    i - 1
                };
                let k = choose|k: int|
                    0 <= k < values.drop_last().len() && values.drop_last()[k] == before@[old_i];
                assert(values[k] == built@[i]);
            }
        }
    }
}

/// Inserting values that are comparable with each other, one after another
/// into an empty tree, gives a search tree.
pub proof fn lemma_built_from_is_search_tree<T: Ord>(values: Seq<T>)
    requires
        forall|i: int, j: int|
            0 <= i < values.len() && 0 <= j < values.len() ==> comparable(
                #[trigger] values[i],
                #[trigger] values[j],
            ),
    ensures
        BinaryTree::built_from(values).is_search_tree(),
    decreases values.len(),
{
    if values.len() > 0 {
        let before = BinaryTree::built_from(values.drop_last());
        lemma_built_from_is_search_tree(values.drop_last());
        lemma_built_from_elements(values.drop_last());
        assert forall|i: int| 0 <= i < before@.len() implies comparable(
            values.last(),
            #[trigger] before@[i],
        ) by {
            let k = choose|k: int|
                0 <= k < values.drop_last().len() && values.drop_last()[k] == before@[i];
            assert(comparable(values[values.len() - 1], values[k]));
        }
        lemma_inserted_keeps_search_tree(before, values.last());
    }
}

/// Under a total order, the elements in order of a tree built from `values`
/// are the values sorted: they never decrease, and each value is there as
/// often as it was inserted.
pub proof fn lemma_built_from_sorts<T: Ord>(values: Seq<T>)
    requires
        is_total_order::<T>(),
    ensures
        BinaryTree::built_from(values).is_search_tree(),
        is_non_decreasing(BinaryTree::built_from(values)@),
        BinaryTree::built_from(values)@.to_multiset() == values.to_multiset(),
{
    assert forall|i: int, j: int|
        0 <= i < values.len() && 0 <= j < values.len() implies comparable(
        #[trigger] values[i],
        #[trigger] values[j],
    ) by {}
    lemma_built_from_is_search_tree(values);
    lemma_search_tree_is_sorted(BinaryTree::built_from(values));
    lemma_built_from_len(values);
}

/// A chain to the right is as deep as it has nodes.
pub proof fn lemma_right_chain_depth<T>(tree: BinaryTree<T>)
    requires
        tree.is_right_chain(),
    ensures
        tree.depth() == tree.len(),
    decreases tree,
{
    match tree {
        BinaryTree::Empty => {},
        BinaryTree::NonEmpty(node) => {
            assert(node.left.depth() == 0 && node.left.len() == 0);
            lemma_right_chain_depth(node.right);
        },
    }
}

/// A chain to the left is as deep as it has nodes.
pub proof fn lemma_left_chain_depth<T>(tree: BinaryTree<T>)
    requires
        tree.is_left_chain(),
    ensures
        tree.depth() == tree.len(),
    decreases tree,
{
    match tree {
        BinaryTree::Empty => {},
        BinaryTree::NonEmpty(node) => {
            assert(node.right.depth() == 0 && node.right.len() == 0);
            lemma_left_chain_depth(node.left);
        },
    }
}

/// A value that exceeds every element of a chain to the right goes to the
/// chain's end.
pub proof fn lemma_inserted_extends_right_chain<T: Ord>(tree: BinaryTree<T>, value: T)
    requires
        tree.is_right_chain(),
        forall|i: int| 0 <= i < tree@.len() ==> exceeds(value, #[trigger] tree@[i]),
    ensures
        tree.inserted(value).is_right_chain(),
        tree.inserted(value)@ == tree@.push(value),
    decreases tree,
{
    match tree {
        BinaryTree::Empty => {},
        BinaryTree::NonEmpty(node) => {
            assert(node.left@.len() == 0);
            assert(tree@[0] == node.element);
            assert forall|i: int| 0 <= i < node.right@.len() implies exceeds(
                value,
                #[trigger] node.right@[i],
            ) by {
                assert(tree@[i + 1] == node.right@[i]);
            }
            lemma_inserted_extends_right_chain(node.right, value);
        },
    }
}

/// A value that is at most every element of a chain to the left goes to the
/// chain's end, which is the front of the elements in order.
pub proof fn lemma_inserted_extends_left_chain<T: Ord>(tree: BinaryTree<T>, value: T)
    requires
        tree.is_left_chain(),
        forall|i: int| 0 <= i < tree@.len() ==> at_most(value, #[trigger] tree@[i]),
    ensures
        tree.inserted(value).is_left_chain(),
        tree.inserted(value)@ == seq![value] + tree@,
    decreases tree,
{
    match tree {
        BinaryTree::Empty => {},
        BinaryTree::NonEmpty(node) => {
            let last = node.left@.len() as int;
            assert(tree@[last] == node.element);
            assert forall|i: int| 0 <= i < node.left@.len() implies at_most(
                value,
                #[trigger] node.left@[i],
            ) by {
                assert(tree@[i] == node.left@[i]);
            }
            lemma_inserted_extends_left_chain(node.left, value);
        },
    }
}

/// Values of which each exceeds all that came before it build a chain to the
/// right: no node has a left child, the tree is as deep as there are values,
/// and the elements in order are the values as they came.
pub proof fn lemma_increasing_builds_right_chain<T: Ord>(values: Seq<T>)
    requires
        forall|i: int, j: int|
            0 <= i < j < values.len() ==> exceeds(#[trigger] values[j], #[trigger] values[i]),
    ensures
        BinaryTree::built_from(values).is_right_chain(),
        BinaryTree::built_from(values).depth() == values.len(),
        BinaryTree::built_from(values)@ == values,
    decreases values.len(),
{
    let built = BinaryTree::built_from(values);
    if values.len() > 0 {
        let before = BinaryTree::built_from(values.drop_last());
        lemma_increasing_builds_right_chain(values.drop_last());
        assert forall|i: int| 0 <= i < before@.len() implies exceeds(
            values.last(),
            #[trigger] before@[i],
        ) by {
            assert(before@[i] == values[i]);
        }
        lemma_inserted_extends_right_chain(before, values.last());
    }
    lemma_right_chain_depth(built);
    lemma_built_from_len(values);
}

/// Values of which each is at most all that came before it build a chain to
/// the left: no node has a right child, the tree is as deep as there are
/// values, and the elements in order are the values, last one first.
pub proof fn lemma_decreasing_builds_left_chain<T: Ord>(values: Seq<T>)
    requires
        forall|i: int, j: int|
            0 <= i < j < values.len() ==> at_most(#[trigger] values[j], #[trigger] values[i]),
    ensures
        BinaryTree::built_from(values).is_left_chain(),
        BinaryTree::built_from(values).depth() == values.len(),
        BinaryTree::built_from(values)@ == values.reverse(),
    decreases values.len(),
{
    let built = BinaryTree::built_from(values);
    if values.len() > 0 {
        let before = BinaryTree::built_from(values.drop_last());
        lemma_decreasing_builds_left_chain(values.drop_last());
        assert forall|i: int| 0 <= i < before@.len() implies at_most(
            values.last(),
            #[trigger] before@[i],
        ) by {
            assert(before@[i] == values[values.len() - 2 - i]);
        }
        lemma_inserted_extends_left_chain(before, values.last());
    }
    lemma_left_chain_depth(built);
    lemma_built_from_len(values);
}

/// An order that keeps the laws which vstd states for `Ord` is a total order
/// in the sense of [`is_total_order`], and `<=` on `T` computes [`at_most`].
pub proof fn lemma_lawful_order_is_total<T: Ord>()
    requires
        vstd::laws_cmp::obeys_cmp::<T>(),
    ensures
        is_total_order::<T>(),
        T::obeys_partial_cmp_spec(),
{
    reveal(vstd::laws_cmp::obeys_partial_cmp_spec_properties);
    reveal(vstd::laws_cmp::obeys_cmp_partial_ord);
    reveal(vstd::laws_cmp::obeys_cmp_ord);
    reveal(vstd::laws_eq::obeys_eq_spec_properties);
    assert forall|a: T, b: T, c: T| #[trigger]
        at_most(a, b) && #[trigger] at_most(b, c) implies at_most(a, c) by {
        // Were `a > c`, and so `c < a`, each of the four ways in which
        // `a <= b` and `b <= c` can hold would break one of the laws.
        if exceeds(a, c) {
            assert(c.partial_cmp_spec(&a) == Some(Ordering::Less));
        }
    }
}

} // verus!
