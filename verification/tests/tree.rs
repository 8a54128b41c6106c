use enum_gallery::{BinaryTree, TreeNode};
use std::cmp::Ordering;

/// A value that claims to be greater than whatever it is compared with.
#[derive(Clone, Debug, PartialEq, Eq)]
struct Stubborn(u8);

impl PartialOrd for Stubborn {
    fn partial_cmp(&self, other: &Self) -> Option<Ordering> {
        Some(self.cmp(other))
    }
}

impl Ord for Stubborn {
    fn cmp(&self, _other: &Self) -> Ordering {
        Ordering::Greater
    }
}

fn leaf<T>(value: T) -> BinaryTree<T> {
    node(value, BinaryTree::Empty, BinaryTree::Empty)
}

fn node<T>(value: T, left: BinaryTree<T>, right: BinaryTree<T>) -> BinaryTree<T> {
    BinaryTree::NonEmpty(Box::new(TreeNode { element: value, left, right }))
}

fn build<T: Ord + Clone>(values: &[T]) -> BinaryTree<T> {
    let mut tree = BinaryTree::new_empty();
    for value in values {
        tree.add(value.clone());
    }
    tree
}

fn collect<T: Clone>(tree: &BinaryTree<T>, into: &mut Vec<T>) {
    if let BinaryTree::NonEmpty(n) = tree {
        collect(&n.left, into);
        into.push(n.element.clone());
        collect(&n.right, into);
    }
}

fn in_order<T: Clone>(tree: &BinaryTree<T>) -> Vec<T> {
    let mut elements = Vec::new();
    collect(tree, &mut elements);
    elements
}

fn count<T>(tree: &BinaryTree<T>) -> usize {
    match tree {
        BinaryTree::Empty => 0,
        BinaryTree::NonEmpty(n) => 1 + count(&n.left) + count(&n.right),
    }
}

fn depth<T>(tree: &BinaryTree<T>) -> usize {
    match tree {
        BinaryTree::Empty => 0,
        BinaryTree::NonEmpty(n) => 1 + depth(&n.left).max(depth(&n.right)),
    }
}

fn is_search_tree<T: Ord + Clone>(tree: &BinaryTree<T>) -> bool {
    match tree {
        BinaryTree::Empty => true,
        BinaryTree::NonEmpty(n) => {
            in_order(&n.left).iter().all(|x| *x <= n.element)
                && in_order(&n.right).iter().all(|x| *x > n.element)
                && is_search_tree(&n.left)
                && is_search_tree(&n.right)
        }
    }
}

#[test]
fn new_empty_has_no_nodes() {
    let tree: BinaryTree<i32> = BinaryTree::new_empty();
    assert_eq!(tree, BinaryTree::Empty);
    assert_eq!(tree, BinaryTree::new_empty());
    assert!(matches!(tree, BinaryTree::Empty));
    assert_eq!(count(&tree), 0);
    assert_eq!(in_order(&tree), Vec::<i32>::new());
}

#[test]
fn add_to_empty_makes_a_leaf() {
    let mut tree = BinaryTree::new_empty();
    tree.add(7);
    assert_eq!(tree, leaf(7));
    match &tree {
        BinaryTree::NonEmpty(n) => {
            assert_eq!(n.element, 7);
            assert!(matches!(n.left, BinaryTree::Empty));
            assert!(matches!(n.right, BinaryTree::Empty));
        }
        BinaryTree::Empty => panic!("the tree is still empty"),
    }
}

#[test]
fn smaller_goes_left_larger_goes_right() {
    let mut tree = BinaryTree::new_empty();
    tree.add(10);
    tree.add(4);
    assert_eq!(tree, node(10, leaf(4), BinaryTree::Empty));
    tree.add(15);
    assert_eq!(tree, node(10, leaf(4), leaf(15)));
    tree.add(7);
    assert_eq!(tree, node(10, node(4, BinaryTree::Empty, leaf(7)), leaf(15)));
    tree.add(12);
    assert_eq!(
        tree,
        node(10, node(4, BinaryTree::Empty, leaf(7)), node(15, leaf(12), BinaryTree::Empty))
    );
}

#[test]
fn equal_value_goes_left() {
    let mut tree = BinaryTree::new_empty();
    tree.add(5);
    tree.add(5);
    assert_eq!(tree, node(5, leaf(5), BinaryTree::Empty));
    tree.add(5);
    assert_eq!(tree, node(5, node(5, leaf(5), BinaryTree::Empty), BinaryTree::Empty));
    assert_eq!(count(&tree), 3);
}

#[test]
fn search_tree_holds_after_each_insertion() {
    let values = [50, 30, 70, 30, 20, 40, 60, 80, 50, 65, -3, 0, 70, 100, 35];
    let mut tree = BinaryTree::new_empty();
    assert!(is_search_tree(&tree));
    for (done, value) in values.iter().enumerate() {
        tree.add(*value);
        assert!(is_search_tree(&tree), "after {} insertions", done + 1);
        let elements = in_order(&tree);
        assert!(elements.windows(2).all(|pair| pair[0] <= pair[1]));
        let mut sorted = values[..=done].to_vec();
        sorted.sort();
        assert_eq!(elements, sorted);
    }
}

#[test]
fn every_insertion_adds_one_node() {
    let values = [3, 1, 3, 3, 2, 1, 9, 9, 0];
    let mut tree = BinaryTree::new_empty();
    for (done, value) in values.iter().enumerate() {
        tree.add(*value);
        assert_eq!(count(&tree), done + 1);
        assert_eq!(in_order(&tree).len(), done + 1);
    }
    assert_eq!(count(&tree), 9);
}

#[test]
fn in_order_keeps_both_fives() {
    let tree = build(&[5, 3, 5, 8]);
    assert_eq!(in_order(&tree), vec![3, 5, 5, 8]);
    assert_eq!(count(&tree), 4);
    assert_eq!(tree, node(5, node(3, BinaryTree::Empty, leaf(5)), leaf(8)));
}

#[test]
fn increasing_values_make_a_right_chain() {
    let tree = build(&[1, 2, 3, 4, 5]);
    assert_eq!(depth(&tree), 5);
    assert_eq!(count(&tree), 5);
    assert_eq!(in_order(&tree), vec![1, 2, 3, 4, 5]);
    let mut at = &tree;
    let mut seen = Vec::new();
    while let BinaryTree::NonEmpty(n) = at {
        assert!(matches!(n.left, BinaryTree::Empty));
        seen.push(n.element);
        at = &n.right;
    }
    assert_eq!(seen, vec![1, 2, 3, 4, 5]);
}

#[test]
fn decreasing_values_make_a_left_chain() {
    let tree = build(&[5, 4, 3, 2, 1]);
    assert_eq!(depth(&tree), 5);
    assert_eq!(count(&tree), 5);
    assert_eq!(in_order(&tree), vec![1, 2, 3, 4, 5]);
    let mut at = &tree;
    let mut seen = Vec::new();
    while let BinaryTree::NonEmpty(n) = at {
        assert!(matches!(n.right, BinaryTree::Empty));
        seen.push(n.element);
        at = &n.left;
    }
    assert_eq!(seen, vec![5, 4, 3, 2, 1]);
}

#[test]
fn equal_values_make_a_left_chain() {
    let tree = build(&[4, 4, 4, 4]);
    assert_eq!(depth(&tree), 4);
    let three = node(4, node(4, leaf(4), BinaryTree::Empty), BinaryTree::Empty);
    assert_eq!(tree, node(4, three, BinaryTree::Empty));
}

#[test]
fn planets_by_hand_and_by_insertion() {
    let jupiter_tree = BinaryTree::NonEmpty(Box::new(TreeNode {
        element: "Jupiter",
        left: BinaryTree::Empty,
        right: BinaryTree::Empty,
    }));
    let mut mars_tree = BinaryTree::NonEmpty(Box::new(TreeNode {
        element: "Mars",
        left: jupiter_tree,
        right: BinaryTree::Empty,
    }));

    let mut inserted = BinaryTree::new_empty();
    inserted.add("Mars");
    inserted.add("Jupiter");
    assert_eq!(inserted, mars_tree);
    match &mars_tree {
        BinaryTree::NonEmpty(mars) => {
            assert_eq!(mars.element, "Mars");
            assert_eq!(mars.left, leaf("Jupiter"));
            assert_eq!(mars.right, BinaryTree::Empty);
        }
        BinaryTree::Empty => panic!("the tree is empty"),
    }

    assert!("Pluto" > "Mars");
    mars_tree.add("Pluto");
    assert_eq!(mars_tree, node("Mars", leaf("Jupiter"), leaf("Pluto")));
    assert_eq!(in_order(&mars_tree), vec!["Jupiter", "Mars", "Pluto"]);
    assert!(is_search_tree(&mars_tree));
}

#[test]
fn jupiter_first_sends_mars_right() {
    let mut tree = BinaryTree::new_empty();
    tree.add("Jupiter");
    assert_eq!(tree, leaf("Jupiter"));
    tree.add("Mars");
    assert_eq!(tree, node("Jupiter", BinaryTree::Empty, leaf("Mars")));
    tree.add("Pluto");
    assert_eq!(
        tree,
        node("Jupiter", BinaryTree::Empty, node("Mars", BinaryTree::Empty, leaf("Pluto")))
    );
}

#[test]
fn owned_strings_are_ordered_as_text() {
    let names = ["pear", "apple", "fig", "apple", "zucchini", "Apple"];
    let mut tree = BinaryTree::new_empty();
    for name in names {
        tree.add(String::from(name));
    }
    assert_eq!(in_order(&tree), vec!["Apple", "apple", "apple", "fig", "pear", "zucchini"]);
    assert!(is_search_tree(&tree));
    assert_eq!(count(&tree), 6);
}

#[test]
fn add_keeps_what_was_built_by_hand() {
    let mut tree = node(20, leaf(10), node(30, leaf(25), BinaryTree::Empty));
    tree.add(27);
    assert_eq!(
        tree,
        node(20, leaf(10), node(30, node(25, BinaryTree::Empty, leaf(27)), BinaryTree::Empty))
    );
}

#[test]
fn add_does_not_repair_a_tree_out_of_order() {
    let mut tree = node(1, leaf(9), BinaryTree::Empty);
    tree.add(5);
    assert_eq!(tree, node(1, leaf(9), leaf(5)));
    assert_eq!(in_order(&tree), vec![9, 1, 5]);
    assert_eq!(count(&tree), 3);
}

#[test]
fn deep_chain_of_many_values() {
    let values: Vec<u32> = (0..500).collect();
    let tree = build(&values);
    assert_eq!(count(&tree), 500);
    assert_eq!(depth(&tree), 500);
    assert_eq!(in_order(&tree), values);
}

#[test]
fn an_order_without_laws_still_grows_the_tree() {
    let mut tree = BinaryTree::new_empty();
    for (done, value) in [3, 1, 2, 1].into_iter().enumerate() {
        tree.add(Stubborn(value));
        assert_eq!(count(&tree), done + 1);
    }
    assert_eq!(in_order(&tree), vec![Stubborn(3), Stubborn(1), Stubborn(2), Stubborn(1)]);
    assert_eq!(depth(&tree), 4);
}
