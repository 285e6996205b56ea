use ds_bst::sort::sort_checked;
use ds_bst::{BinarySearchTree, BinarySearchTreeIter, TreeError};

#[test]
fn build() {
    let mut root = BinarySearchTree::from(vec![10, 11, 5, 4, 1, 2, 3, 9, 8, 7, 6]).unwrap();
    assert_eq!(root.value(), 6);
    root.insert(12).unwrap();
    assert_eq!(root.contains(12), true);
    assert_eq!(root.contains(13), false);
    assert_eq!(root.contains(1), true);
    assert_eq!(root.find_min(), 1);
    assert_eq!(root.find_max(), 12);

    let sorted: Vec<_> = root.inorder();
    assert_eq!(sorted, vec![1, 2, 3, 4, 5, 6, 7, 8, 9, 10, 11, 12]);

    let preorder: Vec<_> = root.preorder();
    assert_eq!(preorder, vec![6, 3, 1, 2, 4, 5, 9, 7, 8, 10, 11, 12]);
}

#[test]
fn build_from_node() {
    let mut root = BinarySearchTree::new(5);
    root.insert(4).unwrap();
    root.insert(6).unwrap();
    root.insert(3).unwrap();
    root.insert(2).unwrap();
    root.insert(8).unwrap();
    root.insert(8).unwrap();

    assert_eq!(root.find_max(), 8);
    assert_eq!(root.find_min(), 2);
}

#[test]
fn even() {
    let root = BinarySearchTree::from(vec![3, 4, 2, 1]).unwrap();
    assert_eq!(root.value(), 2);
}

#[test]
fn float() {
    let mut root = BinarySearchTree::from(vec![1.1, 1.0, 1.5, 1.9, 1.7]).unwrap();
    assert_eq!(root.value(), 1.5);
    root.insert(1.8).unwrap();
    assert_eq!(root.contains(1.8), true);
    assert_eq!(root.find_max(), 1.9);
}

#[test]
fn iterator_consumable() {
    let root = BinarySearchTree::from(vec![1, 2, 3]).unwrap();
    let mut i = 1;

    for v in root.into_iter() {
        assert_eq!(v, i);
        i = i + 1;
    }
    assert_eq!(i, 4);
}

#[test]
fn iterator_non_consumable() {
    let root = BinarySearchTree::from(vec![1, 2, 3]).unwrap();
    let mut i = 1;
    let mut iter = BinarySearchTreeIter::new(&root);
    while let Some(v) = iter.next() {
        assert_eq!(*v, i);
        i = i + 1;
    }
    assert_eq!(i, 4);

    assert_eq!(root.find_max(), 3);
    assert_eq!(root.height(), 2);
}

#[test]
fn height() {
    let root = BinarySearchTree::from(vec![1]).unwrap();
    assert_eq!(root.height(), 1);

    let root2 = BinarySearchTree::from(vec![11, 20, 29, 32, 41, 65, 50, 91, 72, 99]).unwrap();
    assert_eq!(root2.height(), 4)
}

#[test]
fn remove() {
    let mut root = Some(Box::new(
        BinarySearchTree::from(vec![1, 2, 3, 4, 5, 6, 7, 8, 9]).unwrap(),
    ));
    assert_eq!(root.as_ref().unwrap().value(), 5);
    BinarySearchTree::remove(&mut root, &5);
    assert_eq!(root.unwrap().inorder(), vec![1, 2, 3, 4, 6, 7, 8, 9]);
}

#[test]
fn from_empty_is_refused() {
    let r = BinarySearchTree::<i32>::from(Vec::new());
    assert!(matches!(r, Err(TreeError::EmptyInput)));
}

#[test]
fn from_incomparable_is_refused() {
    let r = BinarySearchTree::from(vec![1.0, f64::NAN, 2.0]);
    assert!(matches!(r, Err(TreeError::Incomparable)));
}

#[test]
fn insert_incomparable_leaves_tree_unchanged() {
    let mut root = BinarySearchTree::from(vec![1.0, 2.0, 3.0]).unwrap();
    assert_eq!(root.insert(f64::NAN), Err(TreeError::Incomparable));
    assert_eq!(root.inorder(), vec![1.0, 2.0, 3.0]);
    assert_eq!(root.preorder(), vec![2.0, 1.0, 3.0]);
    assert_eq!(root.contains(f64::NAN), false);
}

#[test]
fn inorder_of_built_tree_is_sorted_input() {
    let data = vec![5, 3, 9, 3, 1, 9, 0, 7, 3];
    let root = BinarySearchTree::from(data.clone()).unwrap();
    let mut expected = data;
    expected.sort();
    assert_eq!(root.inorder(), expected);
    assert_eq!(root.inorder(), vec![0, 1, 3, 3, 3, 5, 7, 9, 9]);
}

#[test]
fn inserted_value_is_found() {
    let mut root = BinarySearchTree::new(10);
    for v in [4, 17, 10, 4, 25, -3] {
        root.insert(v).unwrap();
        assert!(root.contains(v));
    }
    assert_eq!(root.inorder(), vec![-3, 4, 4, 10, 10, 17, 25]);
}

#[test]
fn equal_values_go_right() {
    let mut root = BinarySearchTree::new(5);
    root.insert(5).unwrap();
    root.insert(5).unwrap();
    assert_eq!(root.height(), 3);
    assert_eq!(root.preorder(), vec![5, 5, 5]);
}

#[test]
fn built_height_is_balanced() {
    for n in 1usize..=40 {
        let data: Vec<usize> = (0..n).rev().collect();
        let root = BinarySearchTree::from(data).unwrap();
        let mut h = 0usize;
        while (1usize << h) <= n {
            h += 1;
        }
        assert_eq!(root.height(), h);
    }
}

#[test]
fn remove_present_takes_one_occurrence() {
    let mut root = Some(Box::new(
        BinarySearchTree::from(vec![4, 2, 6, 2, 8, 2, 5]).unwrap(),
    ));
    BinarySearchTree::remove(&mut root, &2);
    assert_eq!(root.as_ref().unwrap().inorder(), vec![2, 2, 4, 5, 6, 8]);
    BinarySearchTree::remove(&mut root, &8);
    assert_eq!(root.as_ref().unwrap().inorder(), vec![2, 2, 4, 5, 6]);
}

#[test]
fn remove_absent_changes_nothing() {
    let mut root = Some(Box::new(BinarySearchTree::from(vec![1, 3, 5, 7]).unwrap()));
    let before = root.as_ref().unwrap().preorder();
    BinarySearchTree::remove(&mut root, &4);
    assert_eq!(root.as_ref().unwrap().preorder(), before);
    let mut none: Option<Box<BinarySearchTree<i32>>> = None;
    BinarySearchTree::remove(&mut none, &4);
    assert!(none.is_none());
}

#[test]
fn remove_last_value_empties_slot() {
    let mut root = Some(Box::new(BinarySearchTree::new(9)));
    BinarySearchTree::remove(&mut root, &9);
    assert!(root.is_none());
}

#[test]
fn remove_node_with_one_child_splices_it_up() {
    let mut tree = BinarySearchTree::new(10);
    for v in [5, 3, 4, 1, 20] {
        tree.insert(v).unwrap();
    }
    let mut root = Some(Box::new(tree));
    BinarySearchTree::remove(&mut root, &5);
    let t = root.unwrap();
    assert_eq!(t.inorder(), vec![1, 3, 4, 10, 20]);
    assert_eq!(t.preorder(), vec![10, 3, 1, 4, 20]);
}

#[test]
fn remove_node_with_two_children_takes_successor() {
    let mut tree = BinarySearchTree::new(10);
    for v in [5, 15, 12, 18, 11, 13] {
        tree.insert(v).unwrap();
    }
    let mut root = Some(Box::new(tree));
    BinarySearchTree::remove(&mut root, &10);
    let t = root.unwrap();
    assert_eq!(t.value(), 11);
    assert_eq!(t.inorder(), vec![5, 11, 12, 13, 15, 18]);
    assert_eq!(t.preorder(), vec![11, 5, 15, 12, 13, 18]);
}

#[test]
fn min_and_max_are_ends_of_inorder() {
    let root = BinarySearchTree::from(vec![42, -7, 13, 99, 0, 13]).unwrap();
    let values = root.inorder();
    assert_eq!(root.find_min(), values[0]);
    assert_eq!(root.find_max(), values[values.len() - 1]);
    assert_eq!(root.find_min(), -7);
    assert_eq!(root.find_max(), 99);
}

#[test]
fn find_returns_the_subtree_holding_the_value() {
    let root = BinarySearchTree::from(vec![1, 2, 3, 4, 5, 6, 7]).unwrap();
    let found = root.find(&6).unwrap();
    assert_eq!(found.value(), 6);
    assert_eq!(found.inorder(), vec![5, 6, 7]);
    assert!(root.find(&8).is_none());
}

#[test]
fn build_recursive_on_a_range() {
    let data = [1, 2, 3, 4, 5, 6];
    assert!(BinarySearchTree::build_recursive(&data, 3, 2).is_none());
    let t = BinarySearchTree::build_recursive(&data, 1, 4).unwrap();
    assert_eq!(t.value(), 3);
    assert_eq!(t.inorder(), vec![2, 3, 4, 5]);
    assert_eq!(t.preorder(), vec![3, 2, 4, 5]);
    assert_eq!(t.height(), 3);
}

#[test]
fn single_node_tree() {
    let t = BinarySearchTree::new(7);
    assert_eq!(t.value(), 7);
    assert_eq!(t.height(), 1);
    assert_eq!(t.inorder(), vec![7]);
    assert_eq!(t.preorder(), vec![7]);
}

#[test]
fn borrowing_iterator_ends_with_none() {
    let root = BinarySearchTree::from(vec![2, 1]).unwrap();
    let mut iter = BinarySearchTreeIter::new(&root);
    assert_eq!(iter.next(), Some(&1));
    assert_eq!(iter.next(), Some(&2));
    assert_eq!(iter.next(), None);
    assert_eq!(iter.next(), None);
}

#[test]
fn both_iterators_agree() {
    let root = BinarySearchTree::from(vec![8, 3, 5, 1]).unwrap();
    let mut borrowed = Vec::new();
    let mut iter = BinarySearchTreeIter::new(&root);
    while let Some(v) = iter.next() {
        borrowed.push(*v);
    }
    let owned: Vec<i32> = root.into_iter().collect();
    assert_eq!(borrowed, owned);
    assert_eq!(owned, vec![1, 3, 5, 8]);
}

#[test]
fn sort_checked_sorts_or_refuses() {
    assert_eq!(sort_checked(vec![3, 1, 2, 1]), Some(vec![1, 1, 2, 3]));
    assert_eq!(sort_checked(Vec::<i32>::new()), Some(vec![]));
    assert_eq!(sort_checked(vec![0.5, f64::NAN]), None);
}

#[test]
fn sort_checked_on_many_values() {
    let data: Vec<i64> = (0..200).map(|i| (i * 37) % 101 - 50).collect();
    let mut expected = data.clone();
    expected.sort();
    assert_eq!(sort_checked(data), Some(expected));
    let reversed: Vec<u32> = (0..150).rev().collect();
    assert_eq!(sort_checked(reversed), Some((0..150).collect()));
}

#[test]
fn built_tree_is_balanced_by_middle_values() {
    let root = BinarySearchTree::from(vec![7, 6, 5, 4, 3, 2, 1]).unwrap();
    assert_eq!(root.preorder(), vec![4, 2, 1, 3, 6, 5, 7]);
    let even = BinarySearchTree::from(vec![6, 5, 4, 3, 2, 1]).unwrap();
    assert_eq!(even.preorder(), vec![3, 1, 2, 5, 4, 6]);
}
