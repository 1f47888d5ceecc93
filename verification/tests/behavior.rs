use basic_collections::avl_tree::{AVLNode, AVLTree, Side};
use basic_collections::b_tree::BTree;
use basic_collections::binary_search_tree::BinarySearchTree;
use basic_collections::heap::{Heap, HeapType};
use basic_collections::linked_list::LinkedList;
use basic_collections::queue::Queue;
use basic_collections::stack::Stack;
use basic_collections::union_set::UnionSet;

/// The height of a subtree, recomputed from scratch; panics if any node
/// violates the balance bound on the way.
fn checked_height(node: &Option<Box<AVLNode>>) -> i64 {
    match node {
        None => 0,
        Some(n) => {
            let l = checked_height(n.child(Side::Left));
            let r = checked_height(n.child(Side::Right));
            assert!((l - r).abs() <= 1, "balance bound violated");
            1 + if l > r { l } else { r }
        }
    }
}

fn in_order(tree: &AVLTree) -> Vec<i64> {
    let mut out = Vec::new();
    let mut it = tree.iter();
    while let Some(v) = it.next() {
        out.push(*v);
    }
    out
}

#[test]
fn avl_scenario_dense_inserts_and_root_removal() {
    let mut tree = AVLTree::new();
    for v in [10, 20, 30, 5, 6, 7, 11, 12, 15] {
        assert!(tree.insert(v));
    }
    checked_height(tree.root());
    let root_value = tree.root().as_ref().unwrap().value();
    assert!(tree.remove(root_value));
    checked_height(tree.root());
    let values = in_order(&tree);
    assert!(!values.contains(&root_value));
    for v in [10, 20, 30, 5, 6, 7, 11, 12, 15] {
        if v != root_value {
            assert!(values.contains(&v));
        }
    }
    assert_eq!(tree.size(), 8);
}

#[test]
fn side_opposite_flips() {
    assert!(matches!(Side::Left.opposite(), Side::Right));
    assert!(matches!(Side::Right.opposite(), Side::Left));
}

#[test]
fn avl_remove_from_empty_tree() {
    let mut tree = AVLTree::new();
    assert_eq!(tree.remove(7), false);
    assert_eq!(tree.size(), 0);
    assert!(tree.is_empty());
    assert!(tree.root().is_none());
}

#[test]
fn avl_insert_is_idempotent() {
    let mut tree = AVLTree::new();
    assert!(tree.insert(41));
    assert_eq!(tree.size(), 1);
    assert_eq!(tree.insert(41), false);
    assert_eq!(tree.size(), 1);
    assert_eq!(in_order(&tree), vec![41]);
}

#[test]
fn avl_round_trip_leaves_tree_empty() {
    let mut tree = AVLTree::new();
    let values = [8, 3, 10, 1, 6, 14, 4, 7, 13];
    for v in values {
        assert!(tree.insert(v));
    }
    assert_eq!(tree.size(), values.len());
    for v in values {
        assert!(tree.remove(v));
        checked_height(tree.root());
    }
    assert_eq!(tree.size(), 0);
    assert!(tree.root().is_none());
}

#[test]
fn avl_iteration_is_sorted_and_complete() {
    let mut tree = AVLTree::new();
    for v in [5, -3, 9, 0, 22, -17, 5, 9] {
        tree.insert(v);
    }
    let values = in_order(&tree);
    assert_eq!(values, vec![-17, -3, 0, 5, 9, 22]);
    assert_eq!(values.len(), tree.size());
}

#[test]
fn avl_balance_survives_ascending_inserts() {
    let mut tree = AVLTree::new();
    for v in 0..100 {
        assert!(tree.insert(v));
        checked_height(tree.root());
    }
    // 100 values in a balanced tree cannot stack higher than 2 log n
    assert!(checked_height(tree.root()) <= 13);
    let values = in_order(&tree);
    assert_eq!(values, (0..100).collect::<Vec<i64>>());
}

#[test]
fn stack_pop_and_peek_on_empty() {
    let mut s: Stack<u8> = Stack::new();
    assert_eq!(s.pop(), None);
    assert!(s.peek().is_none());
    assert!(s.is_empty());
}

#[test]
fn counted_stack_mirrors_plain_stack() {
    let mut s: basic_collections::counted_stack::Stack<&str> =
        basic_collections::counted_stack::Stack::new();
    assert_eq!(s.pop(), None);
    s.push("a");
    s.push("b");
    assert_eq!(s.size(), 2);
    assert_eq!(s.pop(), Some("b"));
    assert_eq!(s.pop(), Some("a"));
    assert_eq!(s.pop(), None);
}

#[test]
fn queue_keeps_arrival_order() {
    let mut q = Queue::new();
    assert_eq!(q.dequeue(), None);
    for v in 1..=5 {
        q.enqueue(v);
    }
    assert_eq!(*q.head().unwrap(), 1);
    assert_eq!(*q.tail().unwrap(), 5);
    for v in 1..=5 {
        assert_eq!(q.dequeue(), Some(v));
    }
    assert!(q.is_empty());
}

#[test]
fn linked_list_positional_operations() {
    let mut list = LinkedList::new();
    list.insert_at_head(2);
    list.insert_at_ith(1, 0);
    list.insert_at_ith(4, 2);
    list.insert_at_ith(3, 2);
    assert_eq!(list.size(), 4);
    for (i, v) in [1, 2, 3, 4].iter().enumerate() {
        assert_eq!(list.get_ith(i), Some(v));
    }
    assert_eq!(list.delete_ith(1), Some(2));
    assert_eq!(list.delete_head(), Some(1));
    assert_eq!(list.delete_tail(), Some(4));
    assert_eq!(list.delete_tail(), Some(3));
    assert_eq!(list.delete_head(), None);
    assert!(list.is_empty());
}

#[test]
fn bst_removal_cases() {
    let mut bst = BinarySearchTree::new();
    for v in [50, 30, 70, 20, 40, 60, 80] {
        bst.insert(v);
    }
    // a leaf
    assert!(bst.remove(20));
    assert!(!bst.search(20));
    // a node with two children
    assert!(bst.remove(30));
    assert!(!bst.search(30));
    assert!(bst.search(40));
    // the root, twice over
    assert!(bst.remove(50));
    assert!(!bst.search(50));
    for v in [40, 60, 70, 80] {
        assert!(bst.search(v));
    }
    // an absent value
    assert!(!bst.remove(99));
}

#[test]
fn heap_min_orientation_pops_ascending() {
    let mut heap = Heap::new(HeapType::Min);
    assert_eq!(heap.pop(), None);
    for v in [5, 1, 4, 2, 3, 2] {
        heap.push(v);
    }
    assert_eq!(heap.size(), 6);
    assert_eq!(*heap.peek().unwrap(), 1);
    let mut drained = Vec::new();
    while let Some(v) = heap.pop() {
        drained.push(v);
    }
    assert_eq!(drained, vec![1, 2, 2, 3, 4, 5]);
    assert!(heap.is_empty());
}

#[test]
fn heap_max_orientation_pops_descending() {
    let mut heap = Heap::new(HeapType::Max);
    for v in [-7, 0, 13, 5, 13] {
        heap.push(v);
    }
    let mut drained = Vec::new();
    while let Some(v) = heap.pop() {
        drained.push(v);
    }
    assert_eq!(drained, vec![13, 13, 5, 0, -7]);
}

#[test]
fn b_tree_splits_and_duplicates() {
    let mut tree = BTree::new(2);
    for v in [1, 2, 3, 4, 5, 6, 7, 8, 9, 10, 5] {
        tree.insert(v);
    }
    for v in 1..=10 {
        assert!(tree.search(v));
    }
    assert!(!tree.search(0));
    assert!(!tree.search(11));
}

#[test]
fn b_tree_traverse_lists_every_key() {
    let mut tree = BTree::new(2);
    for v in [10, 20, 30, 5, 6, 7, 11, 12, 15] {
        tree.insert(v);
    }
    let keys = tree.traverse();
    assert_eq!(keys, vec![5, 6, 7, 10, 11, 12, 15, 20, 30]);
}

#[test]
fn union_set_counts_and_connects() {
    let mut u = UnionSet::new(5);
    assert_eq!(u.count(), 5);
    assert!(u.is_connected(3, 3));
    assert!(!u.is_connected(0, 1));
    u.union(0, 1);
    assert_eq!(u.count(), 4);
    u.union(1, 0);
    assert_eq!(u.count(), 4);
    u.union(3, 4);
    u.union(0, 4);
    assert_eq!(u.count(), 2);
    assert!(u.is_connected(1, 3));
    assert_eq!(u.find(0), u.find(4));
    assert_ne!(u.find(2), u.find(0));
}
