use basic_collections::avl_tree::{AVLTree, Side};
use basic_collections::b_tree::BTree;
use basic_collections::binary_search_tree::BinarySearchTree;
use basic_collections::heap::{Heap, HeapType};
use basic_collections::linked_list::LinkedList;
use basic_collections::queue::Queue;

#[test]
fn it_works() {
    let mut s: basic_collections::counted_stack::Stack<i32> =
        basic_collections::counted_stack::Stack::new();
    s.push(1);
    s.push(2);
    s.push(3);
    let top = s.pop();
    assert_eq!(top.unwrap(), 3);
    assert_eq!(s.size(), 2);
    assert_eq!(s.peek().unwrap(), &2);
}

#[test]
fn test_stack() {
    let mut s: basic_collections::stack::Stack<i32> = basic_collections::stack::Stack::new();
    s.push(1);
    s.push(2);
    s.push(3);
    let top = s.pop();
    assert_eq!(top.unwrap(), 3);
    assert_eq!(s.size(), 2);
    assert_eq!(s.peek().unwrap(), &2);
}

#[test]
fn test_stack_using_linked_list() {
    let mut s: basic_collections::stack_using_linked_list::Stack<i32> =
        basic_collections::stack_using_linked_list::Stack::new();
    s.push(1);
    s.push(2);
    s.pop();
    s.pop();
    s.pop();
    assert_eq!(s.is_empty(), true);
}

#[test]
fn test_queue() {
    let mut queue = Queue::new();
    queue.enqueue(1);
    queue.enqueue(2);

    queue.dequeue();
    assert_eq!(queue.size(), 1);
    assert_eq!(*queue.head().unwrap(), 2);
    queue.dequeue();

    assert_eq!(queue.size(), 0);
}

#[test]
fn test_linked_list() {
    let mut list = LinkedList::new();
    list.insert_at_head(2);
    let res = list.get_ith(0);
    println!("{:?}", res);
    println!("list: {:?}", list);
}

#[test]
fn test_bst() {
    let mut bst = BinarySearchTree::new();
    bst.insert(1);
    bst.insert(2);
    bst.insert(3);
    bst.insert(4);
    bst.insert(5);

    assert_eq!(bst.search(1), true);
    let res = bst.remove(3);
    let res = bst.remove(1);
    let _ = res;
    println!("{:#?}", bst);
    assert_eq!(bst.search(3), false);
}

#[test]
fn test_heap() {
    let mut heap = Heap::new(HeapType::Max);
    heap.push(1);
    heap.push(2);
    heap.push(3);
    println!("{:?}", heap);
    assert_eq!(heap.pop(), Some(3));
}

#[test]
fn test_avl_tree() {
    // test insert
    let mut avl_tree = AVLTree::new();
    let test_data = vec![32, 14, 51, 12, 22];
    for val in test_data {
        avl_tree.insert(val);
    }
    let root = avl_tree.root().as_ref().unwrap();
    assert_eq!(root.value(), 32);
    let test_other = vec![23, 31, 30];
    for val in test_other {
        avl_tree.insert(val);
    }
    let root = avl_tree.root().as_ref().unwrap();
    assert_eq!(root.value(), 22);
    let right = root.child(Side::Right).as_ref().unwrap();
    assert_eq!(right.value(), 32);

    // test remove
    avl_tree.remove(12);
    println!("{:?}", avl_tree.root());

    // test iter
    let mut iter = avl_tree.iter();
    let mut data = vec![];
    while let Some(val) = iter.next() {
        data.push(*val);
    }
    println!("{:?}", data);
}

#[test]
fn test_b_tree() {
    let mut b_tree = BTree::new(2);
    let test_data = vec![10, 20, 30, 5, 6, 7, 11, 12, 15];
    for val in test_data {
        b_tree.insert(val);
    }
    assert!(b_tree.search(30));
    assert_eq!(b_tree.search(16), false);
    println!("{:#?}", b_tree);
}

#[test]
fn test_union_set() {
    let mut u = basic_collections::union_set::UnionSet::new(10);
    u.union(0, 2);
    u.union(1, 2);
    u.union(2, 3);
    u.union(3, 4);
    u.union(5, 6);
    u.union(6, 7);
    u.union(7, 8);
    u.union(8, 9);
    assert_eq!(u.is_connected(1, 4), true);
    assert_eq!(u.is_connected(1, 5), false);
    assert_eq!(u.count(), 2);
}
