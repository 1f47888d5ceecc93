//! Classic in-memory data structures with machine-checked contracts:
//! array-backed stacks, a list with positional access, a queue, binary
//! search trees (plain and AVL-balanced), a binary heap, a B-tree and a
//! union-find structure.

pub mod avl_tree;
pub mod b_tree;
pub mod binary_search_tree;
pub mod counted_stack;
pub mod heap;
pub mod linked_list;
pub mod queue;
pub mod stack;
pub mod union_set;
pub mod stack_using_linked_list;
