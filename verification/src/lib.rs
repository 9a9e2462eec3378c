//! Classic data structures and sorting algorithms, verified: an unbalanced
//! binary search tree, insertion sort, shell sort, and a family of stack
//! structures (three stacks multiplexed over one vector, a constant-time
//! minimum stack, a queue built from two stacks, and a stack sorter).

pub mod bstree;
pub mod btree;
pub mod const_stack;
pub mod insertion_sort;
pub mod shell_sort;
pub mod stack_sort;
pub mod tri_stack;
pub mod two_stack_queue;
