use exercises::const_stack::ConstStack;
use exercises::stack_sort::StackSort;
use exercises::tri_stack::{StackChoice, TriStack};
use exercises::two_stack_queue::TwoStackQueue;

#[test]
fn test_tristack() {
    let mut tstack: TriStack = TriStack::new();

    tstack.push(StackChoice::First, 1);
    tstack.push(StackChoice::Second, 4);
    tstack.push(StackChoice::Third, 7);

    tstack.push(StackChoice::First, 2);
    assert_eq!(tstack.pop(StackChoice::First), Some(2));
    tstack.push(StackChoice::First, 3);

    tstack.push(StackChoice::Second, 5);
    assert_eq!(tstack.pop(StackChoice::Second), Some(5));
    tstack.push(StackChoice::Second, 6);

    tstack.push(StackChoice::Third, 8);
    assert_eq!(tstack.pop(StackChoice::Third), Some(8));
    tstack.push(StackChoice::Third, 9);

    assert_eq!(tstack.pop(StackChoice::Third), Some(9));
    assert_eq!(tstack.pop(StackChoice::Third), Some(7));
    assert_eq!(tstack.pop(StackChoice::Third), None);

    assert_eq!(tstack.pop(StackChoice::Second), Some(6));
    assert_eq!(tstack.pop(StackChoice::Second), Some(4));
    assert_eq!(tstack.pop(StackChoice::Second), None);

    assert_eq!(tstack.pop(StackChoice::First), Some(3));
    assert_eq!(tstack.pop(StackChoice::First), Some(1));
    assert_eq!(tstack.pop(StackChoice::First), None);
}

#[test]
fn test_find_top_element() {
    let mut t = TriStack { slots: vec![Some(1), Some(2), Some(3), Some(4), Some(5), Some(6)] };

    let top_1 = t.find_top_element(StackChoice::First);
    let top_2 = t.find_top_element(StackChoice::Second);
    let top_3 = t.find_top_element(StackChoice::Third);

    assert_eq!(top_1, Some((3, &Some(4))));
    assert_eq!(top_2, Some((4, &Some(5))));
    assert_eq!(top_3, Some((5, &Some(6))));

    t.slots.pop();
    t.slots.pop();

    let top_1 = t.find_top_element(StackChoice::First);
    let top_2 = t.find_top_element(StackChoice::Second);
    let top_3 = t.find_top_element(StackChoice::Third);

    assert_eq!(top_1, Some((3, &Some(4))));
    assert_eq!(top_2, Some((1, &Some(2))));
    assert_eq!(top_3, Some((2, &Some(3))));
}

#[test]
fn tristack_lanes_are_independent() {
    let mut s = TriStack::new();

    s.push(StackChoice::First, 1);
    s.push(StackChoice::Second, 3);
    s.push(StackChoice::Third, 7);
    s.push(StackChoice::First, 2);

    assert_eq!(s.pop(StackChoice::First), Some(2));
    assert_eq!(s.pop(StackChoice::First), Some(1));
    assert_eq!(s.pop(StackChoice::First), None);

    assert_eq!(s.pop(StackChoice::Second), Some(3));
    assert_eq!(s.pop(StackChoice::Third), Some(7));
}

#[test]
fn test_const_stack() {
    let mut o1 = ConstStack::new();
    o1.push(2);
    o1.push(1);
    o1.push(3);

    assert_eq!(o1.min(), Some(1));

    assert_eq!(o1.pop(), Some(3));

    assert_eq!(o1.pop(), Some(1));

    assert_eq!(o1.min(), Some(2));

    assert_eq!(o1.pop(), Some(2));

    assert_eq!(o1.pop(), None);

    assert_eq!(o1.min(), None);

    o1.push(100);

    assert_eq!(o1.min(), Some(100));

    o1.push(50);
    o1.push(101);
    o1.push(102);
    o1.push(103);

    assert_eq!(o1.min(), Some(50));
}

#[test]
fn test_two_stack_queue() {
    let mut q = TwoStackQueue::new();

    assert_eq!(q.pop(), None);

    q.push(1);
    q.push(2);
    q.push(1);
    q.push(3);
    q.push(2);
    q.push(3);

    assert_eq!(q.pop(), Some(1));
    assert_eq!(q.pop(), Some(2));
    assert_eq!(q.pop(), Some(1));
    assert_eq!(q.pop(), Some(3));
    assert_eq!(q.pop(), Some(2));
    assert_eq!(q.pop(), Some(3));
    assert_eq!(q.pop(), None);
    assert_eq!(q.pop(), None);

    q.push(4);
    q.push(5);

    assert_eq!(q.pop(), Some(4));
    assert_eq!(q.pop(), Some(5));
    assert_eq!(q.pop(), None);
}

#[test]
fn queue_is_fifo_under_interleaving() {
    let mut q = TwoStackQueue::new();

    q.push(1);
    q.push(2);
    assert_eq!(q.pop(), Some(1));
    q.push(3);
    assert_eq!(q.pop(), Some(2));
    q.push(4);
    assert_eq!(q.pop(), Some(3));
    assert_eq!(q.pop(), Some(4));
    assert_eq!(q.pop(), None);
}

#[test]
fn test_stack_sort() {
    let mut s = StackSort::new();

    // Check our methods work with an empty stack
    assert_eq!(s.is_empty(), true);
    assert_eq!(s.peek(), None);
    assert_eq!(s.pop(), None);

    s.push(1);

    // Check is_empty and peek work
    assert_eq!(s.is_empty(), false);
    assert_eq!(s.peek(), Some(1));

    // Populate the stack with _unsorted_ elements
    s.push(2);
    s.push(6);
    s.push(4);
    s.push(3);
    s.push(5);

    // Double check the stack has not been tampered with
    assert_eq!(s.peek(), Some(5));

    // Make the call to sort the stack
    s.sort();

    // Double check the stack has been modified
    assert_eq!(s.peek(), Some(6));

    // Assert the list was sorted by popping all elements from the stack
    // We exect it to be sorted in descending order
    assert_eq!(s.pop(), Some(6));
    assert_eq!(s.pop(), Some(5));
    assert_eq!(s.pop(), Some(4));
    assert_eq!(s.pop(), Some(3));
    assert_eq!(s.pop(), Some(2));
    assert_eq!(s.pop(), Some(1));
    assert_eq!(s.pop(), None);
}

#[test]
fn stack_sort_scratch_stack_methods() {
    let mut s = StackSort::new();

    assert_eq!(s.peek_temp(), None);
    assert_eq!(s.pop_temp(), None);

    s.push_temp(2);
    assert_eq!(s.peek_temp(), Some(2));
    assert_eq!(s.pop_temp(), Some(2));
    assert_eq!(s.pop_temp(), None);
}

#[test]
fn stack_sort_folds_in_scratch_contents() {
    let mut s = StackSort::new();

    // Scratch contents ordered with the smallest on top take part in the
    // sort alongside the primary stack.
    s.push_temp(9);
    s.push_temp(4);
    s.push(7);
    s.push(7);

    s.sort();

    assert_eq!(s.pop(), Some(9));
    assert_eq!(s.pop(), Some(7));
    assert_eq!(s.pop(), Some(7));
    assert_eq!(s.pop(), Some(4));
    assert_eq!(s.pop(), None);
}

#[test]
fn stack_sort_handles_duplicates() {
    let mut s = StackSort::new();
    s.push(9);
    s.push(5);
    s.push(5);

    s.sort();

    assert_eq!(s.pop(), Some(9));
    assert_eq!(s.pop(), Some(5));
    assert_eq!(s.pop(), Some(5));
    assert_eq!(s.pop(), None);
}

#[test]
fn const_stack_min_tracks_pushes_and_pops() {
    let mut s = ConstStack::new();
    s.push(5);
    assert_eq!(s.min(), Some(5));
    s.push(7);
    assert_eq!(s.min(), Some(5));
    s.push(3);
    assert_eq!(s.min(), Some(3));
    assert_eq!(s.pop(), Some(3));
    assert_eq!(s.min(), Some(5));
    assert_eq!(s.pop(), Some(7));
    assert_eq!(s.pop(), Some(5));
    assert_eq!(s.min(), None);
}

#[test]
fn empty_structures_yield_empty_and_stay_unchanged() {
    let mut t = TriStack::new();
    assert_eq!(t.pop(StackChoice::First), None);
    assert_eq!(t.pop(StackChoice::Second), None);
    assert_eq!(t.pop(StackChoice::Third), None);
    assert!(t.find_top_element(StackChoice::First).is_none());
    assert_eq!(t.slots, Vec::new());

    let mut c = ConstStack::new();
    assert_eq!(c.pop(), None);
    assert_eq!(c.min(), None);
    assert_eq!(c.pop(), None);

    let mut q = TwoStackQueue::new();
    assert_eq!(q.pop(), None);
    assert_eq!(q.pop(), None);

    let mut s = StackSort::new();
    assert_eq!(s.pop(), None);
    assert_eq!(s.peek(), None);
    assert_eq!(s.is_empty(), true);
    s.sort();
    assert_eq!(s.pop(), None);
}
