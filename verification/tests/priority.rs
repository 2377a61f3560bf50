use janlukas::priority::{compare_cost, PriorityQueue};
use std::cmp::Ordering;

#[test]
fn new_makes_empty_queue() {
    let queue: PriorityQueue<i32, i32> = PriorityQueue::new();
    assert!(queue.is_empty());
}

#[test]
fn can_pop_pushed_element() {
    let mut queue = PriorityQueue::new();
    queue.push(12, 51.2);
    assert_eq!(queue.pop(), Some(12));
}

#[test]
fn pop_removes_element() {
    let mut queue = PriorityQueue::new();
    queue.push(12, 51.2);
    queue.pop();
    assert!(queue.is_empty());
}

#[test]
fn pop_with_empty_queue_returns_none() {
    let mut queue: PriorityQueue<i32, i32> = PriorityQueue::new();
    assert_eq!(queue.pop(), None);
}

#[test]
fn pop_returns_element_with_lowest_cost() {
    let mut queue = PriorityQueue::new();
    queue.push("a", 1.3);
    queue.push("b", 0.12);
    queue.push("c", 3.1);
    assert_eq!(queue.pop(), Some("b"));
    assert_eq!(queue.pop(), Some("a"));
    assert_eq!(queue.pop(), Some("c"));
}

#[test]
fn clear_makes_queue_empty() {
    let mut queue = PriorityQueue::new();
    queue.push("a", 1.3);
    assert!(!queue.is_empty());
    queue.clear();
    assert!(queue.is_empty());
}

#[test]
fn with_capacity_makes_empty_queue() {
    let mut queue: PriorityQueue<u8, u64> = PriorityQueue::with_capacity(64);
    assert!(queue.is_empty());
    assert_eq!(queue.pop(), None);
}

#[test]
fn pops_come_in_non_decreasing_cost_order() {
    let costs: [u64; 12] = [41, 7, 7, 93, 0, 15, 62, 7, 28, 3, 93, 11];
    let mut queue = PriorityQueue::new();
    for (i, c) in costs.iter().enumerate() {
        queue.push((i, *c), *c);
    }
    let mut last = 0;
    let mut seen = Vec::new();
    while let Some((i, c)) = queue.pop() {
        assert!(c >= last);
        last = c;
        seen.push(i);
    }
    seen.sort();
    assert_eq!(seen, (0..12).collect::<Vec<usize>>());
    assert!(queue.is_empty());
}

#[test]
fn duplicate_values_are_kept() {
    let mut queue = PriorityQueue::new();
    queue.push("a", 5);
    queue.push("a", 2);
    queue.push("b", 3);
    assert_eq!(queue.pop(), Some("a"));
    assert_eq!(queue.pop(), Some("b"));
    assert_eq!(queue.pop(), Some("a"));
    assert_eq!(queue.pop(), None);
}

#[test]
fn pushes_between_pops_are_ordered_too() {
    let mut queue = PriorityQueue::new();
    queue.push(1, 4.0);
    queue.push(2, 1.0);
    assert_eq!(queue.pop(), Some(2));
    queue.push(3, 0.5);
    queue.push(4, 9.0);
    assert_eq!(queue.pop(), Some(3));
    assert_eq!(queue.pop(), Some(1));
    assert_eq!(queue.pop(), Some(4));
    assert_eq!(queue.pop(), None);
}

#[test]
fn compare_cost_orders_numbers() {
    assert_eq!(compare_cost(1, 2), Ordering::Less);
    assert_eq!(compare_cost(2, 2), Ordering::Equal);
    assert_eq!(compare_cost(3, 2), Ordering::Greater);
    assert_eq!(compare_cost(0.5, 0.75), Ordering::Less);
}

#[test]
fn compare_cost_counts_nan_as_greater() {
    assert_eq!(compare_cost(f64::NAN, 1.0), Ordering::Greater);
    assert_eq!(compare_cost(1.0, f64::NAN), Ordering::Greater);
}
