use std::cmp::Ordering;
use std::collections::BinaryHeap;

use anka::candidate::{put_in_order, Candidate};

fn new(dist: f32, id: u32) -> Candidate {
    Candidate::new(dist.to_bits(), id)
}

#[test]
fn orders_by_distance_then_id() {
    let mut v = vec![new(2.0, 1), new(1.0, 9), new(2.0, 0), new(1.0, 3)];
    v.sort();
    assert_eq!(v, vec![new(1.0, 3), new(1.0, 9), new(2.0, 0), new(2.0, 1)]);
}

#[test]
fn equal_distances_break_towards_the_smaller_id() {
    assert!(new(1.0, 4) < new(1.0, 5));
    assert_eq!(new(1.0, 4), new(1.0, 4));
}

#[test]
fn nan_compares_equal_to_itself() {
    let nan = new(f32::NAN, 7);
    assert_eq!(nan, nan);
    assert_eq!(nan.cmp(&nan), Ordering::Equal);
}

#[test]
fn nan_sorts_after_finite_distances() {
    assert!(new(f32::INFINITY, 0) < new(f32::NAN, 0));
    assert!(new(1e30, 0) < new(f32::NAN, 0));
}

#[test]
fn binary_heap_exposes_the_furthest_candidate() {
    let mut heap = BinaryHeap::new();
    for (dist, id) in [(3.0, 0), (1.0, 1), (2.0, 2)] {
        heap.push(new(dist, id));
    }
    assert_eq!(heap.peek(), Some(&new(3.0, 0)));
    assert_eq!(heap.into_sorted_vec(), vec![new(1.0, 1), new(2.0, 2), new(3.0, 0)]);
}

#[test]
fn distances_survive_being_ranked() {
    for dist in [0.0, -0.0, 1.5, -1.5, f32::MIN_POSITIVE, f32::MAX, -f32::MAX, f32::INFINITY] {
        assert_eq!(new(dist, 3).dist(), dist.to_bits());
    }
    assert!(new(-2.0, 0).is_before(&new(-1.0, 0)));
    assert!(new(-0.0, 0).is_before(&new(0.0, 0)));
    assert!(!new(1.0, 1).is_before(&new(1.0, 1)));
}

#[test]
fn the_order_of_arrival_does_not_matter() {
    let mut forward = vec![new(2.0, 1), new(1.0, 9), new(2.0, 0), new(-1.0, 3)];
    let mut backward: Vec<Candidate> = forward.iter().rev().copied().collect();
    put_in_order(&mut forward);
    put_in_order(&mut backward);
    assert_eq!(forward, backward);
    assert_eq!(forward, vec![new(-1.0, 3), new(1.0, 9), new(2.0, 0), new(2.0, 1)]);
}
