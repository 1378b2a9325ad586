use anka::hnsw::visited::VisitedList;

#[test]
fn marks_and_reports_first_visit() {
    let mut visited = VisitedList::new(8);
    visited.begin();

    assert!(visited.visit(3));
    assert!(!visited.visit(3));
    assert!(visited.is_visited(3));
    assert!(!visited.is_visited(4));
}

#[test]
fn the_first_query_does_not_start_at_epoch_zero() {
    let mut visited = VisitedList::new(4);
    visited.begin();
    for node in 0..4 {
        assert!(
            visited.visit(node),
            "node {node} must be unvisited on the first query"
        );
    }
}

#[test]
fn a_new_query_forgets_the_previous_one() {
    let mut visited = VisitedList::new(4);
    visited.begin();
    visited.visit(1);
    assert!(visited.is_visited(1));

    visited.begin();
    assert!(!visited.is_visited(1));
    assert!(visited.visit(1));
}

#[test]
fn wrapping_the_epoch_clears_stale_stamps() {
    let mut visited = VisitedList::new(4);

    visited.begin();
    visited.visit(2);

    // Cycle all the way around back to the same epoch value.
    for _ in 0..u16::MAX as u32 {
        visited.begin();
    }

    assert!(
        !visited.is_visited(2),
        "a stamp from a wrapped-around epoch must not count as visited"
    );
    assert!(visited.visit(2));
}

#[test]
fn every_epoch_in_a_full_cycle_starts_clean() {
    let mut visited = VisitedList::new(2);
    for query in 0..(u16::MAX as u32 + 3) {
        visited.begin();
        assert!(
            visited.visit(0),
            "node 0 was already marked at query {query}"
        );
        assert!(!visited.visit(0));
    }
}

#[test]
fn growing_preserves_the_current_query() {
    let mut visited = VisitedList::new(2);
    visited.begin();
    visited.visit(1);

    visited.ensure_capacity(10);
    assert_eq!(visited.capacity(), 10);
    assert!(visited.is_visited(1));
    assert!(!visited.is_visited(9));
    assert!(visited.visit(9));
}

#[test]
fn shrinking_is_not_attempted() {
    let mut visited = VisitedList::new(10);
    visited.ensure_capacity(2);
    assert_eq!(visited.capacity(), 10);
}

#[test]
fn memory_is_two_bytes_per_node() {
    let visited = VisitedList::new(1_000_000);
    assert_eq!(visited.memory_bytes(), 2_000_000);
}

#[test]
fn a_node_that_there_was_no_room_for_is_not_marked() {
    let mut visited = VisitedList::new(4);
    visited.begin();
    assert!(visited.visit(3));
    visited.ensure_capacity(6);
    assert!(!visited.is_visited(4));
    assert!(visited.visit(5));
    assert!(visited.is_visited(3));

    // Before the first query everything counts as visited, new room too.
    let mut early = VisitedList::new(1);
    early.ensure_capacity(3);
    assert!(early.is_visited(0) && early.is_visited(2));
}
