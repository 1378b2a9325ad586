use anka::hnsw::stats::{DistanceCounter, Tally};

#[test]
fn counts_only_when_instrumented() {
    let mut counter = DistanceCounter::new();
    counter.record(3);
    counter.record(1);
    assert_eq!(counter.count(), None);

    let mut tally = Tally::new();
    tally.record(3);
    tally.record(1);
    assert_eq!(tally.count(), Some(4));
}

#[test]
fn reset_clears() {
    let mut counter = DistanceCounter::new();
    counter.record(10);
    counter.reset();
    assert_eq!(counter.count(), None);

    let mut tally = Tally::new();
    tally.record(10);
    tally.reset();
    assert_eq!(tally.count(), Some(0));
}

#[test]
fn is_zero_sized_without_the_feature() {
    assert_eq!(std::mem::size_of::<DistanceCounter>(), 0);
    assert_eq!(std::mem::size_of::<Tally>(), 8);
}

#[test]
fn a_tally_stops_at_the_largest_number() {
    let mut tally = Tally::new();
    tally.record(u64::MAX);
    tally.record(1);
    assert_eq!(tally.count(), Some(u64::MAX));
}
