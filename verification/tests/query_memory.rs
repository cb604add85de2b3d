//! The memory budget of a query.
use chronix::query::error::QueryError;
use chronix::query::memory::MemoryTracker;


#[test]
fn basic_allocate_deallocate() {
    let mut t = MemoryTracker::new(1000);
    assert_eq!(t.budget(), 1000);
    assert_eq!(t.allocated(), 0);
    assert_eq!(t.remaining(), 1000);

    t.try_allocate(400).unwrap();
    assert_eq!(t.allocated(), 400);
    assert_eq!(t.remaining(), 600);

    t.try_allocate(600).unwrap();
    assert_eq!(t.allocated(), 1000);
    assert_eq!(t.remaining(), 0);

    t.deallocate(300);
    assert_eq!(t.allocated(), 700);
    assert_eq!(t.remaining(), 300);
}

#[test]
fn exceeds_budget() {
    let mut t = MemoryTracker::new(100);
    t.try_allocate(60).unwrap();

    let err = t.try_allocate(50).unwrap_err();
    match err {
        QueryError::QueryMemoryExceeded {
            requested,
            allocated,
            budget,
        } => {
            assert_eq!(requested, 50);
            assert_eq!(allocated, 60);
            assert_eq!(budget, 100);
        }
        other => panic!("unexpected error: {other:?}"),
    }

    // Original allocation unchanged after failure.
    assert_eq!(t.allocated(), 60);
}

#[test]
fn exact_budget() {
    let mut t = MemoryTracker::new(100);
    t.try_allocate(100).unwrap();
    assert_eq!(t.allocated(), 100);
    assert_eq!(t.remaining(), 0);

    // One more byte fails.
    assert!(t.try_allocate(1).is_err());
}

#[test]
fn zero_budget() {
    let mut t = MemoryTracker::new(0);
    assert!(t.try_allocate(1).is_err());
    // Zero allocation always succeeds.
    t.try_allocate(0).unwrap();
}

#[test]
fn deallocate_full() {
    let mut t = MemoryTracker::new(500);
    t.try_allocate(500).unwrap();
    t.deallocate(500);
    assert_eq!(t.allocated(), 0);
    assert_eq!(t.remaining(), 500);

    // Can allocate again.
    t.try_allocate(500).unwrap();
}

#[test]
fn error_display() {
    let mut t = MemoryTracker::new(100);
    t.try_allocate(80).unwrap();
    let err = t.try_allocate(30).unwrap_err();
    let msg = err.to_text();
    assert!(msg.contains("30"), "should mention requested bytes");
    assert!(msg.contains("80"), "should mention allocated bytes");
    assert!(msg.contains("100"), "should mention budget");
}

#[test]
fn a_failed_allocation_leaves_the_budget_as_it_was() {
    let mut t = MemoryTracker::new(10);
    t.try_allocate(4).unwrap();
    assert!(t.try_allocate(7).is_err());
    t.try_allocate(6).unwrap();
    assert_eq!(t.remaining(), 0);
}
