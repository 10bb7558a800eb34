use mpsc::spsc::supports_capacity;
use mpsc::{likely, unlikely};

#[test]
fn likely_returns_its_argument() {
    assert!(likely(true));
    assert!(!likely(false));
}

#[test]
fn unlikely_returns_its_argument() {
    assert!(unlikely(true));
    assert!(!unlikely(false));
}

#[test]
fn a_lane_needs_at_least_one_slot() {
    assert!(!supports_capacity(0));
    assert!(supports_capacity(1));
    assert!(supports_capacity(4096));
}

#[test]
fn a_lane_cannot_outgrow_one_allocation() {
    let most = isize::MAX as usize / std::mem::size_of::<usize>();
    assert!(supports_capacity(most));
    assert!(!supports_capacity(most + 1));
    assert!(!supports_capacity(usize::MAX));
}
