use pleroma_core::evaluate_feed;
use pleroma_core::prove_dimensional_integrity;
use pleroma_core::FeedVerdict;

#[test]
fn integrity_accepts_exact_multiples() {
    assert!(prove_dimensional_integrity(10, 5));
    assert!(prove_dimensional_integrity(0, 7));
    assert!(prove_dimensional_integrity(21, 21));
    assert!(prove_dimensional_integrity(u32::MAX, 1));
}

#[test]
fn integrity_rejects_remainders_and_zero_divisor() {
    assert!(!prove_dimensional_integrity(10, 3));
    assert!(!prove_dimensional_integrity(1, 2));
    assert!(!prove_dimensional_integrity(5, 0));
    assert!(!prove_dimensional_integrity(0, 0));
}

#[test]
fn deterministic_feed_collapses_aligned_signal() {
    let v = evaluate_feed(10, 5, true);
    assert_eq!(v, FeedVerdict { value_1d: 2, is_hallucinating: false });
    let v = evaluate_feed(0, 9, true);
    assert_eq!(v, FeedVerdict { value_1d: 0, is_hallucinating: false });
}

#[test]
fn deterministic_feed_rejects_noisy_signal() {
    let v = evaluate_feed(10, 3, true);
    assert_eq!(v, FeedVerdict { value_1d: 0, is_hallucinating: true });
    let v = evaluate_feed(4, 0, true);
    assert_eq!(v, FeedVerdict { value_1d: 0, is_hallucinating: true });
}

#[test]
fn relaxed_feed_passes_value_through() {
    let v = evaluate_feed(123, 0, false);
    assert_eq!(v, FeedVerdict { value_1d: 123, is_hallucinating: false });
    let v = evaluate_feed(10, 3, false);
    assert_eq!(v, FeedVerdict { value_1d: 10, is_hallucinating: false });
}
