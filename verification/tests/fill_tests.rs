use lyrics_shape::fill::{filled, shared};
use lyrics_shape::Duration;

fn ns(n: u128) -> Duration {
    Duration::from_nanos(n)
}

fn secs(n: u64) -> Duration {
    Duration::from_secs(n)
}

#[test]
fn shares_a_gap_evenly() {
    assert_eq!(shared(secs(1), secs(3), 2), vec![(secs(1), secs(2)), (secs(2), secs(3))]);
}

#[test]
fn sharing_into_no_slots_gives_nothing() {
    assert!(shared(secs(1), secs(3), 0).is_empty());
}

#[test]
fn a_backwards_gap_has_no_time() {
    assert_eq!(shared(secs(3), secs(1), 2), vec![(secs(3), secs(3)), (secs(3), secs(3))]);
}

#[test]
fn shares_are_rounded_to_the_nearest_nanosecond() {
    assert_eq!(shared(ns(0), ns(2), 3), vec![(ns(0), ns(1)), (ns(1), ns(1)), (ns(1), ns(2))]);
}

#[test]
fn gaps_between_known_spans_are_shared() {
    let spans = vec![Some((ns(0), ns(0))), None, None, None, Some((ns(2), ns(5)))];
    let hints = vec![(ns(100), ns(200)); 5];
    let settled = filled(spans, &hints);
    assert_eq!(settled, vec![
        (ns(0), ns(0)),
        (ns(0), ns(1)),
        (ns(1), ns(1)),
        (ns(1), ns(2)),
        (ns(2), ns(5)),
    ]);
}

#[test]
fn leading_gaps_use_hints_clamped_before_the_next_span() {
    let spans = vec![None, Some((ns(50), ns(60)))];
    let hints = vec![(ns(40), ns(70)), (ns(0), ns(0))];
    let settled = filled(spans, &hints);
    assert_eq!(settled, vec![(ns(40), ns(50)), (ns(50), ns(60))]);
}

#[test]
fn trailing_gaps_start_after_the_last_span() {
    let spans = vec![Some((ns(10), ns(20))), None];
    let hints = vec![(ns(0), ns(0)), (ns(5), ns(8))];
    let settled = filled(spans, &hints);
    assert_eq!(settled, vec![(ns(10), ns(20)), (ns(20), ns(20))]);
}
