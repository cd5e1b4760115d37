use itx::peers::{applied_offset, median_of_seconds, TimeSamples, MAX_SAMPLES};

#[test]
fn median_of_seconds_requires_a_minimum_sample_count() {
    assert_eq!(median_of_seconds(&vec![1, 2, 3]), None);
}

#[test]
fn median_of_seconds_computes_the_middle_value() {
    // sorted: -5, 3, 7, 10, 100 -> median is 7
    assert_eq!(median_of_seconds(&vec![10, -5, 3, 100, 7]), Some(7));
}

#[test]
fn median_of_an_even_count_takes_the_upper_middle() {
    // sorted: 1, 2, 3, 4, 5, 6 -> index 3
    assert_eq!(median_of_seconds(&vec![6, 5, 4, 3, 2, 1]), Some(4));
}

#[test]
fn applied_offset_ignores_a_median_past_seventy_minutes() {
    assert_eq!(applied_offset(None), 0);
    assert_eq!(applied_offset(Some(70 * 60 + 59)), 70 * 60 + 59);
    assert_eq!(applied_offset(Some(71 * 60)), 0);
    assert_eq!(applied_offset(Some(-(70 * 60 + 59))), -(70 * 60 + 59));
    assert_eq!(applied_offset(Some(-71 * 60)), 0);
}

#[test]
fn record_sample_applies_nothing_until_five_peers_report() {
    let mut samples = TimeSamples::new();
    for peer in 0..4u128 {
        assert_eq!(samples.record_sample(peer, 30), Some(0));
    }
    assert_eq!(samples.record_sample(4, 30), Some(30));
}

#[test]
fn record_sample_replaces_a_peers_earlier_sample() {
    let mut samples = TimeSamples::new();
    for peer in 0..5u128 {
        samples.record_sample(peer, 10);
    }
    // peer 0 changes its mind: still five samples, median now 10
    assert_eq!(samples.record_sample(0, 1000), Some(10));
    for peer in 1..3u128 {
        samples.record_sample(peer, 1000);
    }
    // three of five at 1000 seconds: the median moves
    assert_eq!(samples.record_sample(3, 10), Some(1000));
}

#[test]
fn record_sample_ignores_new_peers_once_full() {
    let mut samples = TimeSamples::new();
    for peer in 0..MAX_SAMPLES as u128 {
        samples.record_sample(peer, 5);
    }
    assert_eq!(samples.record_sample(10_000, 5), None);
    assert!(samples.record_sample(0, 5).is_some());
}
