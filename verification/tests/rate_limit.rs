use itx::ratelimit::{check_and_record, cleanup, cleanup_at, new_table, MAX_REQUESTS_PER_WINDOW, WINDOW_SECONDS};
use itx::time::Timestamp;

/// 127.0.0.1 as an IPv4-mapped IPv6 address.
const LOCALHOST: u128 = 0xffff_7f00_0001;
/// 10.0.0.1 as an IPv4-mapped IPv6 address.
const TEN_ONE: u128 = 0xffff_0a00_0001;

#[test]
fn allows_requests_within_the_limit_and_rejects_beyond_it() {
    let mut table = new_table();
    let ip = LOCALHOST;
    let now = Timestamp::now();
    for _ in 0..MAX_REQUESTS_PER_WINDOW {
        assert!(check_and_record(&mut table, ip, now));
    }
    assert!(!check_and_record(&mut table, ip, now), "one past the limit must be rejected");
}

#[test]
fn resets_after_the_window_elapses() {
    let mut table = new_table();
    let ip = LOCALHOST;
    let now = Timestamp::now();
    for _ in 0..MAX_REQUESTS_PER_WINDOW {
        assert!(check_and_record(&mut table, ip, now));
    }
    assert!(!check_and_record(&mut table, ip, now));

    let later = now.plus_seconds(WINDOW_SECONDS + 1);
    assert!(check_and_record(&mut table, ip, later), "a new window must start fresh");
}

#[test]
fn tracks_different_ips_independently() {
    let mut table = new_table();
    let a = LOCALHOST;
    let b = TEN_ONE;
    let now = Timestamp::now();
    for _ in 0..MAX_REQUESTS_PER_WINDOW {
        assert!(check_and_record(&mut table, a, now));
    }
    assert!(!check_and_record(&mut table, a, now));
    assert!(check_and_record(&mut table, b, now), "a different IP must not be affected by another's limit");
}

#[test]
fn cleanup_evicts_only_lapsed_windows() {
    let mut table = new_table();
    let stale = LOCALHOST;
    let fresh = TEN_ONE;
    let now = Timestamp::now();
    check_and_record(&mut table, stale, now.plus_seconds(-(WINDOW_SECONDS + 5)));
    check_and_record(&mut table, fresh, now);

    cleanup(&mut table);

    assert!(table.get(stale).is_none());
    assert!(table.get(fresh).is_some());
}

#[test]
fn a_window_exactly_one_length_old_still_counts() {
    let mut table = new_table();
    let now = Timestamp::now();
    check_and_record(&mut table, LOCALHOST, now);
    check_and_record(&mut table, LOCALHOST, now.plus_seconds(WINDOW_SECONDS));
    let w = table.get(LOCALHOST).unwrap();
    assert_eq!(w.started_at, now);
    assert_eq!(w.count, 2);
}

#[test]
fn cleanup_at_keeps_a_window_started_just_inside_the_cutoff() {
    let mut table = new_table();
    let now = Timestamp::now();
    check_and_record(&mut table, LOCALHOST, now.plus_seconds(-WINDOW_SECONDS));
    check_and_record(&mut table, TEN_ONE, now.plus_seconds(1 - WINDOW_SECONDS));
    cleanup_at(&mut table, now);
    assert!(table.get(LOCALHOST).is_none(), "started exactly at the cutoff: evicted");
    assert_eq!(table.get(TEN_ONE).unwrap().count, 1);
}
