use itx::peers::{choose_best_tip, PeerPolicy, StrikeOutcome, MAX_STRIKES};
use itx::time::Timestamp;
use itx::u256::U256;

const PEER: u128 = 0xffff_0a00_0002;

#[test]
fn a_severe_violation_bans_at_once() {
    let mut policy = PeerPolicy::new();
    let now = Timestamp::now();
    let outcome = policy.strike(PEER, true, now);
    assert_eq!(outcome, StrikeOutcome::Banned(now.plus_minutes(60)));
    assert!(policy.is_banned(PEER, now));
    assert!(!policy.is_banned(PEER, now.plus_minutes(61)));
}

#[test]
fn strikes_within_the_window_escalate_to_a_ban() {
    let mut policy = PeerPolicy::new();
    let now = Timestamp::now();
    for n in 1..MAX_STRIKES {
        assert_eq!(policy.strike(PEER, false, now.plus_minutes(n as i64)), StrikeOutcome::Counted(n));
        assert!(!policy.is_banned(PEER, now));
    }
    let last = now.plus_minutes(5);
    assert_eq!(policy.strike(PEER, false, last), StrikeOutcome::Banned(last.plus_minutes(60)));
    assert!(policy.is_banned(PEER, last));
}

#[test]
fn a_lapsed_strike_window_starts_over() {
    let mut policy = PeerPolicy::new();
    let now = Timestamp::now();
    assert_eq!(policy.strike(PEER, false, now), StrikeOutcome::Counted(1));
    assert_eq!(policy.strike(PEER, false, now.plus_minutes(1)), StrikeOutcome::Counted(2));
    assert_eq!(policy.strike(PEER, false, now.plus_minutes(11)), StrikeOutcome::Counted(1));
}

#[test]
fn the_best_tip_is_the_first_with_the_most_work() {
    let tips = vec![
        ("a:1".to_string(), 5u32, U256::from_u64(10)),
        ("b:1".to_string(), 3u32, U256::from_u64(30)),
        ("c:1".to_string(), 9u32, U256::from_u64(30)),
    ];
    assert_eq!(choose_best_tip(&tips), ("b:1".to_string(), 3));
    assert_eq!(choose_best_tip(&vec![]), (String::new(), 0));
}
