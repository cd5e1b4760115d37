use itx::api::ApiError;
use itx::auth::{check_drift, AuthError, PayoutLocks, ReplayGuard, MAX_REQUEST_DRIFT_SECONDS};
use itx::time::Timestamp;

#[test]
fn a_signature_is_accepted_once() {
    let mut guard = ReplayGuard::new();
    let now = Timestamp::now();
    let sig = vec![1u8, 2, 3];
    assert_eq!(guard.record(&sig, now), Ok(()));
    assert_eq!(guard.record(&sig, now), Err(AuthError::Replayed));
    assert_eq!(guard.record(&vec![1u8, 2, 4], now), Ok(()));
}

#[test]
fn cleanup_forgets_only_signatures_past_the_drift_bound() {
    let mut guard = ReplayGuard::new();
    let now = Timestamp::now();
    let old_sig = vec![9u8];
    let new_sig = vec![8u8];
    guard.record(&old_sig, now.plus_seconds(-MAX_REQUEST_DRIFT_SECONDS - 1)).unwrap();
    guard.record(&new_sig, now).unwrap();
    guard.cleanup_at(now.plus_seconds(-MAX_REQUEST_DRIFT_SECONDS));
    assert_eq!(guard.record(&old_sig, now), Ok(()), "a forgotten signature is new again");
    assert_eq!(guard.record(&new_sig, now), Err(AuthError::Replayed));
}

#[test]
fn a_timestamp_must_be_within_the_drift_bound() {
    let now = Timestamp::now();
    assert!(check_drift(now.plus_seconds(MAX_REQUEST_DRIFT_SECONDS), now).is_ok());
    assert!(check_drift(now.plus_seconds(-MAX_REQUEST_DRIFT_SECONDS), now).is_ok());
    assert_eq!(check_drift(now.plus_seconds(MAX_REQUEST_DRIFT_SECONDS + 1), now), Err(AuthError::ClockDrift));
    assert_eq!(check_drift(now.plus_seconds(-MAX_REQUEST_DRIFT_SECONDS - 1), now), Err(AuthError::ClockDrift));
}

#[test]
fn auth_errors_map_to_401_or_400() {
    let e = ApiError::from_auth_error(AuthError::Replayed);
    assert_eq!((e.status(), e.message()), (401, "signature has already been used".to_string()));
    let e = ApiError::from_auth_error(AuthError::BadPublicKey("odd length".to_string()));
    assert_eq!((e.status(), e.message()), (400, "bad public key: odd length".to_string()));
}

#[test]
fn one_payout_at_a_time_per_task_and_recipient() {
    let mut locks = PayoutLocks::new();
    let alice = vec![2u8; 33];
    let bob = vec![3u8; 33];
    assert!(locks.try_acquire(1, &alice));
    assert!(!locks.try_acquire(1, &alice));
    assert!(locks.try_acquire(1, &bob));
    assert!(locks.try_acquire(2, &alice));
    locks.release(1, &alice);
    assert!(locks.try_acquire(1, &alice));
}
