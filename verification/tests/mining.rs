use itx::mining::{connect_step, thread_start_nonce, ConnectStep, STEPS_PER_CALL};

#[test]
fn thread_start_nonce_partitions_into_per_thread_windows() {
    assert_eq!(thread_start_nonce(0, 1_000), 0);
    assert_eq!(thread_start_nonce(1, 1_000), 1_000);
    assert_eq!(thread_start_nonce(3, 1_000), 3_000);
}

#[test]
fn thread_windows_adjoin_at_the_default_step_count() {
    for t in 0..8usize {
        assert_eq!(thread_start_nonce(t + 1, STEPS_PER_CALL), thread_start_nonce(t, STEPS_PER_CALL) + STEPS_PER_CALL as u64);
    }
}

#[test]
fn only_an_unreachable_primary_is_fatal() {
    assert_eq!(connect_step(0, true), ConnectStep::Keep);
    assert_eq!(connect_step(0, false), ConnectStep::Fatal);
    assert_eq!(connect_step(2, false), ConnectStep::Skip);
    assert_eq!(connect_step(2, true), ConnectStep::Keep);
}
