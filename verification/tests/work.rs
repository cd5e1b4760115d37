use itx::u256::U256;
use itx::{min_target, work_from_target};

#[test]
fn harder_target_means_more_work() {
    let easy = min_target();
    let hard = min_target().div(&U256::from_u64(100));
    assert!(work_from_target(easy).lt(&work_from_target(hard)));
}

#[test]
fn min_target_has_positive_work() {
    assert!(U256::zero().lt(&work_from_target(min_target())));
}

#[test]
fn work_of_the_minimum_target_is_two_to_the_sixteen() {
    // 2^256 / 2^240 = 2^16
    let w = work_from_target(min_target());
    assert_eq!(w, U256::from_u64(65_536));
}

#[test]
fn work_of_a_small_target_is_exact() {
    // target 2^128 - 1: 2^256 / 2^128 = 2^128
    let t = U256::from_halves(0, u128::MAX);
    assert_eq!(work_from_target(t), U256::from_halves(1, 0));
    // target 1: 2^256 / 2 = 2^255
    let w = work_from_target(U256::from_u64(1));
    assert_eq!(w, U256::from_halves(1u128 << 127, 0));
}

#[test]
fn work_is_never_less_for_a_harder_target() {
    let targets = [1u64, 2, 3, 1000, 1 << 40];
    for pair in targets.windows(2) {
        let harder = work_from_target(U256::from_u64(pair[0]));
        let easier = work_from_target(U256::from_u64(pair[1]));
        assert!(easier.le(&harder));
    }
}
