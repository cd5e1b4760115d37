use itx::api::{record_payout, settle_step, FailoverStep, NodeClient, SettleStep};
use itx::board::{TaskBoard, TaskStatus};
use itx::crypto::PrivateKey;
use itx::hash::Hash as Digest;
use itx::peers::{connect_step, ConnectStep};
use itx::time::Timestamp;

#[test]
fn connecting_skips_banned_peers_and_fails_on_a_listed_one() {
    assert_eq!(connect_step(true, true, false, false), ConnectStep::Skip);
    assert_eq!(connect_step(false, true, true, true), ConnectStep::Skip);
    assert_eq!(connect_step(true, false, false, false), ConnectStep::Abort);
    assert_eq!(connect_step(true, false, true, false), ConnectStep::Abort);
    assert_eq!(connect_step(false, false, false, true), ConnectStep::Abort);
    assert_eq!(connect_step(false, false, true, false), ConnectStep::Skip);
    assert_eq!(connect_step(true, false, true, true), ConnectStep::Keep);
    assert_eq!(connect_step(false, false, true, true), ConnectStep::Keep);
}

#[test]
fn a_client_tries_its_nodes_in_order_until_one_answers() {
    let client = NodeClient::new(vec![String::from("a:1"), String::from("b:2")]);
    assert_eq!(client.connect_step(0, false), FailoverStep::Try(0));
    assert_eq!(client.connect_step(1, true), FailoverStep::Connected(0));
    assert_eq!(client.connect_step(1, false), FailoverStep::Try(1));
    assert_eq!(client.connect_step(2, false), FailoverStep::Exhausted { configured: true });
    let none = NodeClient::new(vec![]);
    assert_eq!(none.connect_step(0, false), FailoverStep::Exhausted { configured: false });
}

#[test]
fn a_payout_is_sent_once_and_recorded_only_when_it_went_out() {
    let mut board = TaskBoard::new();
    let poster = PrivateKey::new_key().public_key();
    let worker = PrivateKey::new_key().public_key();
    let expected = Digest::hash_bytes(b"answer");
    let task = board.create_task(poster, "job".to_string(), 100, expected);
    board.claim_task(task.id, worker.clone(), Timestamp::now().plus_minutes(10)).unwrap();
    assert!(board.submit(task.id, worker.clone(), expected).unwrap());

    assert_eq!(settle_step(&board, task.id ^ 1, &worker), SettleStep::Skip);
    assert_eq!(settle_step(&board, task.id, &worker), SettleStep::Pay);
    // the payment failed: nothing recorded, still to pay
    assert!(!record_payout(&mut board, task.id, &worker, 100, false));
    assert_eq!(board.get_task(task.id).unwrap().status, TaskStatus::Verified);
    assert_eq!(settle_step(&board, task.id, &worker), SettleStep::Pay);
    // the payment went out: recorded, and a later settlement pays nothing
    assert!(record_payout(&mut board, task.id, &worker, 100, true));
    assert_eq!(board.get_task(task.id).unwrap().status, TaskStatus::Paid);
    assert_eq!(board.reputation(&worker).total_earned, 100);
    assert_eq!(settle_step(&board, task.id, &worker), SettleStep::AlreadyPaid);
}
