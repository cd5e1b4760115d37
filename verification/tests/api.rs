use itx::api::{
    post_consensus_task_at, post_task_at, CreateTaskPayload,
    apply_min_reputation, claim_or_join_at, consensus_result, ensure_operator_can_fund, hash_match_result,
    leaderboard_entries, parse_hex_hash, parse_hex_pubkey, require_operator, unmarked_balance,
    validate_assignee_count, validate_consensus_payload, validate_positive_minutes, ApiError,
    CreateConsensusTaskPayload, NodeClient, ReputationDto, SubmitResultDto, TaskDto, TaskKindDto, CLAIM_TTL_MINUTES,
};
use itx::board::{BoardError, Reputation, TaskBoard, TaskStatus};
use itx::chain::TransactionOutput;
use itx::crypto::{PrivateKey, PublicKey};
use itx::hash::Hash as Digest;
use itx::time::Timestamp;

fn pubkey() -> PublicKey {
    PrivateKey::new_key().public_key()
}

fn status_and_message(e: &ApiError) -> (u16, String) {
    (e.status(), e.message())
}

#[test]
fn board_errors_map_to_statuses_and_messages() {
    let cases = [
        (BoardError::NotFound, 404, "task not found".to_string()),
        (BoardError::NotOpen, 409, "task is not open".to_string()),
        (BoardError::NotClaimant, 403, format!("you are not the claimant of this{}", " task")),
        (BoardError::AlreadyClaimed, 409, "this pubkey has already claimed a faucet grant".to_string()),
        (BoardError::WrongTaskKind, 409, format!("this operation doesn't apply to this{}", " task's verification kind")),
        (
            BoardError::InsufficientReputation { required: 12, have: 0 },
            403,
            format!("this{}", " task requires at least 12 completed tasks, you have 0"),
        ),
        (
            BoardError::DeadlineOutOfRange,
            500,
            format!("the submission deadline of this{}", " task would fall outside the representable range"),
        ),
    ];
    for (e, status, message) in cases {
        assert_eq!(status_and_message(&ApiError::from_board_error(e)), (status, message));
    }
}

#[test]
fn window_minutes_are_checked_with_the_field_named() {
    let e = validate_positive_minutes(0, "join_window_minutes").unwrap_err();
    assert_eq!(status_and_message(&e), (400, "join_window_minutes must be positive".to_string()));
    let e = validate_positive_minutes(525_601, "submission_window_minutes").unwrap_err();
    assert_eq!(
        status_and_message(&e),
        (400, "submission_window_minutes must be at most 525600 minutes (~1 year)".to_string())
    );
    assert!(validate_positive_minutes(1, "x").is_ok());
    assert!(validate_positive_minutes(525_600, "x").is_ok());
}

#[test]
fn assignee_counts_are_bounded() {
    assert!(validate_assignee_count(1).is_err());
    assert!(validate_assignee_count(2).is_ok());
    assert!(validate_assignee_count(100).is_ok());
    let e = validate_assignee_count(101).unwrap_err();
    assert_eq!(status_and_message(&e), (400, "num_assignees must be at most 100".to_string()));
}

#[test]
fn a_consensus_payload_is_checked_count_first() {
    let p = CreateConsensusTaskPayload {
        description: "d".to_string(),
        bounty: 1,
        num_assignees: 1,
        join_window_minutes: 0,
        submission_window_minutes: 10,
        min_reputation: 0,
    };
    let e = validate_consensus_payload(&p).unwrap_err();
    assert!(e.message().starts_with("a consensus task needs at least 2 assignees"));
    let p = CreateConsensusTaskPayload { num_assignees: 3, ..p };
    let e = validate_consensus_payload(&p).unwrap_err();
    assert_eq!(e.message(), "join_window_minutes must be positive");
    let p = CreateConsensusTaskPayload { join_window_minutes: 5, ..p };
    assert!(validate_consensus_payload(&p).is_ok());
}

#[test]
fn only_the_operator_may_post() {
    let op = pubkey();
    assert!(require_operator(&op, &op).is_ok());
    let e = require_operator(&pubkey(), &op).unwrap_err();
    assert_eq!(status_and_message(&e), (403, "only the hub operator may post tasks".to_string()));
}

#[test]
fn escrow_must_cover_the_bounty_net_of_allocations() {
    assert!(ensure_operator_can_fund(1000, 400, 600).is_ok());
    let e = ensure_operator_can_fund(1000, 400, 601).unwrap_err();
    assert_eq!(
        e.message(),
        format!(
            "insufficient escrow balance: operator has 1000, 400 already allocated, this{}",
            " task needs 601. Fund the operator address first."
        )
    );
    // more allocated than held: nothing is free
    assert!(ensure_operator_can_fund(10, 50, 1).is_err());
    assert!(ensure_operator_can_fund(10, 50, 0).is_ok());
}

#[test]
fn a_hex_hash_must_be_32_bytes_of_hex() {
    let h = parse_hex_hash(&"00".repeat(31)).unwrap_err();
    assert_eq!(h.message(), "expected_output_hash must be exactly 32 bytes (64 hex chars)");
    let e = parse_hex_hash("zz").unwrap_err();
    assert_eq!(e.status(), 400);
    assert!(e.message().starts_with("expected_output_hash isn't valid hex: "));
    let mut hex = "01".to_string();
    hex.push_str(&"00".repeat(31));
    let h = parse_hex_hash(&hex).unwrap();
    let mut bytes = [0u8; 32];
    bytes[0] = 1;
    assert_eq!(h, Digest::from_bytes(bytes));
}

#[test]
fn a_pubkey_round_trips_through_hex() {
    let k = pubkey();
    let hex = k.to_hex();
    assert_eq!(hex.len(), 66);
    assert_eq!(hex, hex::encode(k.to_sec1_bytes()));
    assert_eq!(parse_hex_pubkey(&hex).unwrap(), k);
    assert!(parse_hex_pubkey("nothex").unwrap_err().message().starts_with("bad pubkey hex: "));
    assert_eq!(parse_hex_pubkey("0000").unwrap_err().message(), "bad pubkey: crypto error");
}

#[test]
fn submit_results_follow_the_task_kind() {
    assert_eq!(
        hash_match_result(false, true, 5),
        SubmitResultDto { verified: false, paid: false, bounty: None, resolved: None }
    );
    assert_eq!(
        hash_match_result(true, false, 5),
        SubmitResultDto { verified: true, paid: false, bounty: Some(5), resolved: None }
    );
    let me = pubkey();
    let other = pubkey();
    let payouts = vec![(other.clone(), 300u64), (me.clone(), 300u64)];
    assert_eq!(
        consensus_result(false, &payouts, &me, true),
        SubmitResultDto { verified: false, paid: false, bounty: None, resolved: Some(false) }
    );
    assert_eq!(
        consensus_result(true, &payouts, &me, true),
        SubmitResultDto { verified: true, paid: true, bounty: Some(300), resolved: Some(true) }
    );
    assert_eq!(
        consensus_result(true, &payouts, &pubkey(), true),
        SubmitResultDto { verified: false, paid: false, bounty: None, resolved: Some(true) }
    );
}

#[test]
fn claim_or_join_dispatches_on_the_task_kind() {
    let mut board = TaskBoard::new();
    let now = Timestamp::now();
    let hash_task = board.create_task(pubkey(), "h".to_string(), 10, Digest::hash_bytes(b"x"));
    let consensus = board.create_consensus_task(pubkey(), "c".to_string(), 10, 2, now.plus_minutes(60), 30);
    let worker = pubkey();

    claim_or_join_at(&mut board, hash_task.id, worker.clone(), now).unwrap();
    let t = board.get_task(hash_task.id).unwrap();
    assert_eq!(t.status, TaskStatus::Claimed);
    assert_eq!(t.claim_deadline, Some(now.plus_minutes(CLAIM_TTL_MINUTES)));

    claim_or_join_at(&mut board, consensus.id, worker.clone(), now).unwrap();
    assert_eq!(board.get_task(consensus.id).unwrap().consensus_assignees(), vec![worker.clone()]);

    let e = claim_or_join_at(&mut board, 99, worker.clone(), now).unwrap_err();
    assert_eq!(status_and_message(&e), (404, "task not found".to_string()));
    let e = claim_or_join_at(&mut board, consensus.id, worker, now).unwrap_err();
    assert_eq!(status_and_message(&e), (409, format!("you have already joined this{}", " task")));
}

#[test]
fn a_min_reputation_gate_is_set_on_board_and_copy() {
    let mut board = TaskBoard::new();
    let mut task = board.create_task(pubkey(), "h".to_string(), 10, Digest::hash_bytes(b"x"));
    apply_min_reputation(&mut board, &mut task, 0);
    assert_eq!(task.min_reputation, 0);
    apply_min_reputation(&mut board, &mut task, 4);
    assert_eq!(task.min_reputation, 4);
    assert_eq!(board.get_task(task.id).unwrap().min_reputation, 4);
}

#[test]
fn task_dtos_hide_the_answers_and_show_keys_as_hex() {
    let mut board = TaskBoard::new();
    let now = Timestamp::now();
    let poster = pubkey();
    let c = board.create_consensus_task(poster.clone(), "c".to_string(), 10, 3, now.plus_minutes(60), 30);
    board.join_consensus_task_at(c.id, pubkey(), now).unwrap();
    let dto = TaskDto::from_task(board.get_task(c.id).unwrap());
    assert_eq!(dto.poster, poster.to_hex());
    assert_eq!(dto.claimant, None);
    assert_eq!(
        dto.kind,
        TaskKindDto::Consensus {
            num_assignees: 3,
            assignees_joined: 1,
            join_deadline: now.plus_minutes(60),
            submission_deadline: None
        }
    );
}

#[test]
fn leaderboard_entries_carry_hex_keys() {
    let k = pubkey();
    let rep = Reputation { completed: 2, failed: 1, total_earned: 70 };
    let entries = leaderboard_entries(&vec![(k.clone(), rep)]);
    assert_eq!(entries.len(), 1);
    assert_eq!(entries[0].pubkey, k.to_hex());
    assert_eq!(entries[0].reputation, ReputationDto { completed: 2, failed: 1, total_earned: 70 });
}

#[test]
fn the_balance_counts_only_unmarked_outputs() {
    let k = pubkey();
    let out = |v: u64| TransactionOutput { value: v, unique_id: v as u128, pubkey: k.clone() };
    let utxos = vec![(false, out(5)), (true, out(100)), (false, out(7))];
    assert_eq!(unmarked_balance(&utxos), Some(12));
    let big = vec![(false, out(u64::MAX)), (false, out(1))];
    assert_eq!(unmarked_balance(&big), None);
}

#[test]
fn a_node_client_keeps_its_addresses_in_order() {
    let c = NodeClient::new(vec!["a:1".to_string(), "b:2".to_string()]);
    assert_eq!(c.addresses(), &vec!["a:1".to_string(), "b:2".to_string()]);
}

#[test]
fn posting_a_task_checks_operator_hash_and_escrow() {
    let mut board = TaskBoard::new();
    let op = pubkey();
    let now = Timestamp::now();
    let hex = hex::encode([7u8; 32]);
    let payload = |bounty: u64, hash: &str| CreateTaskPayload {
        description: "sum".to_string(),
        bounty,
        expected_output_hash: hash.to_string(),
        min_reputation: 2,
    };

    let e = post_task_at(&mut board, pubkey(), &op, payload(10, &hex), 100, 1, now).unwrap_err();
    assert_eq!(e.status(), 403);
    let e = post_task_at(&mut board, op.clone(), &op, payload(10, "abcd"), 100, 1, now).unwrap_err();
    assert_eq!(e.message(), "expected_output_hash must be exactly 32 bytes (64 hex chars)");
    let e = post_task_at(&mut board, op.clone(), &op, payload(101, &hex), 100, 1, now).unwrap_err();
    assert_eq!(e.status(), 400);
    assert!(board.all_tasks().is_empty(), "a refused post changes nothing");

    let t = post_task_at(&mut board, op.clone(), &op, payload(60, &hex), 100, 1, now).unwrap();
    assert_eq!(t.id, 1);
    assert_eq!(t.min_reputation, 2);
    assert_eq!(board.get_task(1).unwrap().min_reputation, 2);
    assert_eq!(board.allocated_bounty(), 60);
    // 60 of 100 already promised: 41 more is too much
    assert!(post_task_at(&mut board, op.clone(), &op, payload(41, &hex), 100, 2, now).is_err());
    assert!(post_task_at(&mut board, op.clone(), &op, payload(40, &hex), 100, 2, now).is_ok());
}

#[test]
fn posting_a_consensus_task_sets_its_join_deadline() {
    let mut board = TaskBoard::new();
    let op = pubkey();
    let now = Timestamp::now();
    let p = CreateConsensusTaskPayload {
        description: "opinion".to_string(),
        bounty: 30,
        num_assignees: 3,
        join_window_minutes: 15,
        submission_window_minutes: 45,
        min_reputation: 0,
    };
    let t = post_consensus_task_at(&mut board, op.clone(), &op, p.clone(), 30, 9, now).unwrap();
    match t.kind {
        itx::board::TaskKind::Consensus { join_deadline, submission_window_minutes, .. } => {
            assert_eq!(join_deadline, now.plus_minutes(15));
            assert_eq!(submission_window_minutes, 45);
        }
        _ => panic!("expected a consensus task"),
    }
    let bad = CreateConsensusTaskPayload { num_assignees: 1, ..p };
    let e = post_consensus_task_at(&mut board, op.clone(), &op, bad, 1000, 10, now).unwrap_err();
    assert!(e.message().starts_with("a consensus task needs at least 2 assignees"));
}
