//! The hub's request rules: which error a refused request is answered
//! with, how request fields are checked, and what a response carries.
use vstd::prelude::*;
use crate::board::{BoardError, Reputation, TaskBoard, Task, TaskKind, TaskView, BoardView, KindView, TaskStatus, CloseReason, claimed, joined,
    allocated, put_task, new_hash_task, new_consensus_task, lemma_put_then_replace, is_recipient_paid_of, already_paid,
    with_paid, with_payout, task_wf};
use crate::chain::TransactionOutput;
use crate::time::{Timestamp, in_utc_range, NANOS_PER_MINUTE, MIN_UTC_NANOS, MAX_UTC_NANOS};
use crate::crypto::PublicKey;
use crate::auth::{AuthError, auth_error_text};
use crate::hexcodec::{hex_decode, hex_decoded, hex_text};
use crate::text::{decimal, push_decimal};
use crate::u256::le_value;
use vstd::string::StringSliceAdditionalSpecFns;

verus! {

/// How long a claim holds a `HashMatch` task, in minutes.
pub const CLAIM_TTL_MINUTES: i64 = 30;
/// Fee attached to every payment the hub makes.
pub const HUB_TRANSACTION_FEE: u64 = 1_000;
/// Size of a faucet grant, in base units.
pub const FAUCET_GRANT_AMOUNT: u64 = 50_000_000;
/// Longest join or submission window a consensus task may ask for, in
/// minutes (a year).
pub const MAX_CONSENSUS_WINDOW_MINUTES: i64 = 60 * 24 * 365;
/// Most assignees a consensus task may ask for.
pub const MAX_CONSENSUS_ASSIGNEES: u32 = 100;
/// Entries shown on the leaderboard.
pub const LEADERBOARD_SIZE: usize = 50;

/// How a request was refused, with the message sent back.
#[derive(Clone, Debug)]
pub enum ApiError {
    BadRequest(String),
    Unauthorized(String),
    Forbidden(String),
    NotFound(String),
    Conflict(String),
    Internal(String),
}

impl View for ApiError {
    /// The HTTP status answered and the message.
    type V = (u16, Seq<char>);

    open spec fn view(&self) -> (u16, Seq<char>) {
        match self {
            ApiError::BadRequest(m) => (400u16, m@),
            ApiError::Unauthorized(m) => (401u16, m@),
            ApiError::Forbidden(m) => (403u16, m@),
            ApiError::NotFound(m) => (404u16, m@),
            ApiError::Conflict(m) => (409u16, m@),
            ApiError::Internal(m) => (500u16, m@),
        }
    }
}

impl ApiError {
    /// The HTTP status code the error is answered with.
    pub fn status(&self) -> (s: u16)
        ensures
            s == self@.0,
    {
        match self {
            ApiError::BadRequest(_) => 400,
            ApiError::Unauthorized(_) => 401,
            ApiError::Forbidden(_) => 403,
            ApiError::NotFound(_) => 404,
            ApiError::Conflict(_) => 409,
            ApiError::Internal(_) => 500,
        }
    }

    /// The message sent back.
    pub fn message(&self) -> (m: String)
        ensures
            m@ == self@.1,
    {
        match self {
            ApiError::BadRequest(m) => m.clone(),
            ApiError::Unauthorized(m) => m.clone(),
            ApiError::Forbidden(m) => m.clone(),
            ApiError::NotFound(m) => m.clone(),
            ApiError::Conflict(m) => m.clone(),
            ApiError::Internal(m) => m.clone(),
        }
    }

    /// The answer to a refused signature check: a stale, replayed or
    /// forged request is 401, an unreadable one 400.
    pub fn from_auth_error(e: AuthError) -> (r: ApiError)
        ensures
            r@ == (match e {
                AuthError::BadPublicKey(_) | AuthError::BadSignatureEncoding(_) => 400u16,
                _ => 401u16,
            }, auth_error_text(e)),
    {
        let m = e.message();
        match e {
            AuthError::ClockDrift | AuthError::Replayed | AuthError::BadSignature => ApiError::Unauthorized(m),
            AuthError::BadPublicKey(_) | AuthError::BadSignatureEncoding(_) => ApiError::BadRequest(m),
        }
    }

    /// The answer to a refused board operation.
    pub fn from_board_error(e: BoardError) -> (r: ApiError)
        ensures
            r@ == (board_error_status(e), board_error_text(e)),
    {
        let m = board_error_message(e);
        match e {
            BoardError::NotFound => ApiError::NotFound(m),
            BoardError::NotOpen
            | BoardError::NotClaimed
            | BoardError::NotVerified
            | BoardError::AlreadyClaimed
            | BoardError::AlreadyJoined
            | BoardError::AlreadySubmitted
            | BoardError::JoinWindowExpired
            | BoardError::SubmissionWindowExpired
            | BoardError::WrongTaskKind => ApiError::Conflict(m),
            BoardError::NotClaimant | BoardError::InsufficientReputation { .. } => ApiError::Forbidden(m),
            BoardError::DeadlineOutOfRange => ApiError::Internal(m),
        }
    }
}

/// The status a refused board operation is answered with: a missing task
/// is 404, a task in the wrong state 409, an agent without the right 403.
pub open spec fn board_error_status(e: BoardError) -> u16 {
    match e {
        BoardError::NotFound => 404,
        BoardError::NotClaimant => 403,
        BoardError::InsufficientReputation { .. } => 403,
        BoardError::DeadlineOutOfRange => 500,
        _ => 409,
    }
}

/// What a refused board operation says.
pub open spec fn board_error_text(e: BoardError) -> Seq<char> {
    match e {
        BoardError::NotFound => "task not found"@,
        BoardError::NotOpen => "task is not open"@,
        BoardError::NotClaimed => "task is not claimed"@,
        BoardError::NotClaimant => "you are not the claimant of this"@ + " task"@,
        BoardError::NotVerified => "task has not been verified yet"@,
        BoardError::AlreadyClaimed => "this pubkey has already claimed a faucet grant"@,
        BoardError::AlreadyJoined => "you have already joined this"@ + " task"@,
        BoardError::JoinWindowExpired => "the window to join this"@ + " task has passed"@,
        BoardError::SubmissionWindowExpired => "the window to submit an answer for this"@ + " task has passed"@,
        BoardError::WrongTaskKind => "this operation doesn't apply to this"@ + " task's verification kind"@,
        BoardError::AlreadySubmitted => "you have already submitted an answer for this"@ + " task"@,
        BoardError::InsufficientReputation { required, have } =>
            "this"@ + " task requires at least "@ + decimal(required as nat) + " completed tasks, you have "@ + decimal(have as nat),
        BoardError::DeadlineOutOfRange => "the submission deadline of this"@ + " task would fall outside the representable range"@,
    }
}

/// Two pieces of text, one after the other.
fn joined_text(a: &str, b: &str) -> (t: String)
    ensures
        t@ == a@ + b@,
{
    let mut t = a.to_owned();
    t.append(b);
    t
}

/// The text of a refused board operation.
pub fn board_error_message(e: BoardError) -> (m: String)
    ensures
        m@ == board_error_text(e),
{
    match e {
        BoardError::NotFound => "task not found".to_owned(),
        BoardError::NotOpen => "task is not open".to_owned(),
        BoardError::NotClaimed => "task is not claimed".to_owned(),
        BoardError::NotClaimant => joined_text("you are not the claimant of this", " task"),
        BoardError::NotVerified => "task has not been verified yet".to_owned(),
        BoardError::AlreadyClaimed => "this pubkey has already claimed a faucet grant".to_owned(),
        BoardError::AlreadyJoined => joined_text("you have already joined this", " task"),
        BoardError::JoinWindowExpired => joined_text("the window to join this", " task has passed"),
        BoardError::SubmissionWindowExpired => joined_text("the window to submit an answer for this", " task has passed"),
        BoardError::WrongTaskKind => joined_text("this operation doesn't apply to this", " task's verification kind"),
        BoardError::AlreadySubmitted => joined_text("you have already submitted an answer for this", " task"),
        BoardError::InsufficientReputation { required, have } => {
            let mut m = joined_text("this", " task requires at least ");
            push_decimal(&mut m, required);
            m.append(" completed tasks, you have ");
            push_decimal(&mut m, have);
            m
        },
        BoardError::DeadlineOutOfRange =>
            joined_text("the submission deadline of this", " task would fall outside the representable range"),
    }
}

/// The refusal text for a window length in minutes, if it is refused:
/// it must be positive and at most `MAX_CONSENSUS_WINDOW_MINUTES`.
pub open spec fn minutes_error(value: i64, field: Seq<char>) -> Option<Seq<char>> {
    if value <= 0 {
        Some(field + " must be positive"@)
    } else if value > MAX_CONSENSUS_WINDOW_MINUTES {
        Some(field + " must be at most "@ + decimal(MAX_CONSENSUS_WINDOW_MINUTES as nat) + " minutes (~1 year)"@)
    } else {
        None
    }
}

/// A refusal answered with 400, as a result.
pub open spec fn bad_request_if(text: Option<Seq<char>>, r: Result<(), ApiError>) -> bool {
    match text {
        None => r is Ok,
        Some(t) => r matches Err(e) && e@ == (400u16, t),
    }
}

/// Checks a window length in minutes; `field` names it in the refusal.
pub fn validate_positive_minutes(value: i64, field: &str) -> (r: Result<(), ApiError>)
    ensures
        bad_request_if(minutes_error(value, field@), r),
{
    if value <= 0 {
        let mut m = field.to_owned();
        m.append(" must be positive");
        return Err(ApiError::BadRequest(m));
    }
    if value > MAX_CONSENSUS_WINDOW_MINUTES {
        let mut m = field.to_owned();
        m.append(" must be at most ");
        push_decimal(&mut m, MAX_CONSENSUS_WINDOW_MINUTES as u64);
        m.append(" minutes (~1 year)");
        return Err(ApiError::BadRequest(m));
    }
    Ok(())
}

/// The refusal text for a consensus task's number of assignees: at
/// least 2 (a majority of one means nothing) and at most
/// `MAX_CONSENSUS_ASSIGNEES`.
pub open spec fn assignee_count_error(num_assignees: u32) -> Option<Seq<char>> {
    if num_assignees < 2 {
        Some("a consensus task needs at least 2 assignees for majority agreement to mean anything"@)
    } else if num_assignees > MAX_CONSENSUS_ASSIGNEES {
        Some("num_assignees must be at most "@ + decimal(MAX_CONSENSUS_ASSIGNEES as nat))
    } else {
        None
    }
}

/// Checks a consensus task's number of assignees.
pub fn validate_assignee_count(num_assignees: u32) -> (r: Result<(), ApiError>)
    ensures
        bad_request_if(assignee_count_error(num_assignees), r),
{
    if num_assignees < 2 {
        return Err(ApiError::BadRequest(
            "a consensus task needs at least 2 assignees for majority agreement to mean anything".to_owned(),
        ));
    }
    if num_assignees > MAX_CONSENSUS_ASSIGNEES {
        let mut m = "num_assignees must be at most ".to_owned();
        push_decimal(&mut m, MAX_CONSENSUS_ASSIGNEES as u64);
        return Err(ApiError::BadRequest(m));
    }
    Ok(())
}

/// A request to post a `HashMatch` task.
#[derive(Clone, Debug)]
pub struct CreateTaskPayload {
    pub description: String,
    pub bounty: u64,
    /// Hex of the SHA-256 digest the correct output has.
    pub expected_output_hash: String,
    /// Completed tasks an agent needs to claim it; zero for none.
    pub min_reputation: u64,
}

/// A request to post a `Consensus` task.
#[derive(Clone, Debug)]
pub struct CreateConsensusTaskPayload {
    pub description: String,
    pub bounty: u64,
    pub num_assignees: u32,
    /// How long the task waits to fill up, in minutes.
    pub join_window_minutes: i64,
    /// How long assignees have to answer once it fills, in minutes.
    pub submission_window_minutes: i64,
    pub min_reputation: u64,
}

/// The refusal text a consensus-task request earns, checked in the order
/// the hub checks: the assignee count, the join window, the submission
/// window.
pub open spec fn consensus_payload_error(num_assignees: u32, join: i64, submission: i64) -> Option<Seq<char>> {
    if assignee_count_error(num_assignees) is Some {
        assignee_count_error(num_assignees)
    } else if minutes_error(join, "join_window_minutes"@) is Some {
        minutes_error(join, "join_window_minutes"@)
    } else {
        minutes_error(submission, "submission_window_minutes"@)
    }
}

/// Checks a consensus-task request's numbers.
pub fn validate_consensus_payload(p: &CreateConsensusTaskPayload) -> (r: Result<(), ApiError>)
    ensures
        bad_request_if(consensus_payload_error(p.num_assignees, p.join_window_minutes, p.submission_window_minutes), r),
{
    validate_assignee_count(p.num_assignees)?;
    validate_positive_minutes(p.join_window_minutes, "join_window_minutes")?;
    validate_positive_minutes(p.submission_window_minutes, "submission_window_minutes")?;
    Ok(())
}

/// Only the hub operator may post tasks (who could post could set a
/// target whose answer they know and pay themselves).
pub fn require_operator(pubkey: &PublicKey, operator: &PublicKey) -> (r: Result<(), ApiError>)
    ensures
        bad_request_or(pubkey@ != operator@, 403u16, "only the hub operator may post tasks"@, r),
{
    if !pubkey.same_as(operator) {
        return Err(ApiError::Forbidden("only the hub operator may post tasks".to_owned()));
    }
    Ok(())
}

/// `r` is the error `(status, text)` where `refused`, else `Ok`.
pub open spec fn bad_request_or(refused: bool, status: u16, text: Seq<char>, r: Result<(), ApiError>) -> bool {
    if refused {
        r matches Err(e) && e@ == (status, text)
    } else {
        r is Ok
    }
}

/// The text refusing a task whose bounty the operator's free balance does
/// not cover.
pub open spec fn escrow_text(balance: u64, allocated: u64, bounty: u64) -> Seq<char> {
    "insufficient escrow balance: operator has "@ + decimal(balance as nat) + ", "@ + decimal(allocated as nat)
        + " already allocated, this"@ + " task needs "@ + decimal(bounty as nat) + ". Fund the operator address first."@
}

/// The operator's balance, less what other unpaid tasks already hold
/// (zero where they hold more), must cover a new task's `bounty`.
pub fn ensure_operator_can_fund(balance: u64, allocated: u64, bounty: u64) -> (r: Result<(), ApiError>)
    ensures
        bad_request_or(
            (if balance >= allocated { balance - allocated } else { 0 }) < bounty,
            400u16,
            escrow_text(balance, allocated, bounty),
            r,
        ),
{
    if balance.saturating_sub(allocated) < bounty {
        let mut m = "insufficient escrow balance: operator has ".to_owned();
        push_decimal(&mut m, balance);
        m.append(", ");
        push_decimal(&mut m, allocated);
        m.append(" already allocated, this");
        m.append(" task needs ");
        push_decimal(&mut m, bounty);
        m.append(". Fund the operator address first.");
        return Err(ApiError::BadRequest(m));
    }
    Ok(())
}

/// Reads a task's expected output hash from hex: 64 hex digits make the
/// 32 bytes of the hash (read little-endian, as `Hash::from_bytes`
/// does).  Text that is not hex is refused with the decoder's
/// description after `expected_output_hash isn't valid hex: `; hex of any
/// other length with a fixed text.
pub fn parse_hex_hash(hex_str: &str) -> (r: Result<crate::hash::Hash, ApiError>)
    ensures
        hex_decoded(hex_str.spec_bytes()) is None ==> (r matches Err(e) && e@.0 == 400
            && e@.1.len() >= "expected_output_hash isn't valid hex: "@.len()
            && e@.1.subrange(0, "expected_output_hash isn't valid hex: "@.len() as int) == "expected_output_hash isn't valid hex: "@),
        hex_decoded(hex_str.spec_bytes()) is Some && hex_decoded(hex_str.spec_bytes()).unwrap().len() != 32 ==> (r matches Err(e)
            && e@ == (400u16, "expected_output_hash must be exactly 32 bytes (64 hex chars)"@)),
        hex_decoded(hex_str.spec_bytes()) is Some && hex_decoded(hex_str.spec_bytes()).unwrap().len() == 32 ==> (r matches Ok(h)
            && h@ == le_value(hex_decoded(hex_str.spec_bytes()).unwrap())),
{
    let bytes = match hex_decode(hex_str.as_bytes()) {
        Ok(b) => b,
        Err(text) => {
            let mut m = "expected_output_hash isn't valid hex: ".to_owned();
            let ghost prefix = m@;
            m.append(text.as_str());
            assert(m@.subrange(0, prefix.len() as int) =~= prefix);
            return Err(ApiError::BadRequest(m));
        },
    };
    if bytes.len() != 32 {
        return Err(ApiError::BadRequest("expected_output_hash must be exactly 32 bytes (64 hex chars)".to_owned()));
    }
    let mut array = [0u8; 32];
    let mut i: usize = 0;
    while i < 32
        invariant
            bytes@.len() == 32,
            array@.len() == 32,
            i <= 32,
            forall|j: int| 0 <= j < i ==> array@[j] == bytes@[j],
        decreases 32 - i,
    {
        array[i] = bytes[i];
        i = i + 1;
    }
    assert(array@ =~= bytes@);
    Ok(crate::hash::Hash::from_bytes(array))
}

/// Reads a public key from hex of its SEC1 bytes.  Text that is not hex
/// is refused after `bad pubkey hex: ` and the decoder's description;
/// bytes that are no key with `bad pubkey: crypto error` (the only text
/// the curve crate's error displays).
pub fn parse_hex_pubkey(hex_str: &str) -> (r: Result<PublicKey, ApiError>)
    ensures
        hex_decoded(hex_str.spec_bytes()) is None ==> (r matches Err(e) && e@.0 == 400
            && e@.1.len() >= "bad pubkey hex: "@.len()
            && e@.1.subrange(0, "bad pubkey hex: "@.len() as int) == "bad pubkey hex: "@),
        hex_decoded(hex_str.spec_bytes()) is Some && crate::crypto::sec1_parsed(hex_decoded(hex_str.spec_bytes()).unwrap()) is None
            ==> (r matches Err(e) && e@ == (400u16, "bad pubkey: crypto error"@)),
        hex_decoded(hex_str.spec_bytes()) is Some && crate::crypto::sec1_parsed(hex_decoded(hex_str.spec_bytes()).unwrap()) is Some
            ==> (r matches Ok(k) && k@ == crate::crypto::sec1_parsed(hex_decoded(hex_str.spec_bytes()).unwrap()).unwrap()),
{
    let bytes = match hex_decode(hex_str.as_bytes()) {
        Ok(b) => b,
        Err(text) => {
            let mut m = "bad pubkey hex: ".to_owned();
            let ghost prefix = m@;
            m.append(text.as_str());
            assert(m@.subrange(0, prefix.len() as int) =~= prefix);
            return Err(ApiError::BadRequest(m));
        },
    };
    match PublicKey::from_sec1_bytes(bytes.as_slice()) {
        Some(k) => Ok(k),
        None => Err(ApiError::BadRequest("bad pubkey: crypto error".to_owned())),
    }
}

/// An agent's record as the hub shows it.
#[derive(Clone, Copy, Debug, PartialEq, Eq, Structural)]
pub struct ReputationDto {
    pub completed: u64,
    pub failed: u64,
    pub total_earned: u64,
}

impl ReputationDto {
    /// The shown form of a record.
    pub fn from_reputation(r: Reputation) -> (d: ReputationDto)
        ensures
            d == (ReputationDto { completed: r.completed, failed: r.failed, total_earned: r.total_earned }),
    {
        ReputationDto { completed: r.completed, failed: r.failed, total_earned: r.total_earned }
    }
}

/// One leaderboard line: the agent's key in hex and its record.
#[derive(Clone, Debug)]
pub struct LeaderboardEntryDto {
    pub pubkey: String,
    pub reputation: ReputationDto,
}

/// The shown leaderboard: each entry's key as hex, its record as shown,
/// in the order given.
pub fn leaderboard_entries(entries: &Vec<(PublicKey, Reputation)>) -> (r: Vec<LeaderboardEntryDto>)
    ensures
        r@.len() == entries@.len(),
        forall|i: int| 0 <= i < r@.len() ==> (#[trigger] r@[i]).pubkey@ == hex_text(entries@[i].0@)
            && r@[i].reputation == (ReputationDto {
                completed: entries@[i].1.completed,
                failed: entries@[i].1.failed,
                total_earned: entries@[i].1.total_earned,
            }),
{
    let mut out: Vec<LeaderboardEntryDto> = Vec::new();
    let mut i: usize = 0;
    while i < entries.len()
        invariant
            i <= entries@.len(),
            out@.len() == i,
            forall|j: int| 0 <= j < i ==> (#[trigger] out@[j]).pubkey@ == hex_text(entries@[j].0@)
                && out@[j].reputation == (ReputationDto {
                    completed: entries@[j].1.completed,
                    failed: entries@[j].1.failed,
                    total_earned: entries@[j].1.total_earned,
                }),
        decreases entries.len() - i,
    {
        let e = &entries[i];
        out.push(LeaderboardEntryDto { pubkey: e.0.to_hex(), reputation: ReputationDto::from_reputation(e.1) });
        i = i + 1;
    }
    out
}

/// The answer to a faucet claim that was paid.
#[derive(Clone, Copy, Debug, PartialEq, Eq, Structural)]
pub struct FaucetResultDto {
    pub amount: u64,
}

/// The answer to a submission.
#[derive(Clone, Copy, Debug, PartialEq, Eq, Structural)]
pub struct SubmitResultDto {
    /// `HashMatch`: whether the output matched.  `Consensus`: whether this
    /// agent's answer was the majority's.
    pub verified: bool,
    pub paid: bool,
    pub bounty: Option<u64>,
    /// `None` for `HashMatch`; for `Consensus`, whether the task has
    /// resolved.
    pub resolved: Option<bool>,
}

/// The answer to a `HashMatch` submission: a wrong output earns nothing;
/// a right one reports the bounty and whether the payout went out.
pub fn hash_match_result(verified: bool, paid: bool, bounty: u64) -> (r: SubmitResultDto)
    ensures
        r == (if verified {
            SubmitResultDto { verified: true, paid, bounty: Some(bounty), resolved: None }
        } else {
            SubmitResultDto { verified: false, paid: false, bounty: None, resolved: None }
        }),
{
    if !verified {
        return SubmitResultDto { verified: false, paid: false, bounty: None, resolved: None };
    }
    SubmitResultDto { verified: true, paid, bounty: Some(bounty), resolved: None }
}

/// The share owed to `k` among `(recipient, amount)` pairs: the first
/// pair naming it.
pub open spec fn share_of(ps: Seq<(Seq<u8>, u64)>, k: Seq<u8>) -> Option<u64>
    decreases ps.len(),
{
    if ps.len() == 0 {
        None
    } else if ps[0].0 == k {
        Some(ps[0].1)
    } else {
        share_of(ps.drop_first(), k)
    }
}

/// The answer to a consensus submission by `me`: unresolved, or resolved
/// with `me` among the winners (the payouts owed as the task resolved)
/// and paid or not, or resolved without a share for `me`.
pub fn consensus_result(resolved: bool, payouts: &Vec<(PublicKey, u64)>, me: &PublicKey, paid: bool) -> (r: SubmitResultDto)
    ensures
        !resolved ==> r == (SubmitResultDto { verified: false, paid: false, bounty: None, resolved: Some(false) }),
        resolved && share_of(crate::board::pairs_view(payouts@), me@) is None ==>
            r == (SubmitResultDto { verified: false, paid: false, bounty: None, resolved: Some(true) }),
        resolved && share_of(crate::board::pairs_view(payouts@), me@) is Some ==>
            r == (SubmitResultDto { verified: true, paid: paid, bounty: share_of(crate::board::pairs_view(payouts@), me@), resolved: Some(true) }),
{
    if !resolved {
        return SubmitResultDto { verified: false, paid: false, bounty: None, resolved: Some(false) };
    }
    let ghost ps = crate::board::pairs_view(payouts@);
    let mut i: usize = 0;
    assert(ps.subrange(0, ps.len() as int) =~= ps);
    while i < payouts.len()
        invariant
            i <= payouts@.len(),
            resolved,
            ps == crate::board::pairs_view(payouts@),
            share_of(ps, me@) == share_of(ps.subrange(i as int, ps.len() as int), me@),
        decreases payouts.len() - i,
    {
        let e = &payouts[i];
        assert(ps.subrange(i as int, ps.len() as int).drop_first() =~= ps.subrange(i + 1, ps.len() as int));
        assert(ps.subrange(i as int, ps.len() as int)[0] == (e.0@, e.1));
        if e.0.same_as(me) {
            assert(share_of(ps.subrange(i as int, ps.len() as int), me@) == Some(e.1));
            return SubmitResultDto { verified: true, paid, bounty: Some(e.1), resolved: Some(true) };
        }
        i = i + 1;
    }
    SubmitResultDto { verified: false, paid: false, bounty: None, resolved: Some(true) }
}

/// The status and text a refused board operation is answered with.
pub open spec fn api_view_of(e: BoardError) -> (u16, Seq<char>) {
    (board_error_status(e), board_error_text(e))
}

/// The instant a claim made at `now` lapses.
pub open spec fn claim_deadline_after(now: Timestamp) -> Timestamp {
    Timestamp { nanos: (now.nanos + CLAIM_TTL_MINUTES * NANOS_PER_MINUTE) as i128 }
}

/// Why claiming (for a `HashMatch` task) or joining (for a `Consensus`
/// task) task `id` as `agent` at `now` is refused, if it is.
pub open spec fn claim_or_join_error(b: BoardView, id: u128, agent: Seq<u8>, now: Timestamp) -> Option<BoardError> {
    if !b.has_task(id) {
        Some(BoardError::NotFound)
    } else if b.task(id).kind is Consensus {
        b.join_error(id, agent, now)
    } else {
        b.claim_error(id, agent)
    }
}

/// The board after `agent` claims or joins task `id` at `now`.
pub open spec fn claim_or_join_state(b: BoardView, id: u128, agent: Seq<u8>, now: Timestamp) -> BoardView {
    if b.task(id).kind is Consensus {
        b.with_task_at(b.task_index(id), joined(b.task(id), agent, now))
    } else {
        b.with_task_at(b.task_index(id), claimed(b.task(id), agent, claim_deadline_after(now)))
    }
}

/// `agent` takes task `id` at `now`: a `HashMatch` task is claimed for
/// `CLAIM_TTL_MINUTES`, a `Consensus` task is joined.
pub fn claim_or_join_at(board: &mut TaskBoard, id: u128, agent: PublicKey, now: Timestamp) -> (r: Result<(), ApiError>)
    requires
        old(board)@.wf(),
        !old(board)@.join_overflows(id, agent@, now),
        old(board)@.has_task(id) && old(board)@.task(id).kind is HashMatch
            ==> in_utc_range(now.nanos + CLAIM_TTL_MINUTES * NANOS_PER_MINUTE),
    ensures
        final(board)@.wf(),
        r is Err <==> claim_or_join_error(old(board)@, id, agent@, now) is Some,
        r matches Err(e) ==> e@ == api_view_of(claim_or_join_error(old(board)@, id, agent@, now).unwrap())
            && final(board)@ == old(board)@,
        r is Ok ==> final(board)@ == claim_or_join_state(old(board)@, id, agent@, now),
{
    let is_consensus = match board.get_task(id) {
        None => return Err(ApiError::from_board_error(BoardError::NotFound)),
        Some(t) => match &t.kind {
            TaskKind::Consensus { .. } => true,
            TaskKind::HashMatch { .. } => false,
        },
    };
    let outcome = if is_consensus {
        board.join_consensus_task_at(id, agent, now)
    } else {
        let deadline = now.plus_minutes(CLAIM_TTL_MINUTES);
        board.claim_task(id, agent, deadline)
    };
    match outcome {
        Ok(()) => Ok(()),
        Err(e) => Err(ApiError::from_board_error(e)),
    }
}

/// `agent` takes task `id` now (see `claim_or_join_at`).  Should the
/// deadline this sets fall past the representable instants, nothing
/// changes and the `DeadlineOutOfRange` refusal is answered.
pub fn claim_or_join(board: &mut TaskBoard, id: u128, agent: PublicKey) -> (r: Result<(), ApiError>)
    requires
        old(board)@.wf(),
    ensures
        final(board)@.wf(),
        r is Err ==> final(board)@ == old(board)@,
        exists|now: Timestamp| #![trigger claim_deadline_after(now)]
            (r is Ok ==> final(board)@ == claim_or_join_state(old(board)@, id, agent@, now))
            && (r matches Err(e) ==> e@ == api_view_of(BoardError::DeadlineOutOfRange)
                || (claim_or_join_error(old(board)@, id, agent@, now) is Some
                    && e@ == api_view_of(claim_or_join_error(old(board)@, id, agent@, now).unwrap()))),
{
    let now = Timestamp::now();
    let ghost t = claim_deadline_after(now);
    if board.join_overflows(id, &agent, now) {
        return Err(ApiError::from_board_error(BoardError::DeadlineOutOfRange));
    }
    let limit = now.nanos + CLAIM_TTL_MINUTES as i128 * NANOS_PER_MINUTE;
    if limit < MIN_UTC_NANOS || limit > MAX_UTC_NANOS {
        return Err(ApiError::from_board_error(BoardError::DeadlineOutOfRange));
    }
    claim_or_join_at(board, id, agent, now)
}

/// Sets a just-created task's reputation gate on the board and on the
/// caller's copy alike; a gate of zero leaves both as they are.
pub fn apply_min_reputation(board: &mut TaskBoard, task: &mut Task, min_reputation: u64)
    requires
        old(board)@.wf(),
        min_reputation > 0 ==> old(board)@.has_task(old(task).id),
    ensures
        final(board)@.wf(),
        min_reputation == 0 ==> final(board)@ == old(board)@ && final(task)@ == old(task)@,
        min_reputation > 0 ==> final(board)@.tasks == old(board)@.tasks.update(old(board)@.task_index(old(task).id),
                TaskView { min_reputation, ..old(board)@.task(old(task).id) })
            && final(board)@.reputation == old(board)@.reputation
            && final(board)@.faucet_grants == old(board)@.faucet_grants
            && final(task)@ == (TaskView { min_reputation, ..old(task)@ }),
{
    if min_reputation > 0 {
        let _ = board.set_min_reputation(task.id, min_reputation);
        task.min_reputation = min_reputation;
    }
}

/// The sum of the values of the outputs not already spoken for.
pub open spec fn unmarked_total(s: Seq<(bool, TransactionOutput)>) -> nat
    decreases s.len(),
{
    if s.len() == 0 {
        0
    } else {
        unmarked_total(s.drop_last()) + if s.last().0 { 0nat } else { s.last().1.value as nat }
    }
}

/// A wallet's spendable balance: the outputs not marked as spoken for,
/// summed; `None` where the sum passes `u64::MAX`.
pub fn unmarked_balance(utxos: &Vec<(bool, TransactionOutput)>) -> (r: Option<u64>)
    ensures
        r == (if unmarked_total(utxos@) <= u64::MAX { Some(unmarked_total(utxos@) as u64) } else { None::<u64> }),
{
    let mut total: u64 = 0;
    let mut i: usize = 0;
    while i < utxos.len()
        invariant
            i <= utxos@.len(),
            total == unmarked_total(utxos@.take(i as int)),
        decreases utxos.len() - i,
    {
        assert(utxos@.take(i + 1).drop_last() =~= utxos@.take(i as int));
        let e = &utxos[i];
        if !e.0 {
            match total.checked_add(e.1.value) {
                Some(t) => total = t,
                None => {
                    proof { lemma_unmarked_total_grows(utxos@, i + 1); }
                    return None;
                },
            }
        }
        i = i + 1;
    }
    assert(utxos@.take(utxos@.len() as int) =~= utxos@);
    Some(total)
}

/// A prefix never sums to more than the whole.
proof fn lemma_unmarked_total_grows(s: Seq<(bool, TransactionOutput)>, k: int)
    requires
        0 <= k <= s.len(),
    ensures
        unmarked_total(s.take(k)) <= unmarked_total(s),
    decreases s.len() - k,
{
    if k < s.len() {
        assert(s.take(k + 1).drop_last() =~= s.take(k));
        lemma_unmarked_total_grows(s, k + 1);
    } else {
        assert(s.take(k) =~= s);
    }
}

/// A client of the chain's nodes: their addresses, tried in order.
#[derive(Clone, Debug)]
pub struct NodeClient {
    addresses: Vec<String>,
}

impl NodeClient {
    /// The addresses, in the order they are tried.
    pub closed spec fn addresses_view(&self) -> Seq<String> {
        self.addresses@
    }

    /// A client trying `addresses` in order.
    pub fn new(addresses: Vec<String>) -> (c: NodeClient)
        ensures
            c.addresses_view() == addresses@,
    {
        NodeClient { addresses }
    }

    /// The addresses, in the order they are tried.
    pub fn addresses(&self) -> (a: &Vec<String>)
        ensures
            a@ == self.addresses_view(),
    {
        &self.addresses
    }
}

/// What a client of the nodes does next while connecting.
#[derive(Clone, Copy, Debug, PartialEq, Eq, Structural)]
pub enum FailoverStep {
    /// Try the address at this position.
    Try(usize),
    /// The address at this position answered: use it.
    Connected(usize),
    /// Every address failed; `configured` says whether there was any.
    Exhausted { configured: bool },
}

impl NodeClient {
    /// The next step of connecting, after the first `tried` addresses were
    /// tried, the last of them with `last_succeeded`: the first address
    /// that answers is used, otherwise the next one is tried, until none
    /// is left.
    pub fn connect_step(&self, tried: usize, last_succeeded: bool) -> (r: FailoverStep)
        ensures
            r == (if tried > 0 && last_succeeded {
                FailoverStep::Connected((tried - 1) as usize)
            } else if tried < self.addresses_view().len() {
                FailoverStep::Try(tried)
            } else {
                FailoverStep::Exhausted { configured: self.addresses_view().len() > 0 }
            }),
    {
        if tried > 0 && last_succeeded {
            FailoverStep::Connected(tried - 1)
        } else if tried < self.addresses.len() {
            FailoverStep::Try(tried)
        } else {
            FailoverStep::Exhausted { configured: self.addresses.len() > 0 }
        }
    }
}

/// What settling one payout does next, before any coin moves.
#[derive(Clone, Copy, Debug, PartialEq, Eq, Structural)]
pub enum SettleStep {
    /// The task is gone: nothing to pay, and not settled.
    Skip,
    /// The recipient was paid meanwhile: settled, nothing to pay.
    AlreadyPaid,
    /// Send the payment.
    Pay,
}

/// The check just before paying `recipient` their share of task `id`,
/// on the board as it is now (a concurrent settlement may have paid them
/// since the payouts were listed).
pub fn settle_step(board: &TaskBoard, id: u128, recipient: &PublicKey) -> (r: SettleStep)
    requires
        board@.wf(),
    ensures
        r == (if !board@.has_task(id) {
            SettleStep::Skip
        } else if is_recipient_paid_of(board@.task(id), recipient@) {
            SettleStep::AlreadyPaid
        } else {
            SettleStep::Pay
        }),
{
    match board.get_task(id) {
        None => SettleStep::Skip,
        Some(task) => {
            proof {
                let i = board@.task_index(id);
                assert(task_wf(board@.tasks[i]));
            }
            if task.is_recipient_paid(recipient) {
                SettleStep::AlreadyPaid
            } else {
                SettleStep::Pay
            }
        },
    }
}

/// Records, after the payment was sent, that `recipient` got `amount`
/// of task `id`'s bounty: `false` where the payment failed (nothing is
/// recorded, and the settlement is retried later) or the board refuses
/// the record; `true` once it is recorded.
pub fn record_payout(board: &mut TaskBoard, id: u128, recipient: &PublicKey, amount: u64, payment_sent: bool) -> (r: bool)
    requires
        old(board)@.wf(),
        payment_sent && old(board)@.pay_error(id, recipient@) is None && !already_paid(old(board)@.task(id), recipient@)
            ==> old(board)@.reputation_of(recipient@).completed < u64::MAX
                && old(board)@.reputation_of(recipient@).total_earned + amount <= u64::MAX,
    ensures
        final(board)@.wf(),
        !payment_sent ==> !r && final(board)@ == old(board)@,
        payment_sent ==> (r <==> old(board)@.pay_error(id, recipient@) is None),
        payment_sent && old(board)@.pay_error(id, recipient@) is Some ==> final(board)@ == old(board)@,
        payment_sent && old(board)@.pay_error(id, recipient@) is None && already_paid(old(board)@.task(id), recipient@)
            ==> final(board)@ == old(board)@,
        payment_sent && old(board)@.pay_error(id, recipient@) is None && !already_paid(old(board)@.task(id), recipient@) ==> {
            &&& final(board)@.tasks == old(board)@.tasks.update(old(board)@.task_index(id), with_paid(old(board)@.task(id), recipient@))
            &&& final(board)@.reputation_map() == with_payout(old(board)@.reputation_map(), recipient@, amount)
            &&& final(board)@.faucet_grants == old(board)@.faucet_grants
        },
{
    if !payment_sent {
        return false;
    }
    board.mark_recipient_paid(id, recipient, amount).is_ok()
}

/// How a task's kind is shown: a consensus task shows how many have
/// joined but never who or what they answered.
#[derive(Clone, Copy, Debug, PartialEq, Eq, Structural)]
pub enum TaskKindDto {
    HashMatch,
    Consensus {
        num_assignees: u32,
        assignees_joined: u32,
        join_deadline: Timestamp,
        submission_deadline: Option<Timestamp>,
    },
}

/// A task as the hub shows it: keys as hex, and never the expected hash
/// or anyone's answer.
#[derive(Clone, Debug)]
pub struct TaskDto {
    pub id: u128,
    pub description: String,
    pub bounty: u64,
    pub status: TaskStatus,
    pub poster: String,
    pub claimant: Option<String>,
    pub failed_attempts: u32,
    pub min_reputation: u64,
    pub close_reason: Option<CloseReason>,
    pub kind: TaskKindDto,
}

/// The shown form of a task's kind.
pub open spec fn kind_dto_of(k: KindView) -> TaskKindDto {
    match k {
        KindView::HashMatch { .. } => TaskKindDto::HashMatch,
        KindView::Consensus { num_assignees, join_deadline, submission_deadline, assignees, .. } => TaskKindDto::Consensus {
            num_assignees,
            assignees_joined: assignees.len() as u32,
            join_deadline,
            submission_deadline,
        },
    }
}

impl TaskDto {
    /// The shown form of `task`.
    pub fn from_task(task: &Task) -> (d: TaskDto)
        ensures
            d.id == task@.id,
            d.description@ == task@.description,
            d.bounty == task@.bounty,
            d.status == task@.status,
            d.poster@ == hex_text(task@.poster),
            d.claimant is Some <==> task@.claimant is Some,
            d.claimant matches Some(c) ==> c@ == hex_text(task@.claimant.unwrap()),
            d.failed_attempts == task@.failed_attempts,
            d.min_reputation == task@.min_reputation,
            d.close_reason == task@.close_reason,
            d.kind == kind_dto_of(task@.kind),
    {
        let kind = match &task.kind {
            TaskKind::HashMatch { .. } => TaskKindDto::HashMatch,
            TaskKind::Consensus { num_assignees, join_deadline, submission_deadline, assignees, .. } => TaskKindDto::Consensus {
                num_assignees: *num_assignees,
                assignees_joined: assignees.len() as u32,
                join_deadline: *join_deadline,
                submission_deadline: *submission_deadline,
            },
        };
        let claimant = match &task.claimant {
            Some(k) => Some(k.to_hex()),
            None => None,
        };
        TaskDto {
            id: task.id,
            description: task.description.clone(),
            bounty: task.bounty,
            status: task.status,
            poster: task.poster.to_hex(),
            claimant,
            failed_attempts: task.failed_attempts,
            min_reputation: task.min_reputation,
            close_reason: task.close_reason,
            kind,
        }
    }
}

/// What the operator can still promise: its balance less what unpaid
/// tasks already hold, or nothing where they hold more.
pub open spec fn free_balance(balance: u64, allocated: nat) -> nat {
    if balance >= allocated { (balance - allocated) as nat } else { 0 }
}

/// The expected hash a task request's hex (as UTF-8 bytes) spells,
/// where it spells 32 bytes.
pub open spec fn requested_hash(text: Seq<char>) -> Option<nat> {
    match hex_decoded(vstd::utf8::encode_utf8(text)) {
        Some(b) => if b.len() == 32 { Some(le_value(b)) } else { None },
        None => None,
    }
}

/// A `HashMatch` task as posted: new, with its reputation gate.
pub open spec fn posted_hash_task(id: u128, now: Timestamp, poster: Seq<u8>, p: CreateTaskPayload, hash: nat) -> TaskView {
    TaskView { min_reputation: p.min_reputation, ..new_hash_task(id, now, poster, p.description@, p.bounty, hash) }
}

/// Posts a `HashMatch` task as the hub does once the operator's on-chain
/// `balance` is known: only the operator may post, the expected hash
/// must be 32 bytes of hex, and the balance not yet promised to other
/// tasks must cover the bounty.  The task goes on the board under `id`,
/// created at `now`, with the request's reputation gate.  A refusal
/// changes nothing.
pub fn post_task_at(
    board: &mut TaskBoard,
    poster: PublicKey,
    operator: &PublicKey,
    payload: CreateTaskPayload,
    balance: u64,
    id: u128,
    now: Timestamp,
) -> (r: Result<Task, ApiError>)
    requires
        old(board)@.wf(),
        allocated(old(board)@.tasks) <= u64::MAX,
    ensures
        final(board)@.wf(),
        r is Err ==> final(board)@ == old(board)@,
        poster@ != operator@ ==> (r matches Err(e) && e@ == (403u16, "only the hub operator may post tasks"@)),
        poster@ == operator@ && hex_decoded(vstd::utf8::encode_utf8(payload.expected_output_hash@)) is None ==> (r matches Err(e)
            && e@.0 == 400 && e@.1.len() >= "expected_output_hash isn't valid hex: "@.len()
            && e@.1.subrange(0, "expected_output_hash isn't valid hex: "@.len() as int) == "expected_output_hash isn't valid hex: "@),
        poster@ == operator@ && hex_decoded(vstd::utf8::encode_utf8(payload.expected_output_hash@)) is Some
            && requested_hash(payload.expected_output_hash@) is None ==> (r matches Err(e)
            && e@ == (400u16, "expected_output_hash must be exactly 32 bytes (64 hex chars)"@)),
        poster@ == operator@ && requested_hash(payload.expected_output_hash@) is Some
            && free_balance(balance, allocated(old(board)@.tasks)) < payload.bounty ==> (r matches Err(e)
            && e@ == (400u16, escrow_text(balance, allocated(old(board)@.tasks) as u64, payload.bounty))),
        poster@ == operator@ && requested_hash(payload.expected_output_hash@) is Some
            && free_balance(balance, allocated(old(board)@.tasks)) >= payload.bounty ==> (r matches Ok(t)
            && t@ == posted_hash_task(id, now, poster@, payload, requested_hash(payload.expected_output_hash@).unwrap())
            && final(board)@.tasks == put_task(old(board)@.tasks, t@)
            && final(board)@.reputation == old(board)@.reputation
            && final(board)@.faucet_grants == old(board)@.faucet_grants),
{
    require_operator(&poster, operator)?;
    let hash = parse_hex_hash(payload.expected_output_hash.as_str())?;
    let committed = board.allocated_bounty();
    ensure_operator_can_fund(balance, committed, payload.bounty)?;
    let ghost before = board@;
    let min_reputation = payload.min_reputation;
    let mut task = board.create_task_with(id, now, poster, payload.description, payload.bounty, hash);
    let ghost t0 = task@;
    proof {
        lemma_put_then_replace(before.tasks, t0, TaskView { min_reputation, ..t0 });
    }
    apply_min_reputation(board, &mut task, min_reputation);
    proof {
        if min_reputation == 0 {
            assert(TaskView { min_reputation, ..t0 } == t0);
        }
    }
    Ok(task)
}

/// The join deadline of a consensus task posted at `now` with a join
/// window of `minutes`.
pub open spec fn join_deadline_after(now: Timestamp, minutes: i64) -> Timestamp {
    Timestamp { nanos: (now.nanos + minutes * NANOS_PER_MINUTE) as i128 }
}

/// A `Consensus` task as posted: new, joinable for its join window from
/// `now`, with its reputation gate.
pub open spec fn posted_consensus_task(id: u128, now: Timestamp, poster: Seq<u8>, p: CreateConsensusTaskPayload) -> TaskView {
    TaskView {
        min_reputation: p.min_reputation,
        ..new_consensus_task(id, now, poster, p.description@, p.bounty, p.num_assignees,
            join_deadline_after(now, p.join_window_minutes), p.submission_window_minutes)
    }
}

/// Posts a `Consensus` task as the hub does once the operator's on-chain
/// `balance` is known: only the operator may post, the request's numbers
/// must pass `validate_consensus_payload`, and the balance not yet
/// promised must cover the bounty.  The task goes on the board under
/// `id`, created at `now`, joinable until its join window from `now` has
/// passed.  A refusal changes nothing.
pub fn post_consensus_task_at(
    board: &mut TaskBoard,
    poster: PublicKey,
    operator: &PublicKey,
    payload: CreateConsensusTaskPayload,
    balance: u64,
    id: u128,
    now: Timestamp,
) -> (r: Result<Task, ApiError>)
    requires
        old(board)@.wf(),
        allocated(old(board)@.tasks) <= u64::MAX,
        poster@ == operator@
            && consensus_payload_error(payload.num_assignees, payload.join_window_minutes, payload.submission_window_minutes) is None
            && free_balance(balance, allocated(old(board)@.tasks)) >= payload.bounty
            ==> in_utc_range(now.nanos + payload.join_window_minutes * NANOS_PER_MINUTE),
    ensures
        final(board)@.wf(),
        r is Err ==> final(board)@ == old(board)@,
        poster@ != operator@ ==> (r matches Err(e) && e@ == (403u16, "only the hub operator may post tasks"@)),
        poster@ == operator@ ==> match consensus_payload_error(payload.num_assignees, payload.join_window_minutes, payload.submission_window_minutes) {
            Some(text) => r matches Err(e) && e@ == (400u16, text),
            None => if free_balance(balance, allocated(old(board)@.tasks)) < payload.bounty {
                r matches Err(e) && e@ == (400u16, escrow_text(balance, allocated(old(board)@.tasks) as u64, payload.bounty))
            } else {
                r matches Ok(t)
                    && t@ == posted_consensus_task(id, now, poster@, payload)
                    && final(board)@.tasks == put_task(old(board)@.tasks, t@)
                    && final(board)@.reputation == old(board)@.reputation
                    && final(board)@.faucet_grants == old(board)@.faucet_grants
            },
        },
{
    require_operator(&poster, operator)?;
    validate_consensus_payload(&payload)?;
    let committed = board.allocated_bounty();
    ensure_operator_can_fund(balance, committed, payload.bounty)?;
    let join_deadline = now.plus_minutes(payload.join_window_minutes);
    let ghost before = board@;
    let min_reputation = payload.min_reputation;
    let mut task = board.create_consensus_task_with(id, now, poster, payload.description, payload.bounty,
        payload.num_assignees, join_deadline, payload.submission_window_minutes);
    let ghost t0 = task@;
    proof {
        lemma_put_then_replace(before.tasks, t0, TaskView { min_reputation, ..t0 });
    }
    apply_min_reputation(board, &mut task, min_reputation);
    proof {
        if min_reputation == 0 {
            assert(TaskView { min_reputation, ..t0 } == t0);
        }
    }
    Ok(task)
}

} // verus!
