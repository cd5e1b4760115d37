//! The task market: tasks with bounties, claims, submissions, majority
//! consensus, payouts and reputation.  Pure state; no I/O.  Every
//! operation that reads the clock or draws an id has a twin that takes
//! the instant or the id as an argument and is exactly specified.
use vstd::prelude::*;
use crate::crypto::{PublicKey, bytes_lt};
use crate::keymap::{key_seq, keys_sorted, map_view, has_key, key_index, find_key, upsert, lemma_map_view_at};
use crate::time::{Timestamp, in_utc_range, NANOS_PER_MINUTE};

verus! {

/// Why a board operation was refused.
#[derive(Clone, Copy, Debug, PartialEq, Eq, Structural)]
pub enum BoardError {
    NotFound,
    NotOpen,
    NotClaimed,
    NotClaimant,
    NotVerified,
    AlreadyClaimed,
    AlreadyJoined,
    JoinWindowExpired,
    SubmissionWindowExpired,
    WrongTaskKind,
    AlreadySubmitted,
    InsufficientReputation { required: u64, have: u64 },
    /// The submission deadline of a task filling up now would fall outside
    /// the range of representable instants.
    DeadlineOutOfRange,
}

/// Where a task stands.
#[derive(Clone, Copy, Debug, PartialEq, Eq, Structural)]
pub enum TaskStatus {
    Open,
    Claimed,
    /// A winner is determined; the payout is not yet recorded.
    Verified,
    Paid,
    /// `Consensus` only: ended with nobody owed anything.
    Closed,
}

/// Why a `Consensus` task ended `Closed`.
#[derive(Clone, Copy, Debug, PartialEq, Eq, Structural)]
pub enum CloseReason {
    /// No answer had strictly more votes than every other.
    NoMajority,
    /// Never reached its number of assignees before the join deadline.
    Understaffed,
}

/// One assignee's part in a `Consensus` task.
#[derive(Clone, Debug)]
pub struct ConsensusAssignment {
    pub answer: Option<String>,
    pub paid: bool,
    /// Fixed once at resolution, for winners only.
    pub share: Option<u64>,
}

/// What a `ConsensusAssignment` holds.
pub struct AssignmentView {
    pub answer: Option<Seq<char>>,
    pub paid: bool,
    pub share: Option<u64>,
}

impl View for ConsensusAssignment {
    type V = AssignmentView;

    open spec fn view(&self) -> AssignmentView {
        AssignmentView {
            answer: match self.answer {
                Some(a) => Some(a@),
                None => None,
            },
            paid: self.paid,
            share: self.share,
        }
    }
}

impl ConsensusAssignment {
    /// A fresh assignment: no answer, unpaid, no share.
    pub fn fresh() -> (a: ConsensusAssignment)
        ensures
            a@.answer is None,
            !a@.paid,
            a@.share is None,
    {
        ConsensusAssignment { answer: None, paid: false, share: None }
    }
}

/// How a task's output is checked.
#[derive(Debug)]
pub enum TaskKind {
    /// The output's hash must equal a fixed hash.
    HashMatch { expected_output_hash: crate::hash::Hash },
    /// `num_assignees` agents answer independently; the majority wins.
    Consensus {
        num_assignees: u32,
        join_deadline: Timestamp,
        submission_window_minutes: i64,
        /// Set when the task fills up.
        submission_deadline: Option<Timestamp>,
        /// Sorted by key.
        assignees: Vec<(PublicKey, ConsensusAssignment)>,
    },
}

/// What a `TaskKind` holds.
pub enum KindView {
    HashMatch { expected_output_hash: nat },
    Consensus {
        num_assignees: u32,
        join_deadline: Timestamp,
        submission_window_minutes: i64,
        submission_deadline: Option<Timestamp>,
        /// Sorted by key.
        assignees: Seq<(Seq<u8>, AssignmentView)>,
    },
}

impl View for TaskKind {
    type V = KindView;

    open spec fn view(&self) -> KindView {
        match self {
            TaskKind::HashMatch { expected_output_hash } => KindView::HashMatch { expected_output_hash: expected_output_hash@ },
            TaskKind::Consensus { num_assignees, join_deadline, submission_window_minutes, submission_deadline, assignees } =>
                KindView::Consensus {
                    num_assignees: *num_assignees,
                    join_deadline: *join_deadline,
                    submission_window_minutes: *submission_window_minutes,
                    submission_deadline: *submission_deadline,
                    assignees: assignees_view(assignees@),
                },
        }
    }
}

/// A task on the board.
#[derive(Debug)]
pub struct Task {
    pub id: u128,
    pub description: String,
    pub bounty: u64,
    pub kind: TaskKind,
    pub poster: PublicKey,
    pub status: TaskStatus,
    /// `HashMatch` only.
    pub claimant: Option<PublicKey>,
    /// `HashMatch` only.
    pub claim_deadline: Option<Timestamp>,
    pub failed_attempts: u32,
    pub created_at: Timestamp,
    /// Completed tasks an agent needs before claiming or joining.
    pub min_reputation: u64,
    pub close_reason: Option<CloseReason>,
}

/// What a `Task` holds.
pub struct TaskView {
    pub id: u128,
    pub description: Seq<char>,
    pub bounty: u64,
    pub kind: KindView,
    pub poster: Seq<u8>,
    pub status: TaskStatus,
    pub claimant: Option<Seq<u8>>,
    pub claim_deadline: Option<Timestamp>,
    pub failed_attempts: u32,
    pub created_at: Timestamp,
    pub min_reputation: u64,
    pub close_reason: Option<CloseReason>,
}

impl View for Task {
    type V = TaskView;

    open spec fn view(&self) -> TaskView {
        TaskView {
            id: self.id,
            description: self.description@,
            bounty: self.bounty,
            kind: self.kind@,
            poster: self.poster@,
            status: self.status,
            claimant: match self.claimant {
                Some(k) => Some(k@),
                None => None,
            },
            claim_deadline: self.claim_deadline,
            failed_attempts: self.failed_attempts,
            created_at: self.created_at,
            min_reputation: self.min_reputation,
            close_reason: self.close_reason,
        }
    }
}

/// An agent's track record.
#[derive(Clone, Copy, Debug, PartialEq, Eq, Structural)]
pub struct Reputation {
    pub completed: u64,
    pub failed: u64,
    pub total_earned: u64,
}

impl View for Reputation {
    type V = Reputation;

    open spec fn view(&self) -> Reputation {
        *self
    }
}

impl Reputation {
    /// The record of an agent with no history.
    pub fn empty() -> (r: Reputation)
        ensures
            r == empty_reputation(),
    {
        Reputation { completed: 0, failed: 0, total_earned: 0 }
    }
}

/// The record of an agent with no history.
pub open spec fn empty_reputation() -> Reputation {
    Reputation { completed: 0, failed: 0, total_earned: 0 }
}

/// An assignee list read as (key bytes, assignment) pairs.
pub open spec fn assignees_view(s: Seq<(PublicKey, ConsensusAssignment)>) -> Seq<(Seq<u8>, AssignmentView)> {
    s.map_values(|e: (PublicKey, ConsensusAssignment)| (e.0@, e.1@))
}

/// The keys of a list of (key, value) pairs, in order.
pub open spec fn entry_keys<V>(s: Seq<(Seq<u8>, V)>) -> Seq<Seq<u8>> {
    s.map_values(|e: (Seq<u8>, V)| e.0)
}

/// Whether `k` is a key of the list.
pub open spec fn has_entry<V>(s: Seq<(Seq<u8>, V)>, k: Seq<u8>) -> bool {
    exists|i: int| 0 <= i < s.len() && #[trigger] s[i].0 == k
}

/// The position of key `k` (meaningful where `has_entry`).
pub open spec fn entry_index<V>(s: Seq<(Seq<u8>, V)>, k: Seq<u8>) -> int {
    choose|i: int| 0 <= i < s.len() && #[trigger] s[i].0 == k
}

/// A fresh assignment's view.
pub open spec fn fresh_assignment() -> AssignmentView {
    AssignmentView { answer: None, paid: false, share: None }
}

/// What a task must satisfy on the board: a consensus task's assignees
/// are sorted by key, and a claimed consensus task has its submission
/// deadline (set in the same step that moves it to `Claimed`).
pub open spec fn task_wf(t: TaskView) -> bool {
    match t.kind {
        KindView::HashMatch { .. } => true,
        KindView::Consensus { assignees, submission_deadline, .. } => {
            &&& keys_sorted(entry_keys(assignees))
            &&& (t.status == TaskStatus::Claimed ==> submission_deadline is Some)
        },
    }
}

/// The key order of an assignee list and of its view agree.
pub proof fn lemma_assignee_keys(s: Seq<(PublicKey, ConsensusAssignment)>)
    ensures
        entry_keys(assignees_view(s)) == key_seq(s),
        assignees_view(s).len() == s.len(),
{
    assert(entry_keys(assignees_view(s)) =~= key_seq(s));
}

/// In a sorted list each key sits at exactly one position.
pub proof fn lemma_entry_unique<V>(s: Seq<(Seq<u8>, V)>, i: int, j: int)
    requires
        keys_sorted(entry_keys(s)),
        0 <= i < s.len(),
        0 <= j < s.len(),
        s[i].0 == s[j].0,
    ensures
        i == j,
{
    if i < j {
        assert(bytes_lt(entry_keys(s)[i], entry_keys(s)[j]));
        crate::crypto::lemma_bytes_lt_irreflexive(s[i].0);
    } else if j < i {
        assert(bytes_lt(entry_keys(s)[j], entry_keys(s)[i]));
        crate::crypto::lemma_bytes_lt_irreflexive(s[i].0);
    }
}

/// The position of the key at `i` is `i`.
pub proof fn lemma_entry_index<V>(s: Seq<(Seq<u8>, V)>, i: int)
    requires
        keys_sorted(entry_keys(s)),
        0 <= i < s.len(),
    ensures
        has_entry(s, s[i].0),
        entry_index(s, s[i].0) == i,
{
    assert(has_entry(s, s[i].0));
    lemma_entry_unique(s, i, entry_index(s, s[i].0));
}

/// Task ids strictly increasing (the order of a `BTreeMap<Uuid, Task>`;
/// a `Uuid` orders as its big-endian `u128`).
pub open spec fn ids_sorted(ts: Seq<TaskView>) -> bool {
    forall|i: int, j: int| 0 <= i < j < ts.len() ==> (#[trigger] ts[i]).id < (#[trigger] ts[j]).id
}

/// Whether a task with this id is on the board.
pub open spec fn has_task(ts: Seq<TaskView>, id: u128) -> bool {
    exists|i: int| 0 <= i < ts.len() && (#[trigger] ts[i]).id == id
}

/// The position of the task with this id (meaningful where `has_task`).
pub open spec fn task_index(ts: Seq<TaskView>, id: u128) -> int {
    choose|i: int| 0 <= i < ts.len() && (#[trigger] ts[i]).id == id
}

/// The task with this id (meaningful where `has_task`).
pub open spec fn task_of(ts: Seq<TaskView>, id: u128) -> TaskView {
    ts[task_index(ts, id)]
}

/// An agent's record in a reputation map: the stored one, or the empty one.
pub open spec fn rep_in(m: Map<Seq<u8>, Reputation>, k: Seq<u8>) -> Reputation {
    if m.contains_key(k) {
        m[k]
    } else {
        empty_reputation()
    }
}

/// A record with one more failure.
pub open spec fn plus_failure(r: Reputation) -> Reputation {
    Reputation { failed: (r.failed + 1) as u64, ..r }
}

/// The reputation map after one more failure for `k`.
pub open spec fn with_failure(m: Map<Seq<u8>, Reputation>, k: Seq<u8>) -> Map<Seq<u8>, Reputation> {
    m.insert(k, plus_failure(rep_in(m, k)))
}

/// The reputation map after one more failure for each key in `ks`.
pub open spec fn with_failures(m: Map<Seq<u8>, Reputation>, ks: Set<Seq<u8>>) -> Map<Seq<u8>, Reputation> {
    Map::new(
        |k: Seq<u8>| m.contains_key(k) || ks.contains(k),
        |k: Seq<u8>| if ks.contains(k) { plus_failure(rep_in(m, k)) } else { m[k] },
    )
}

/// The reputation map after `k` is credited with a completed task paying
/// `amount`.
pub open spec fn with_payout(m: Map<Seq<u8>, Reputation>, k: Seq<u8>, amount: u64) -> Map<Seq<u8>, Reputation> {
    m.insert(k, Reputation {
        completed: (rep_in(m, k).completed + 1) as u64,
        total_earned: (rep_in(m, k).total_earned + amount) as u64,
        ..rep_in(m, k)
    })
}

/// `Ok(())` where no error is due, else that error.
pub open spec fn outcome(e: Option<BoardError>) -> Result<(), BoardError> {
    match e {
        Some(err) => Err(err),
        None => Ok(()),
    }
}

/// What the board holds.
pub struct BoardView {
    /// Sorted by id.
    pub tasks: Seq<TaskView>,
    /// Sorted by key.
    pub reputation: Seq<(PublicKey, Reputation)>,
    /// Sorted by key.
    pub faucet_grants: Seq<(PublicKey, ())>,
}

impl BoardView {
    /// Every agent's reputation record, by key.
    pub open spec fn reputation_map(self) -> Map<Seq<u8>, Reputation> {
        map_view(self.reputation)
    }

    /// An agent's record: the stored one, or the empty one.
    pub open spec fn reputation_of(self, k: Seq<u8>) -> Reputation {
        rep_in(self.reputation_map(), k)
    }

    /// The keys holding (or reserving) a faucet grant.
    pub open spec fn faucet_set(self) -> Set<Seq<u8>> {
        map_view(self.faucet_grants).dom()
    }

    pub open spec fn has_task(self, id: u128) -> bool {
        has_task(self.tasks, id)
    }

    pub open spec fn task(self, id: u128) -> TaskView {
        task_of(self.tasks, id)
    }

    pub open spec fn task_index(self, id: u128) -> int {
        task_index(self.tasks, id)
    }

    /// The board with the task at `i` replaced.
    pub open spec fn with_task_at(self, i: int, t: TaskView) -> BoardView {
        BoardView { tasks: self.tasks.update(i, t), ..self }
    }

    /// The error `claim_task` gives, if any.
    pub open spec fn claim_error(self, id: u128, claimant: Seq<u8>) -> Option<BoardError> {
        if !self.has_task(id) {
            Some(BoardError::NotFound)
        } else if !(self.task(id).kind is HashMatch) {
            Some(BoardError::WrongTaskKind)
        } else if self.task(id).status != TaskStatus::Open {
            Some(BoardError::NotOpen)
        } else if self.reputation_of(claimant).completed < self.task(id).min_reputation {
            Some(BoardError::InsufficientReputation {
                required: self.task(id).min_reputation,
                have: self.reputation_of(claimant).completed,
            })
        } else {
            None
        }
    }

    /// The error `submit` gives, if any.
    pub open spec fn submit_error(self, id: u128, submitter: Seq<u8>) -> Option<BoardError> {
        if !self.has_task(id) {
            Some(BoardError::NotFound)
        } else if !(self.task(id).kind is HashMatch) {
            Some(BoardError::WrongTaskKind)
        } else if self.task(id).status != TaskStatus::Claimed {
            Some(BoardError::NotClaimed)
        } else if self.task(id).claimant != Some(submitter) {
            Some(BoardError::NotClaimant)
        } else {
            None
        }
    }

    /// The error joining `agent` to task `id` at `now` gives, if any.
    pub open spec fn join_error(self, id: u128, agent: Seq<u8>, now: Timestamp) -> Option<BoardError> {
        if !self.has_task(id) {
            Some(BoardError::NotFound)
        } else {
            let t = self.task(id);
            match t.kind {
                KindView::HashMatch { .. } => Some(BoardError::WrongTaskKind),
                KindView::Consensus { join_deadline, assignees, .. } => {
                    if t.status != TaskStatus::Open {
                        Some(BoardError::NotOpen)
                    } else if now.nanos > join_deadline.nanos {
                        Some(BoardError::JoinWindowExpired)
                    } else if self.reputation_of(agent).completed < t.min_reputation {
                        Some(BoardError::InsufficientReputation {
                            required: t.min_reputation,
                            have: self.reputation_of(agent).completed,
                        })
                    } else if has_entry(assignees, agent) {
                        Some(BoardError::AlreadyJoined)
                    } else {
                        None
                    }
                },
            }
        }
    }

    /// Whether a successful join of `agent` at `now` would fill task `id`
    /// with a submission deadline past the representable instants.
    pub open spec fn join_overflows(self, id: u128, agent: Seq<u8>, now: Timestamp) -> bool {
        &&& self.join_error(id, agent, now) is None
        &&& join_fills(self.task(id), agent)
        &&& !in_utc_range(fill_deadline(self.task(id), now))
    }

    /// Whether `agent`'s answer to task `id` would be accepted, ignoring
    /// the submission deadline.
    pub open spec fn answer_accepted_untimed(self, id: u128, agent: Seq<u8>) -> bool {
        &&& self.has_task(id)
        &&& self.task(id).kind matches KindView::Consensus { assignees, .. }
            && self.task(id).status == TaskStatus::Claimed
            && has_entry(assignees, agent)
            && assignees[entry_index(assignees, agent)].1.answer is None
    }

    /// The error submitting `agent`'s answer to task `id` at `now` gives,
    /// if any.
    pub open spec fn answer_error(self, id: u128, agent: Seq<u8>, now: Timestamp) -> Option<BoardError> {
        if !self.has_task(id) {
            Some(BoardError::NotFound)
        } else {
            let t = self.task(id);
            match t.kind {
                KindView::HashMatch { .. } => Some(BoardError::WrongTaskKind),
                KindView::Consensus { submission_deadline, assignees, .. } => {
                    if t.status != TaskStatus::Claimed {
                        Some(BoardError::NotClaimed)
                    } else if now.nanos > submission_deadline.unwrap().nanos {
                        Some(BoardError::SubmissionWindowExpired)
                    } else if !has_entry(assignees, agent) {
                        Some(BoardError::NotClaimant)
                    } else if assignees[entry_index(assignees, agent)].1.answer is Some {
                        Some(BoardError::AlreadySubmitted)
                    } else {
                        None
                    }
                },
            }
        }
    }

    /// Whether resolving `t` would charge no agent past `u64::MAX`
    /// failures.
    pub open spec fn losers_fit(self, t: TaskView) -> bool {
        forall|k: Seq<u8>| #[trigger] resolution_losers(t).contains(k) ==> self.reputation_of(k).failed < u64::MAX
    }

    /// The error recording a payout to `recipient` for task `id` gives,
    /// if any.
    pub open spec fn pay_error(self, id: u128, recipient: Seq<u8>) -> Option<BoardError> {
        if !self.has_task(id) {
            Some(BoardError::NotFound)
        } else {
            let t = self.task(id);
            if t.status != TaskStatus::Verified {
                Some(BoardError::NotVerified)
            } else {
                match t.kind {
                    KindView::HashMatch { .. } => if t.claimant != Some(recipient) {
                        Some(BoardError::NotClaimant)
                    } else {
                        None
                    },
                    KindView::Consensus { assignees, .. } => if !has_entry(assignees, recipient)
                        || assignees[entry_index(assignees, recipient)].1.share is None {
                        Some(BoardError::NotClaimant)
                    } else {
                        None
                    },
                }
            }
        }
    }

    /// The board's invariant.
    pub open spec fn wf(self) -> bool {
        &&& ids_sorted(self.tasks)
        &&& forall|i: int| 0 <= i < self.tasks.len() ==> task_wf(#[trigger] self.tasks[i])
        &&& keys_sorted(key_seq(self.reputation))
        &&& keys_sorted(key_seq(self.faucet_grants))
    }
}

/// The task market's state.
#[derive(Debug)]
pub struct TaskBoard {
    tasks: Vec<Task>,
    reputation: Vec<(PublicKey, Reputation)>,
    faucet_grants: Vec<(PublicKey, ())>,
}

impl View for TaskBoard {
    type V = BoardView;

    closed spec fn view(&self) -> BoardView {
        BoardView {
            tasks: self.tasks@.map_values(|t: Task| t@),
            reputation: self.reputation@,
            faucet_grants: self.faucet_grants@,
        }
    }
}

/// In a board with sorted ids, each id sits at exactly one position.
pub proof fn lemma_task_index(ts: Seq<TaskView>, i: int)
    requires
        ids_sorted(ts),
        0 <= i < ts.len(),
    ensures
        has_task(ts, ts[i].id),
        task_index(ts, ts[i].id) == i,
{
    assert(has_task(ts, ts[i].id));
    let j = task_index(ts, ts[i].id);
    if j < i {
        assert(ts[j].id < ts[i].id);
    } else if j > i {
        assert(ts[i].id < ts[j].id);
    }
}


/// The (recipient, amount) pairs still owed among consensus assignees, in
/// key order: every unpaid assignee that has a share.
pub open spec fn owed_assignees(s: Seq<(Seq<u8>, AssignmentView)>) -> Seq<(Seq<u8>, u64)>
    decreases s.len(),
{
    if s.len() == 0 {
        Seq::empty()
    } else {
        let rest = owed_assignees(s.drop_last());
        let last = s.last();
        if !last.1.paid && last.1.share is Some {
            rest.push((last.0, last.1.share.unwrap()))
        } else {
            rest
        }
    }
}

/// Every (recipient, amount) pair still owed for a task: nothing unless it
/// is `Verified`; its claimant and the bounty for `HashMatch`; the unpaid
/// winners and their shares for `Consensus`.
pub open spec fn pending_payouts_of(t: TaskView) -> Seq<(Seq<u8>, u64)> {
    if t.status != TaskStatus::Verified {
        Seq::empty()
    } else {
        match t.kind {
            KindView::HashMatch { .. } => match t.claimant {
                Some(c) => seq![(c, t.bounty)],
                None => Seq::empty(),
            },
            KindView::Consensus { assignees, .. } => owed_assignees(assignees),
        }
    }
}

/// Whether `recipient` has been paid its part of a task.
pub open spec fn is_recipient_paid_of(t: TaskView, recipient: Seq<u8>) -> bool {
    match t.kind {
        KindView::HashMatch { .. } => t.status == TaskStatus::Paid && t.claimant == Some(recipient),
        KindView::Consensus { assignees, .. } => {
            has_entry(assignees, recipient) && assignees[entry_index(assignees, recipient)].1.paid
        },
    }
}

/// The assignee keys of a task: all of them for `Consensus`, none for
/// `HashMatch`.
pub open spec fn consensus_assignees_of(t: TaskView) -> Seq<Seq<u8>> {
    match t.kind {
        KindView::HashMatch { .. } => Seq::empty(),
        KindView::Consensus { assignees, .. } => entry_keys(assignees),
    }
}

/// A `HashMatch` task claimed by `claimant` until `deadline`.
pub open spec fn claimed(t: TaskView, claimant: Seq<u8>, deadline: Timestamp) -> TaskView {
    TaskView { status: TaskStatus::Claimed, claimant: Some(claimant), claim_deadline: Some(deadline), ..t }
}

/// A `HashMatch` task whose claim ended without success: open again, one
/// more failed attempt.
pub open spec fn reopened_after_failure(t: TaskView) -> TaskView {
    TaskView {
        status: TaskStatus::Open,
        claimant: None,
        claim_deadline: None,
        failed_attempts: (t.failed_attempts + 1) as u32,
        ..t
    }
}

/// The hash a `HashMatch` task expects.
pub open spec fn expected_hash_of(t: TaskView) -> nat {
    match t.kind {
        KindView::HashMatch { expected_output_hash } => expected_output_hash,
        KindView::Consensus { .. } => 0,
    }
}

/// Whether `p` is where key `k` goes to keep the list sorted.
pub open spec fn is_insert_pos<V>(s: Seq<(Seq<u8>, V)>, k: Seq<u8>, p: int) -> bool {
    &&& 0 <= p <= s.len()
    &&& forall|i: int| 0 <= i < p ==> bytes_lt(#[trigger] s[i].0, k)
    &&& forall|i: int| p <= i < s.len() ==> bytes_lt(k, #[trigger] s[i].0)
}

/// The position where key `k` goes to keep the list sorted.
pub open spec fn insert_pos<V>(s: Seq<(Seq<u8>, V)>, k: Seq<u8>) -> int {
    choose|p: int| is_insert_pos(s, k, p)
}

/// The assignees after `k` joins with a fresh assignment.
pub open spec fn with_joined(s: Seq<(Seq<u8>, AssignmentView)>, k: Seq<u8>) -> Seq<(Seq<u8>, AssignmentView)> {
    s.insert(insert_pos(s, k), (k, fresh_assignment()))
}

/// Whether `k` joining a consensus task fills it up.
pub open spec fn join_fills(t: TaskView, k: Seq<u8>) -> bool {
    match t.kind {
        KindView::Consensus { num_assignees, assignees, .. } => (with_joined(assignees, k).len() as u32) >= num_assignees,
        KindView::HashMatch { .. } => false,
    }
}

/// The submission deadline a consensus task gets when it fills at `now`.
pub open spec fn fill_deadline(t: TaskView, now: Timestamp) -> int {
    match t.kind {
        KindView::Consensus { submission_window_minutes, .. } => now.nanos + submission_window_minutes * NANOS_PER_MINUTE,
        KindView::HashMatch { .. } => now.nanos as int,
    }
}

/// A consensus task after `k` joins it at `now`: `k` is added with a
/// fresh assignment, and where that fills the task it becomes `Claimed`
/// with its submission deadline `now` plus its window.
pub open spec fn joined(t: TaskView, k: Seq<u8>, now: Timestamp) -> TaskView {
    match t.kind {
        KindView::Consensus { num_assignees, join_deadline, submission_window_minutes, submission_deadline, assignees } => {
            let fills = join_fills(t, k);
            TaskView {
                kind: KindView::Consensus {
                    num_assignees,
                    join_deadline,
                    submission_window_minutes,
                    submission_deadline: if fills {
                        Some(Timestamp { nanos: fill_deadline(t, now) as i128 })
                    } else {
                        submission_deadline
                    },
                    assignees: with_joined(assignees, k),
                },
                status: if fills { TaskStatus::Claimed } else { t.status },
                ..t
            }
        },
        KindView::HashMatch { .. } => t,
    }
}

/// The sorted insertion position of a key is unique.
pub proof fn lemma_insert_pos<V>(s: Seq<(Seq<u8>, V)>, k: Seq<u8>, p: int)
    requires
        is_insert_pos(s, k, p),
    ensures
        insert_pos(s, k) == p,
{
    let q = insert_pos(s, k);
    assert(is_insert_pos(s, k, q));
    if q < p {
        assert(bytes_lt(s[q].0, k));
        assert(bytes_lt(k, s[q].0));
        crate::crypto::lemma_bytes_lt_trichotomy(k, s[q].0);
    } else if p < q {
        assert(bytes_lt(s[p].0, k));
        assert(bytes_lt(k, s[p].0));
        crate::crypto::lemma_bytes_lt_trichotomy(k, s[p].0);
    }
}

/// How many assignees answered `a`.
pub open spec fn answer_count(s: Seq<(Seq<u8>, AssignmentView)>, a: Seq<char>) -> nat
    decreases s.len(),
{
    if s.len() == 0 {
        0
    } else {
        answer_count(s.drop_last(), a) + if s.last().1.answer == Some(a) { 1nat } else { 0nat }
    }
}

/// Whether some assignee answered `a`.
pub open spec fn answered(s: Seq<(Seq<u8>, AssignmentView)>, a: Seq<char>) -> bool {
    exists|i: int| 0 <= i < s.len() && (#[trigger] s[i]).1.answer == Some(a)
}

/// `a` was answered, and strictly more often than every other answer.
pub open spec fn is_majority(s: Seq<(Seq<u8>, AssignmentView)>, a: Seq<char>) -> bool {
    &&& answered(s, a)
    &&& forall|b: Seq<char>| #[trigger] answered(s, b) && b != a ==> answer_count(s, b) < answer_count(s, a)
}

/// The answer with strictly the most votes; `None` where nobody answered
/// or the top count is tied.
pub open spec fn majority_of(s: Seq<(Seq<u8>, AssignmentView)>) -> Option<Seq<char>> {
    if exists|a: Seq<char>| is_majority(s, a) {
        Some(choose|a: Seq<char>| is_majority(s, a))
    } else {
        None
    }
}

/// An optional string read through its view.
pub open spec fn opt_string_view(o: Option<String>) -> Option<Seq<char>> {
    match o {
        Some(x) => Some(x@),
        None => None,
    }
}

/// A majority is unique, so `majority_of` names it.
pub proof fn lemma_majority_unique(s: Seq<(Seq<u8>, AssignmentView)>, a: Seq<char>)
    requires
        is_majority(s, a),
    ensures
        majority_of(s) == Some(a),
{
    let b = choose|b: Seq<char>| is_majority(s, b);
    assert(is_majority(s, b));
    if b != a {
        assert(answered(s, a) && answered(s, b));
        assert(answer_count(s, b) < answer_count(s, a));
        assert(answer_count(s, a) < answer_count(s, b));
    }
}

/// A count never exceeds the number of assignees, and an answer given at
/// some position is counted at least once.
pub proof fn lemma_answer_count_bounds(s: Seq<(Seq<u8>, AssignmentView)>, a: Seq<char>)
    ensures
        answer_count(s, a) <= s.len(),
        answered(s, a) ==> answer_count(s, a) >= 1,
    decreases s.len(),
{
    if s.len() > 0 {
        lemma_answer_count_bounds(s.drop_last(), a);
        if answered(s, a) && s.last().1.answer != Some(a) {
            let i = choose|i: int| 0 <= i < s.len() && (#[trigger] s[i]).1.answer == Some(a);
            assert(s.drop_last()[i].1.answer == Some(a));
        }
    }
}

/// Each assignee who answered `w` gets the share `share`.
pub open spec fn with_shares(s: Seq<(Seq<u8>, AssignmentView)>, w: Seq<char>, share: u64) -> Seq<(Seq<u8>, AssignmentView)> {
    s.map_values(|e: (Seq<u8>, AssignmentView)|
        if e.1.answer == Some(w) { (e.0, AssignmentView { share: Some(share), ..e.1 }) } else { e })
}

/// A winner's share: the bounty split evenly among the assignees who
/// answered `w`, rounded down.
pub open spec fn winner_share(bounty: u64, s: Seq<(Seq<u8>, AssignmentView)>, w: Seq<char>) -> u64 {
    let c = answer_count(s, w);
    ((bounty as nat) / (if c == 0 { 1nat } else { c })) as u64
}

/// The keys among the first `n` assignees that did not answer `w`.
pub open spec fn losers_among(s: Seq<(Seq<u8>, AssignmentView)>, w: Seq<char>, n: int) -> Set<Seq<u8>> {
    Set::new(|k: Seq<u8>| exists|i: int| 0 <= i < n && (#[trigger] s[i]).0 == k && s[i].1.answer != Some(w))
}

/// The agents a resolution charges with a failure: every assignee who
/// did not give the majority answer (a missing answer included); nobody
/// where there is no majority.
pub open spec fn resolution_losers(t: TaskView) -> Set<Seq<u8>> {
    match t.kind {
        KindView::Consensus { assignees, .. } => match majority_of(assignees) {
            Some(w) => losers_among(assignees, w, assignees.len() as int),
            None => Set::empty(),
        },
        KindView::HashMatch { .. } => Set::empty(),
    }
}

/// A consensus task after resolution: with a majority answer, every
/// assignee who gave it gets the winner's share and the task is
/// `Verified`; without one, the task is `Closed` for `NoMajority`.
pub open spec fn resolved(t: TaskView) -> TaskView {
    match t.kind {
        KindView::Consensus { num_assignees, join_deadline, submission_window_minutes, submission_deadline, assignees } =>
            match majority_of(assignees) {
                Some(w) => TaskView {
                    kind: KindView::Consensus {
                        num_assignees,
                        join_deadline,
                        submission_window_minutes,
                        submission_deadline,
                        assignees: with_shares(assignees, w, winner_share(t.bounty, assignees, w)),
                    },
                    status: TaskStatus::Verified,
                    ..t
                },
                None => TaskView { status: TaskStatus::Closed, close_reason: Some(CloseReason::NoMajority), ..t },
            },
        KindView::HashMatch { .. } => t,
    }
}

/// One more failure for a key outside a set of charged keys is the same
/// as charging the set with that key added.
pub proof fn lemma_with_failures_step(m: Map<Seq<u8>, Reputation>, ks: Set<Seq<u8>>, k: Seq<u8>)
    requires
        !ks.contains(k),
    ensures
        with_failure(with_failures(m, ks), k) == with_failures(m, ks.insert(k)),
{
    assert(with_failure(with_failures(m, ks), k) =~= with_failures(m, ks.insert(k)));
}

/// A consensus task with `agent`'s answer recorded.
pub open spec fn with_answer(t: TaskView, agent: Seq<u8>, answer: Seq<char>) -> TaskView {
    match t.kind {
        KindView::Consensus { num_assignees, join_deadline, submission_window_minutes, submission_deadline, assignees } => {
            let j = entry_index(assignees, agent);
            TaskView {
                kind: KindView::Consensus {
                    num_assignees,
                    join_deadline,
                    submission_window_minutes,
                    submission_deadline,
                    assignees: assignees.update(j, (agent, AssignmentView { answer: Some(answer), ..assignees[j].1 })),
                },
                ..t
            }
        },
        KindView::HashMatch { .. } => t,
    }
}

/// Whether every assignee of a consensus task has answered.
pub open spec fn all_answered(t: TaskView) -> bool {
    match t.kind {
        KindView::Consensus { assignees, .. } => forall|i: int| 0 <= i < assignees.len() ==> (#[trigger] assignees[i]).1.answer is Some,
        KindView::HashMatch { .. } => false,
    }
}

/// Whether every winner of a consensus task has been paid.
pub open spec fn settled(s: Seq<(Seq<u8>, AssignmentView)>) -> bool {
    forall|i: int| 0 <= i < s.len() ==> (#[trigger] s[i]).1.share is None || s[i].1.paid
}

/// Whether `recipient` was already recorded as paid for a consensus task.
pub open spec fn already_paid(t: TaskView, recipient: Seq<u8>) -> bool {
    match t.kind {
        KindView::Consensus { assignees, .. } => assignees[entry_index(assignees, recipient)].1.paid,
        KindView::HashMatch { .. } => false,
    }
}

/// A verified task after `recipient`'s payout is recorded: a `HashMatch`
/// task is `Paid`; a consensus assignee is marked paid, and the task is
/// `Paid` once every winner is.
pub open spec fn with_paid(t: TaskView, recipient: Seq<u8>) -> TaskView {
    match t.kind {
        KindView::Consensus { num_assignees, join_deadline, submission_window_minutes, submission_deadline, assignees } => {
            let j = entry_index(assignees, recipient);
            let paid = assignees.update(j, (recipient, AssignmentView { paid: true, ..assignees[j].1 }));
            TaskView {
                kind: KindView::Consensus { num_assignees, join_deadline, submission_window_minutes, submission_deadline, assignees: paid },
                status: if settled(paid) { TaskStatus::Paid } else { t.status },
                ..t
            }
        },
        KindView::HashMatch { .. } => TaskView { status: TaskStatus::Paid, ..t },
    }
}

/// The ids of the tasks satisfying `pred`, in board order.
pub open spec fn ids_matching(ts: Seq<TaskView>, pred: spec_fn(TaskView) -> bool) -> Seq<u128>
    decreases ts.len(),
{
    if ts.len() == 0 {
        Seq::empty()
    } else if pred(ts.last()) {
        ids_matching(ts.drop_last(), pred).push(ts.last().id)
    } else {
        ids_matching(ts.drop_last(), pred)
    }
}

/// The positions of the tasks satisfying `pred`, in board order.
pub open spec fn positions_matching(ts: Seq<TaskView>, pred: spec_fn(TaskView) -> bool) -> Seq<int>
    decreases ts.len(),
{
    if ts.len() == 0 {
        Seq::empty()
    } else if pred(ts.last()) {
        positions_matching(ts.drop_last(), pred).push(ts.len() - 1)
    } else {
        positions_matching(ts.drop_last(), pred)
    }
}

/// A claimed task whose claim deadline has passed at `now`.
pub open spec fn claim_expired(t: TaskView, now: Timestamp) -> bool {
    t.status == TaskStatus::Claimed && (t.claim_deadline matches Some(d) && now.nanos > d.nanos)
}

/// A task reopened after its claim lapsed.
pub open spec fn reopened(t: TaskView) -> TaskView {
    TaskView { status: TaskStatus::Open, claimant: None, claim_deadline: None, ..t }
}

/// An open consensus task whose join deadline has passed at `now`.
pub open spec fn understaffed(t: TaskView, now: Timestamp) -> bool {
    t.status == TaskStatus::Open && (t.kind matches KindView::Consensus { join_deadline, .. } && now.nanos > join_deadline.nanos)
}

/// A consensus task closed for want of assignees.
pub open spec fn cancelled(t: TaskView) -> TaskView {
    TaskView { status: TaskStatus::Closed, close_reason: Some(CloseReason::Understaffed), ..t }
}

/// A claimed consensus task whose submission deadline has passed at `now`.
pub open spec fn consensus_due(t: TaskView, now: Timestamp) -> bool {
    t.status == TaskStatus::Claimed
        && (t.kind matches KindView::Consensus { submission_deadline, .. }
            && (submission_deadline matches Some(d) && now.nanos > d.nanos))
}

/// The tasks and reputation map after resolving the tasks at positions
/// `ps`, one after the other.
pub open spec fn resolve_each(ts: Seq<TaskView>, m: Map<Seq<u8>, Reputation>, ps: Seq<int>) -> (Seq<TaskView>, Map<Seq<u8>, Reputation>)
    decreases ps.len(),
{
    if ps.len() == 0 {
        (ts, m)
    } else {
        let prev = resolve_each(ts, m, ps.drop_last());
        let t = prev.0[ps.last()];
        (prev.0.update(ps.last(), resolved(t)), with_failures(prev.1, resolution_losers(t)))
    }
}

/// Whether resolving the tasks at `ps` one after the other charges no
/// agent past `u64::MAX` failures.
pub open spec fn resolve_each_fits(ts: Seq<TaskView>, m: Map<Seq<u8>, Reputation>, ps: Seq<int>) -> bool
    decreases ps.len(),
{
    if ps.len() == 0 {
        true
    } else {
        let prev = resolve_each(ts, m, ps.drop_last());
        &&& resolve_each_fits(ts, m, ps.drop_last())
        &&& forall|k: Seq<u8>| #[trigger] resolution_losers(prev.0[ps.last()]).contains(k)
            ==> rep_in(prev.1, k).failed < u64::MAX
    }
}

/// Resolving keeps the number of tasks, their ids and their kinds.
pub proof fn lemma_resolve_each_shape(ts: Seq<TaskView>, m: Map<Seq<u8>, Reputation>, ps: Seq<int>)
    requires
        forall|i: int| 0 <= i < ps.len() ==> 0 <= #[trigger] ps[i] < ts.len(),
    ensures
        resolve_each(ts, m, ps).0.len() == ts.len(),
        forall|q: int| 0 <= q < ts.len() ==> (#[trigger] resolve_each(ts, m, ps).0[q]).id == ts[q].id,
        forall|q: int| 0 <= q < ts.len() ==> ((#[trigger] resolve_each(ts, m, ps).0[q]).kind is Consensus <==> ts[q].kind is Consensus),
    decreases ps.len(),
{
    if ps.len() > 0 {
        lemma_resolve_each_shape(ts, m, ps.drop_last());
    }
}

/// Positions held in `usize`s, read as integers.
pub open spec fn usize_ints(s: Seq<usize>) -> Seq<int> {
    s.map_values(|x: usize| x as int)
}

/// The positions `positions_matching` lists lie on the board and satisfy
/// the predicate.
pub proof fn lemma_positions_matching(ts: Seq<TaskView>, pred: spec_fn(TaskView) -> bool)
    ensures
        forall|i: int| 0 <= i < positions_matching(ts, pred).len() ==>
            0 <= #[trigger] positions_matching(ts, pred)[i] < ts.len() && pred(ts[positions_matching(ts, pred)[i]]),
    decreases ts.len(),
{
    if ts.len() > 0 {
        let prev = positions_matching(ts.drop_last(), pred);
        lemma_positions_matching(ts.drop_last(), pred);
        let ps = positions_matching(ts, pred);
        assert forall|i: int| 0 <= i < ps.len() implies
            0 <= #[trigger] ps[i] < ts.len() && pred(ts[ps[i]]) by {
            if i < prev.len() {
                assert(ps[i] == prev[i]);
                assert(ts.drop_last()[prev[i]] == ts[prev[i]]);
            } else {
                assert(ps[i] == ts.len() - 1);
            }
        }
    }
}

/// What fits for a run of resolutions fits for each prefix of it.
pub proof fn lemma_fits_prefix(ts: Seq<TaskView>, m: Map<Seq<u8>, Reputation>, ps: Seq<int>, n: int)
    requires
        resolve_each_fits(ts, m, ps),
        0 <= n <= ps.len(),
    ensures
        resolve_each_fits(ts, m, ps.take(n)),
    decreases ps.len(),
{
    if n == ps.len() {
        assert(ps.take(n) =~= ps);
    } else {
        assert(ps.drop_last().take(n) =~= ps.take(n));
        lemma_fits_prefix(ts, m, ps.drop_last(), n);
    }
}

/// Whether `p` is where a task with id `id` goes to keep ids sorted.
pub open spec fn is_task_insert_pos(ts: Seq<TaskView>, id: u128, p: int) -> bool {
    &&& 0 <= p <= ts.len()
    &&& forall|i: int| 0 <= i < p ==> (#[trigger] ts[i]).id < id
    &&& forall|i: int| p <= i < ts.len() ==> id < (#[trigger] ts[i]).id
}

/// The tasks with `t` stored under its id: replacing the task with that
/// id, or inserted in id order.
pub open spec fn put_task(ts: Seq<TaskView>, t: TaskView) -> Seq<TaskView> {
    if has_task(ts, t.id) {
        ts.update(task_index(ts, t.id), t)
    } else {
        ts.insert(choose|p: int| is_task_insert_pos(ts, t.id, p), t)
    }
}

/// Storing a task and then replacing it by another with the same id is
/// storing the second one.
pub proof fn lemma_put_then_replace(ts: Seq<TaskView>, t: TaskView, t2: TaskView)
    requires
        ids_sorted(ts),
        ids_sorted(put_task(ts, t)),
        t2.id == t.id,
    ensures
        has_task(put_task(ts, t), t.id),
        task_of(put_task(ts, t), t.id) == t,
        put_task(ts, t).update(task_index(put_task(ts, t), t.id), t2) == put_task(ts, t2),
{
    let put = put_task(ts, t);
    if has_task(ts, t.id) {
        let i = task_index(ts, t.id);
        assert(put[i] == t);
        lemma_task_index(put, i);
        assert(put.update(i, t2) =~= ts.update(i, t2));
    } else {
        lemma_insert_pos_exists(ts, t.id);
        let p = choose|p: int| is_task_insert_pos(ts, t.id, p);
        assert(put[p] == t);
        lemma_task_index(put, p);
        assert(put.update(p, t2) =~= ts.insert(p, t2));
    }
}

/// Where a new id goes exists in a board with sorted ids lacking it.
proof fn lemma_insert_pos_exists(ts: Seq<TaskView>, id: u128)
    requires
        ids_sorted(ts),
        !has_task(ts, id),
    ensures
        exists|p: int| is_task_insert_pos(ts, id, p),
    decreases ts.len(),
{
    if ts.len() == 0 {
        assert(is_task_insert_pos(ts, id, 0));
    } else {
        let d = ts.drop_last();
        assert forall|i: int, j: int| 0 <= i < j < d.len() implies (#[trigger] d[i]).id < (#[trigger] d[j]).id by {
            assert(d[i] == ts[i] && d[j] == ts[j]);
        }
        if ts.last().id < id {
            assert(is_task_insert_pos(ts, id, ts.len() as int));
        } else {
            assert(!has_task(d, id)) by {
                if has_task(d, id) {
                    let k = choose|k: int| 0 <= k < d.len() && d[k].id == id;
                    assert(ts[k].id == id);
                }
            }
            lemma_insert_pos_exists(d, id);
            let p = choose|p: int| is_task_insert_pos(d, id, p);
            assert(ts.last().id != id);
            assert(is_task_insert_pos(ts, id, p)) by {
                assert forall|i: int| 0 <= i < p implies (#[trigger] ts[i]).id < id by {
                    assert(ts[i] == d[i]);
                }
                assert forall|i: int| p <= i < ts.len() implies id < (#[trigger] ts[i]).id by {
                    if i < d.len() {
                        assert(ts[i] == d[i]);
                    }
                }
            }
        }
    }
}

/// A new, open `HashMatch` task.
pub open spec fn new_hash_task(id: u128, now: Timestamp, poster: Seq<u8>, description: Seq<char>, bounty: u64, expected_output_hash: nat) -> TaskView {
    TaskView {
        id,
        description,
        bounty,
        kind: KindView::HashMatch { expected_output_hash },
        poster,
        status: TaskStatus::Open,
        claimant: None,
        claim_deadline: None,
        failed_attempts: 0,
        created_at: now,
        min_reputation: 0,
        close_reason: None,
    }
}

/// A new, open `Consensus` task with nobody joined yet.
pub open spec fn new_consensus_task(
    id: u128,
    now: Timestamp,
    poster: Seq<u8>,
    description: Seq<char>,
    bounty: u64,
    num_assignees: u32,
    join_deadline: Timestamp,
    submission_window_minutes: i64,
) -> TaskView {
    TaskView {
        id,
        description,
        bounty,
        kind: KindView::Consensus {
            num_assignees,
            join_deadline,
            submission_window_minutes,
            submission_deadline: None,
            assignees: Seq::empty(),
        },
        poster,
        status: TaskStatus::Open,
        claimant: None,
        claim_deadline: None,
        failed_attempts: 0,
        created_at: now,
        min_reputation: 0,
        close_reason: None,
    }
}

/// The bounty promised to tasks neither paid nor closed.
pub open spec fn allocated(ts: Seq<TaskView>) -> nat
    decreases ts.len(),
{
    if ts.len() == 0 {
        0
    } else {
        allocated(ts.drop_last()) + if ts.last().status == TaskStatus::Paid || ts.last().status == TaskStatus::Closed {
            0nat
        } else {
            ts.last().bounty as nat
        }
    }
}

/// The tasks with status `st`, in board order.
pub open spec fn tasks_with_status(ts: Seq<TaskView>, st: TaskStatus) -> Seq<TaskView>
    decreases ts.len(),
{
    if ts.len() == 0 {
        Seq::empty()
    } else if ts.last().status == st {
        tasks_with_status(ts.drop_last(), st).push(ts.last())
    } else {
        tasks_with_status(ts.drop_last(), st)
    }
}

/// A list of tasks read through their views.
pub open spec fn tasks_view(s: Seq<Task>) -> Seq<TaskView> {
    s.map_values(|t: Task| t@)
}

/// A list of (key, record) pairs read through the keys' views.
pub open spec fn rep_entries(s: Seq<(PublicKey, Reputation)>) -> Seq<(Seq<u8>, Reputation)> {
    s.map_values(|e: (PublicKey, Reputation)| (e.0@, e.1))
}

/// `a` ranks above `b` on the leaderboard: it earned more, or as much
/// with a smaller key.
pub open spec fn ranks_above(a: (Seq<u8>, Reputation), b: (Seq<u8>, Reputation)) -> bool {
    a.1.total_earned > b.1.total_earned || (a.1.total_earned == b.1.total_earned && bytes_lt(a.0, b.0))
}

/// `r` is the leaderboard of `es` cut to `n` places: the highest-ranked
/// `min(n, |es|)` entries, best first.
pub open spec fn is_top(es: Seq<(Seq<u8>, Reputation)>, n: nat, r: Seq<(Seq<u8>, Reputation)>) -> bool {
    &&& r.len() == (if n < es.len() { n } else { es.len() })
    &&& forall|i: int, j: int| 0 <= i < j < r.len() ==> ranks_above(#[trigger] r[i], #[trigger] r[j])
    &&& forall|i: int| 0 <= i < r.len() ==> es.contains(#[trigger] r[i])
    &&& forall|e: (Seq<u8>, Reputation)| #[trigger] es.contains(e) && !r.contains(e)
        ==> forall|i: int| 0 <= i < r.len() ==> ranks_above(#[trigger] r[i], e)
}

/// The leaderboard order is a strict order.
pub proof fn lemma_ranks_above_order(a: (Seq<u8>, Reputation), b: (Seq<u8>, Reputation), c: (Seq<u8>, Reputation))
    ensures
        !ranks_above(a, a),
        ranks_above(a, b) ==> !ranks_above(b, a),
        ranks_above(a, b) && ranks_above(b, c) ==> ranks_above(a, c),
        a.0 != b.0 ==> ranks_above(a, b) || ranks_above(b, a),
{
    crate::crypto::lemma_bytes_lt_irreflexive(a.0);
    crate::crypto::lemma_bytes_lt_trichotomy(a.0, b.0);
    if ranks_above(a, b) && ranks_above(b, c) && a.1.total_earned == b.1.total_earned && b.1.total_earned == c.1.total_earned {
        crate::crypto::lemma_bytes_lt_transitive(a.0, b.0, c.0);
    }
}

/// A duplicate-free list shorter than another duplicate-free list it is
/// drawn from misses one of its entries.
pub proof fn lemma_exists_missing<A>(es: Seq<A>, r: Seq<A>)
    requires
        es.no_duplicates(),
        r.len() < es.len(),
    ensures
        exists|e: A| #[trigger] es.contains(e) && !r.contains(e),
{
    if forall|e: A| #[trigger] es.contains(e) ==> r.contains(e) {
        es.unique_seq_to_set();
        r.lemma_cardinality_of_set();
        assert(es.to_set().subset_of(r.to_set()));
        vstd::set_lib::lemma_len_subset(es.to_set(), r.to_set());
    }
}

/// A list of (key, amount) pairs read through the keys' views.
pub open spec fn pairs_view(s: Seq<(PublicKey, u64)>) -> Seq<(Seq<u8>, u64)> {
    s.map_values(|p: (PublicKey, u64)| (p.0@, p.1))
}

/// A list of keys read through their views.
pub open spec fn keys_view(s: Seq<PublicKey>) -> Seq<Seq<u8>> {
    s.map_values(|k: PublicKey| k@)
}

impl ConsensusAssignment {
    /// A copy of the assignment.
    pub fn copy(&self) -> (a: ConsensusAssignment)
        ensures
            a@ == self@,
    {
        let answer = match &self.answer {
            Some(s) => Some(s.clone()),
            None => None,
        };
        ConsensusAssignment { answer, paid: self.paid, share: self.share }
    }
}

/// A copy of a list of assignees.
pub fn copy_assignees(s: &Vec<(PublicKey, ConsensusAssignment)>) -> (r: Vec<(PublicKey, ConsensusAssignment)>)
    ensures
        assignees_view(r@) == assignees_view(s@),
        key_seq(r@) == key_seq(s@),
{
    let mut r: Vec<(PublicKey, ConsensusAssignment)> = Vec::new();
    let mut i: usize = 0;
    while i < s.len()
        invariant
            i <= s@.len(),
            r@.len() == i,
            forall|j: int| 0 <= j < i ==> (#[trigger] r@[j]).0@ == s@[j].0@ && r@[j].1@ == s@[j].1@,
        decreases s.len() - i,
    {
        r.push((s[i].0.duplicate(), s[i].1.copy()));
        i = i + 1;
    }
    assert(key_seq(r@) =~= key_seq(s@));
    assert(assignees_view(r@) =~= assignees_view(s@));
    r
}

/// How many of `assignees` answered `answer`.
fn count_answer(assignees: &Vec<(PublicKey, ConsensusAssignment)>, answer: &String) -> (n: usize)
    ensures
        n == answer_count(assignees_view(assignees@), answer@),
{
    let ghost v = assignees_view(assignees@);
    let mut n: usize = 0;
    let mut i: usize = 0;
    while i < assignees.len()
        invariant
            i <= assignees@.len(),
            v == assignees_view(assignees@),
            n == answer_count(v.take(i as int), answer@),
            n <= i,
        decreases assignees.len() - i,
    {
        assert(v.take(i + 1).drop_last() =~= v.take(i as int));
        match &assignees[i].1.answer {
            Some(a) => {
                if *a == *answer {
                    n = n + 1;
                }
            },
            None => {},
        }
        i = i + 1;
    }
    assert(v.take(assignees@.len() as int) =~= v);
    n
}

/// The answer given by strictly more assignees than any other, or `None`
/// where nobody answered or the top count is shared.
fn majority_answer(assignees: &Vec<(PublicKey, ConsensusAssignment)>) -> (r: Option<String>)
    ensures
        opt_string_view(r) == majority_of(assignees_view(assignees@)),
{
    let ghost v = assignees_view(assignees@);
    let mut best: Option<String> = None;
    let mut best_count: usize = 0;
    let mut tied = false;
    let mut i: usize = 0;
    while i < assignees.len()
        invariant
            i <= assignees@.len(),
            v == assignees_view(assignees@),
            best_count == 0 <==> forall|j: int| 0 <= j < i ==> (#[trigger] v[j]).1.answer is None,
            best_count > 0 ==> best is Some && answered(v, best.unwrap()@)
                && answer_count(v, best.unwrap()@) == best_count,
            forall|j: int| 0 <= j < i && (#[trigger] v[j]).1.answer is Some
                ==> answer_count(v, v[j].1.answer.unwrap()) <= best_count,
            tied ==> best_count > 0 && exists|j: int| 0 <= j < i && (#[trigger] v[j]).1.answer is Some
                && v[j].1.answer.unwrap() != best.unwrap()@
                && answer_count(v, v[j].1.answer.unwrap()) == best_count,
            !tied && best_count > 0 ==> forall|j: int| 0 <= j < i && (#[trigger] v[j]).1.answer is Some
                && v[j].1.answer.unwrap() != best.unwrap()@
                ==> answer_count(v, v[j].1.answer.unwrap()) < best_count,
        decreases assignees.len() - i,
    {
        match &assignees[i].1.answer {
            Some(a) => {
                let c = count_answer(assignees, a);
                proof {
                    assert(v[i as int].1.answer == Some(a@));
                    assert(answered(v, a@));
                    lemma_answer_count_bounds(v, a@);
                }
                if c > best_count {
                    best = Some(a.clone());
                    best_count = c;
                    tied = false;
                } else if c == best_count {
                    let same = match &best {
                        Some(b) => *b == *a,
                        None => false,
                    };
                    if !same {
                        tied = true;
                    }
                }
            },
            None => {},
        }
        i = i + 1;
    }
    if best_count > 0 && !tied {
        proof {
            let b = best.unwrap()@;
            assert forall|y: Seq<char>| #[trigger] answered(v, y) && y != b implies answer_count(v, y) < answer_count(v, b) by {
                let j = choose|j: int| 0 <= j < v.len() && (#[trigger] v[j]).1.answer == Some(y);
                assert(v[j].1.answer is Some);
            }
            assert(is_majority(v, b));
            lemma_majority_unique(v, b);
        }
        best
    } else {
        proof {
            assert forall|a: Seq<char>| !is_majority(v, a) by {
                if is_majority(v, a) {
                    let ja = choose|j: int| 0 <= j < v.len() && (#[trigger] v[j]).1.answer == Some(a);
                    assert(v[ja].1.answer is Some);
                    if best_count > 0 {
                        let jt = choose|j: int| 0 <= j < i && (#[trigger] v[j]).1.answer is Some
                            && v[j].1.answer.unwrap() != best.unwrap()@
                            && answer_count(v, v[j].1.answer.unwrap()) == best_count;
                        let y = v[jt].1.answer.unwrap();
                        assert(answered(v, y));
                        if a == best.unwrap()@ {
                            assert(answer_count(v, y) < answer_count(v, a));
                        } else {
                            assert(answered(v, best.unwrap()@));
                        }
                    }
                }
            }
        }
        None
    }
}

/// The bounty of a prefix never exceeds that of the whole board.
pub proof fn lemma_allocated_prefix(ts: Seq<TaskView>, n: int)
    requires
        0 <= n <= ts.len(),
    ensures
        allocated(ts.take(n)) <= allocated(ts),
    decreases ts.len(),
{
    if n == ts.len() {
        assert(ts.take(n) =~= ts);
    } else {
        assert(ts.drop_last().take(n) =~= ts.take(n));
        lemma_allocated_prefix(ts.drop_last(), n);
    }
}

impl TaskKind {
    /// A copy of the kind.
    pub fn copy(&self) -> (k: TaskKind)
        ensures
            k@ == self@,
    {
        match self {
            TaskKind::HashMatch { expected_output_hash } => TaskKind::HashMatch { expected_output_hash: *expected_output_hash },
            TaskKind::Consensus { num_assignees, join_deadline, submission_window_minutes, submission_deadline, assignees } =>
                TaskKind::Consensus {
                    num_assignees: *num_assignees,
                    join_deadline: *join_deadline,
                    submission_window_minutes: *submission_window_minutes,
                    submission_deadline: *submission_deadline,
                    assignees: copy_assignees(assignees),
                },
        }
    }
}

impl Task {
    /// A copy of the task.
    pub fn copy(&self) -> (t: Task)
        ensures
            t@ == self@,
    {
        Task {
            id: self.id,
            description: self.description.clone(),
            bounty: self.bounty,
            kind: self.kind.copy(),
            poster: self.poster.duplicate(),
            status: self.status,
            claimant: match &self.claimant {
                Some(k) => Some(k.duplicate()),
                None => None,
            },
            claim_deadline: self.claim_deadline,
            failed_attempts: self.failed_attempts,
            created_at: self.created_at,
            min_reputation: self.min_reputation,
            close_reason: self.close_reason,
        }
    }

    /// Whether the task can stand on a board (see `task_wf`): a
    /// consensus task's assignees in strictly increasing key order, and a
    /// claimed consensus task with its submission deadline set.
    pub fn well_formed(&self) -> (b: bool)
        ensures
            b == task_wf(self@),
    {
        match &self.kind {
            TaskKind::HashMatch { .. } => true,
            TaskKind::Consensus { assignees, submission_deadline, .. } => {
                if self.status == TaskStatus::Claimed && submission_deadline.is_none() {
                    return false;
                }
                let ghost ks = entry_keys(assignees_view(assignees@));
                proof { lemma_assignee_keys(assignees@); }
                let mut i: usize = 1;
                assert(task_wf(self@) == crate::keymap::keys_sorted(ks));
                if assignees.len() == 0 {
                    return true;
                }
                while i < assignees.len()
                    invariant
                        1 <= i <= assignees@.len(),
                        ks == entry_keys(assignees_view(assignees@)),
                        ks.len() == assignees@.len(),
                        task_wf(self@) == crate::keymap::keys_sorted(ks),
                        forall|a: int, b: int| 0 <= a < b < i ==> bytes_lt(#[trigger] ks[a], #[trigger] ks[b]),
                    decreases assignees.len() - i,
                {
                    if assignees[i - 1].0.compare(&assignees[i].0) >= 0 {
                        assert(!crate::keymap::keys_sorted(ks)) by {
                            assert(ks[i - 1] == assignees@[i - 1].0@ && ks[i as int] == assignees@[i as int].0@);
                            crate::crypto::lemma_bytes_lt_trichotomy(ks[i - 1], ks[i as int]);
                        }
                        return false;
                    }
                    assert forall|a: int, b: int| 0 <= a < b < i + 1 implies bytes_lt(#[trigger] ks[a], #[trigger] ks[b]) by {
                        if b == i && a < i - 1 {
                            assert(ks[i - 1] == assignees@[i - 1].0@ && ks[i as int] == assignees@[i as int].0@);
                            crate::crypto::lemma_bytes_lt_transitive(ks[a], ks[i - 1], ks[b]);
                        } else if b == i {
                            assert(ks[i - 1] == assignees@[i - 1].0@ && ks[i as int] == assignees@[i as int].0@);
                        }
                    }
                    i = i + 1;
                }
                true
            },
        }
    }

    /// Every (recipient, amount) pair still owed for the task; see
    /// `pending_payouts_of`.
    pub fn pending_payouts(&self) -> (r: Vec<(PublicKey, u64)>)
        ensures
            pairs_view(r@) == pending_payouts_of(self@),
    {
        if self.status != TaskStatus::Verified {
            return Vec::new();
        }
        match &self.kind {
            TaskKind::HashMatch { .. } => match &self.claimant {
                Some(c) => {
                    let r = vec![(c.duplicate(), self.bounty)];
                    assert(pairs_view(r@) =~= pending_payouts_of(self@));
                    r
                },
                None => {
                    let r: Vec<(PublicKey, u64)> = Vec::new();
                    assert(pairs_view(r@) =~= pending_payouts_of(self@));
                    r
                },
            },
            TaskKind::Consensus { assignees, .. } => {
                let mut r: Vec<(PublicKey, u64)> = Vec::new();
                let mut i: usize = 0;
                while i < assignees.len()
                    invariant
                        i <= assignees@.len(),
                        pairs_view(r@) == owed_assignees(assignees_view(assignees@).take(i as int)),
                    decreases assignees.len() - i,
                {
                    let ghost v = assignees_view(assignees@);
                    assert(v.take(i + 1).drop_last() =~= v.take(i as int));
                    let a = &assignees[i];
                    if !a.1.paid {
                        match a.1.share {
                            Some(share) => {
                                r.push((a.0.duplicate(), share));
                                assert(pairs_view(r@) =~= owed_assignees(v.take(i as int)).push((v[i as int].0, share)));
                            },
                            None => {},
                        }
                    }
                    i = i + 1;
                }
                assert(assignees_view(assignees@).take(assignees@.len() as int) =~= assignees_view(assignees@));
                r
            },
        }
    }

    /// Whether `recipient` has been paid its part of the task.
    pub fn is_recipient_paid(&self, recipient: &PublicKey) -> (b: bool)
        requires
            task_wf(self@),
        ensures
            b == is_recipient_paid_of(self@, recipient@),
    {
        match &self.kind {
            TaskKind::HashMatch { .. } => {
                let is_claimant = match &self.claimant {
                    Some(c) => c.same_as(recipient),
                    None => false,
                };
                self.status == TaskStatus::Paid && is_claimant
            },
            TaskKind::Consensus { assignees, .. } => {
                proof { lemma_assignee_keys(assignees@); }
                match find_key(assignees, recipient) {
                    Ok(i) => {
                        proof { lemma_entry_index(assignees_view(assignees@), i as int); }
                        assignees[i].1.paid
                    },
                    Err(_) => {
                        proof {
                            let v = assignees_view(assignees@);
                            if has_entry(v, recipient@) {
                                let j = entry_index(v, recipient@);
                                assert(assignees@[j].0@ == recipient@);
                            }
                        }
                        false
                    },
                }
            },
        }
    }

    /// The keys of a consensus task's assignees, in key order; none for
    /// `HashMatch`.
    pub fn consensus_assignees(&self) -> (r: Vec<PublicKey>)
        ensures
            keys_view(r@) == consensus_assignees_of(self@),
    {
        match &self.kind {
            TaskKind::HashMatch { .. } => {
                let r: Vec<PublicKey> = Vec::new();
                assert(keys_view(r@) =~= consensus_assignees_of(self@));
                r
            },
            TaskKind::Consensus { assignees, .. } => {
                let mut r: Vec<PublicKey> = Vec::new();
                let mut i: usize = 0;
                while i < assignees.len()
                    invariant
                        i <= assignees@.len(),
                        keys_view(r@) == entry_keys(assignees_view(assignees@)).take(i as int),
                    decreases assignees.len() - i,
                {
                    let ghost prev = r@;
                    let k = assignees[i].0.duplicate();
                    r.push(k);
                    assert(keys_view(r@) =~= keys_view(prev).push(k@));
                    i = i + 1;
                    assert(keys_view(r@) =~= entry_keys(assignees_view(assignees@)).take(i as int));
                }
                assert(entry_keys(assignees_view(assignees@)).take(assignees@.len() as int) =~= entry_keys(assignees_view(assignees@)));
                r
            },
        }
    }
}

impl TaskBoard {
    /// An empty board.
    pub fn new() -> (b: TaskBoard)
        ensures
            b@.wf(),
            b@.tasks.len() == 0,
            b@.reputation_map() == Map::<Seq<u8>, Reputation>::empty(),
            b@.faucet_set() == Set::<Seq<u8>>::empty(),
    {
        let b = TaskBoard { tasks: Vec::new(), reputation: Vec::new(), faucet_grants: Vec::new() };
        assert(b@.tasks =~= Seq::<TaskView>::empty());
        assert(b@.reputation_map() =~= Map::<Seq<u8>, Reputation>::empty());
        assert(b@.faucet_set() =~= Set::<Seq<u8>>::empty());
        b
    }

    /// Finds the task `id`: `Ok(i)` where it sits at `i`, else `Err(p)`,
    /// the position where a task with that id would keep the ids sorted.
    fn find_task(&self, id: u128) -> (r: Result<usize, usize>)
        requires
            self@.wf(),
        ensures
            r matches Ok(i) ==> i < self@.tasks.len() && self@.tasks[i as int].id == id && self@.task_index(id) == i,
            r matches Err(p) ==> p <= self@.tasks.len()
                && (forall|i: int| 0 <= i < p ==> (#[trigger] self@.tasks[i]).id < id)
                && (forall|i: int| p <= i < self@.tasks.len() ==> id < (#[trigger] self@.tasks[i]).id),
            r is Ok <==> self@.has_task(id),
    {
        let mut i: usize = 0;
        while i < self.tasks.len()
            invariant
                i <= self@.tasks.len(),
                self@.wf(),
                self@.tasks.len() == self.tasks@.len(),
                forall|j: int| 0 <= j < i ==> (#[trigger] self@.tasks[j]).id < id,
            decreases self.tasks.len() - i,
        {
            assert(self@.tasks[i as int] == self.tasks@[i as int]@);
            let tid = self.tasks[i].id;
            if tid == id {
                proof { lemma_task_index(self@.tasks, i as int); }
                return Ok(i);
            }
            if tid > id {
                proof {
                    assert forall|j: int| i <= j < self@.tasks.len() implies id < (#[trigger] self@.tasks[j]).id by {
                        if j > i {
                            assert(self@.tasks[i as int].id < self@.tasks[j].id);
                        }
                    }
                }
                return Err(i);
            }
            i = i + 1;
        }
        Err(i)
    }

    /// The task `id`, if it is on the board.
    pub fn get_task(&self, id: u128) -> (t: Option<&Task>)
        requires
            self@.wf(),
        ensures
            t is Some <==> self@.has_task(id),
            t matches Some(task) ==> task@ == self@.task(id),
    {
        match self.find_task(id) {
            Ok(i) => Some(&self.tasks[i]),
            Err(_) => None,
        }
    }

    /// The record of `pubkey`: stored, or empty where there is none.
    pub fn reputation(&self, pubkey: &PublicKey) -> (r: Reputation)
        requires
            self@.wf(),
        ensures
            r == self@.reputation_of(pubkey@),
    {
        match find_key(&self.reputation, pubkey) {
            Ok(i) => {
                proof { lemma_map_view_at(self.reputation@, i as int); }
                self.reputation[i].1
            },
            Err(_) => Reputation::empty(),
        }
    }

    /// Whether `pubkey` may still receive a faucet grant.
    pub fn can_claim_faucet(&self, pubkey: &PublicKey) -> (b: bool)
        requires
            self@.wf(),
        ensures
            b == !self@.faucet_set().contains(pubkey@),
    {
        find_key(&self.faucet_grants, pubkey).is_err()
    }

    /// Reserves the one grant `pubkey` is entitled to; refused where it
    /// is already reserved or granted.
    pub fn record_faucet_grant(&mut self, pubkey: PublicKey) -> (r: Result<(), BoardError>)
        requires
            old(self)@.wf(),
        ensures
            final(self)@.wf(),
            r is Err <==> old(self)@.faucet_set().contains(pubkey@),
            r matches Err(e) ==> e == BoardError::AlreadyClaimed && final(self)@ == old(self)@,
            r is Ok ==> final(self)@.faucet_set() == old(self)@.faucet_set().insert(pubkey@),
            final(self)@.tasks == old(self)@.tasks,
            final(self)@.reputation == old(self)@.reputation,
    {
        match find_key(&self.faucet_grants, &pubkey) {
            Ok(_) => Err(BoardError::AlreadyClaimed),
            Err(p) => {
                proof {
                    crate::keymap::lemma_insert_sorted(self.faucet_grants@, p as int, (pubkey, ()));
                }
                self.faucet_grants.insert(p, (pubkey, ()));
                Ok(())
            },
        }
    }

    /// Releases a reservation made by `record_faucet_grant`.
    pub fn revoke_faucet_grant(&mut self, pubkey: &PublicKey)
        requires
            old(self)@.wf(),
        ensures
            final(self)@.wf(),
            final(self)@.faucet_set() == old(self)@.faucet_set().remove(pubkey@),
            final(self)@.tasks == old(self)@.tasks,
            final(self)@.reputation == old(self)@.reputation,
    {
        match find_key(&self.faucet_grants, pubkey) {
            Ok(i) => {
                proof { lemma_remove_sorted(self.faucet_grants@, i as int); }
                self.faucet_grants.remove(i);
            },
            Err(_) => {
                assert(old(self)@.faucet_set().remove(pubkey@) =~= old(self)@.faucet_set());
            },
        }
    }

    /// Restores a faucet grant read back from storage.
    pub fn restore_faucet_grant(&mut self, pubkey: PublicKey)
        requires
            old(self)@.wf(),
        ensures
            final(self)@.wf(),
            final(self)@.faucet_set() == old(self)@.faucet_set().insert(pubkey@),
            final(self)@.tasks == old(self)@.tasks,
            final(self)@.reputation == old(self)@.reputation,
    {
        proof {
            assert(map_view(self.faucet_grants@).insert(pubkey@, ()).dom() =~= map_view(self.faucet_grants@).dom().insert(pubkey@));
        }
        upsert(&mut self.faucet_grants, pubkey, ());
    }

    /// Resolves the consensus task at position `i`; see `resolved` and
    /// `resolution_losers`.
    fn resolve_at(&mut self, i: usize)
        requires
            old(self)@.wf(),
            i < old(self)@.tasks.len(),
            old(self)@.tasks[i as int].kind is Consensus,
            forall|k: Seq<u8>| #[trigger] resolution_losers(old(self)@.tasks[i as int]).contains(k)
                ==> old(self)@.reputation_of(k).failed < u64::MAX,
        ensures
            final(self)@.wf(),
            final(self)@.tasks == old(self)@.tasks.update(i as int, resolved(old(self)@.tasks[i as int])),
            final(self)@.reputation_map() == with_failures(old(self)@.reputation_map(), resolution_losers(old(self)@.tasks[i as int])),
            final(self)@.faucet_grants == old(self)@.faucet_grants,
    {
        let ghost t0 = self@.tasks[i as int];
        let ghost m0 = self@.reputation_map();
        let task = &self.tasks[i];
        assert(task@ == t0);
        assert(task_wf(t0));
        let bounty = task.bounty;
        let (num, join_deadline, window, deadline, assignees) = match &task.kind {
            TaskKind::Consensus { num_assignees, join_deadline, submission_window_minutes, submission_deadline, assignees } =>
                (*num_assignees, *join_deadline, *submission_window_minutes, *submission_deadline, copy_assignees(assignees)),
            TaskKind::HashMatch { .. } => {
                proof { assert(false); }
                return;
            },
        };
        let ghost v = assignees_view(assignees@);
        proof { lemma_assignee_keys(assignees@); }
        let winning = majority_answer(&assignees);
        match winning {
            None => {
                let ghost old_tasks = self.tasks@;
                let task = &mut self.tasks[i];
                task.status = TaskStatus::Closed;
                task.close_reason = Some(CloseReason::NoMajority);
                proof {
                    assert(self.tasks@ == old_tasks.update(i as int, self.tasks@[i as int]));
                    assert(self@.tasks =~= old(self)@.tasks.update(i as int, resolved(t0)));
                    assert(resolution_losers(t0) =~= Set::<Seq<u8>>::empty());
                    assert(with_failures(m0, Set::<Seq<u8>>::empty()) =~= m0);
                }
            },
            Some(w) => {
                let winners = count_answer(&assignees, &w);
                let share: u64 = if winners == 0 { bounty } else { bounty / (winners as u64) };
                let mut j: usize = 0;
                proof { assert(with_failures(m0, losers_among(v, w@, 0)) =~= m0); }
                while j < assignees.len()
                    invariant
                        j <= assignees@.len(),
                        v == assignees_view(assignees@),
                        keys_sorted(entry_keys(v)),
                        majority_of(v) == Some(w@),
                        resolution_losers(t0) == losers_among(v, w@, v.len() as int),
                        forall|k: Seq<u8>| #[trigger] resolution_losers(t0).contains(k) ==> rep_in(m0, k).failed < u64::MAX,
                        self@.wf(),
                        self@.tasks == old(self)@.tasks,
                        self@.faucet_grants == old(self)@.faucet_grants,
                        self@.reputation_map() == with_failures(m0, losers_among(v, w@, j as int)),
                    decreases assignees.len() - j,
                {
                    let is_winner = match &assignees[j].1.answer {
                        Some(a) => *a == w,
                        None => false,
                    };
                    let ghost k = v[j as int].0;
                    if !is_winner {
                        proof {
                            assert(!losers_among(v, w@, j as int).contains(k)) by {
                                if losers_among(v, w@, j as int).contains(k) {
                                    let q = choose|q: int| 0 <= q < j && (#[trigger] v[q]).0 == k && v[q].1.answer != Some(w@);
                                    lemma_entry_unique(v, q, j as int);
                                }
                            }
                            assert(losers_among(v, w@, v.len() as int).contains(k));
                            lemma_with_failures_step(m0, losers_among(v, w@, j as int), k);
                            assert(losers_among(v, w@, j as int).insert(k) =~= losers_among(v, w@, j + 1));
                        }
                        self.add_failure(&assignees[j].0);
                    } else {
                        assert(losers_among(v, w@, j as int) =~= losers_among(v, w@, j + 1));
                    }
                    j = j + 1;
                }
                let mut shared: Vec<(PublicKey, ConsensusAssignment)> = Vec::new();
                let mut j: usize = 0;
                while j < assignees.len()
                    invariant
                        j <= assignees@.len(),
                        v == assignees_view(assignees@),
                        assignees_view(shared@) == with_shares(v, w@, share).take(j as int),
                        key_seq(shared@) == key_seq(assignees@).take(j as int),
                    decreases assignees.len() - j,
                {
                    let is_winner = match &assignees[j].1.answer {
                        Some(a) => *a == w,
                        None => false,
                    };
                    let a = assignees[j].1.copy();
                    let entry = if is_winner {
                        (assignees[j].0.duplicate(), ConsensusAssignment { answer: a.answer, paid: a.paid, share: Some(share) })
                    } else {
                        (assignees[j].0.duplicate(), a)
                    };
                    let ghost prev = shared@;
                    proof {
                        assert(is_winner == (v[j as int].1.answer == Some(w@)));
                        assert((entry.0@, entry.1@) == with_shares(v, w@, share)[j as int]);
                    }
                    shared.push(entry);
                    proof {
                        assert(shared@ == prev.push(entry));
                        assert(assignees_view(shared@) =~= assignees_view(prev).push((entry.0@, entry.1@)));
                        assert(with_shares(v, w@, share).take(j + 1) =~= with_shares(v, w@, share).take(j as int).push(with_shares(v, w@, share)[j as int]));
                        assert(assignees_view(shared@) =~= with_shares(v, w@, share).take(j + 1));
                        assert(key_seq(shared@) =~= key_seq(assignees@).take(j + 1));
                    }
                    j = j + 1;
                }
                proof {
                    assert(with_shares(v, w@, share).take(v.len() as int) =~= with_shares(v, w@, share));
                    assert(key_seq(assignees@).take(v.len() as int) =~= key_seq(assignees@));
                    assert(share == winner_share(bounty, v, w@));
                    lemma_assignee_keys(shared@);
                }
                let ghost old_tasks = self.tasks@;
                let task = &mut self.tasks[i];
                task.kind = TaskKind::Consensus {
                    num_assignees: num,
                    join_deadline,
                    submission_window_minutes: window,
                    submission_deadline: deadline,
                    assignees: shared,
                };
                task.status = TaskStatus::Verified;
                proof {
                    assert(self.tasks@ == old_tasks.update(i as int, self.tasks@[i as int]));
                    assert(self@.tasks =~= old(self)@.tasks.update(i as int, resolved(t0)));
                }
            },
        }
    }

    /// Records `agent`'s answer to the claimed `Consensus` task `id` at
    /// `now`.  Once every assignee has answered, the task is resolved (see
    /// `resolved`) and `Ok(true)` is returned; otherwise `Ok(false)`.
    pub fn submit_consensus_answer_at(&mut self, id: u128, agent: PublicKey, answer: String, now: Timestamp) -> (r: Result<bool, BoardError>)
        requires
            old(self)@.wf(),
            old(self)@.answer_error(id, agent@, now) is None
                && all_answered(with_answer(old(self)@.task(id), agent@, answer@))
                ==> old(self)@.losers_fit(with_answer(old(self)@.task(id), agent@, answer@)),
        ensures
            final(self)@.wf(),
            r is Err <==> old(self)@.answer_error(id, agent@, now) is Some,
            r matches Err(e) ==> old(self)@.answer_error(id, agent@, now) == Some(e) && final(self)@ == old(self)@,
            r matches Ok(done) ==> done == all_answered(with_answer(old(self)@.task(id), agent@, answer@)),
            r matches Ok(false) ==> final(self)@ == old(self)@.with_task_at(old(self)@.task_index(id),
                with_answer(old(self)@.task(id), agent@, answer@)),
            r matches Ok(true) ==> final(self)@.tasks == old(self)@.tasks.update(old(self)@.task_index(id),
                resolved(with_answer(old(self)@.task(id), agent@, answer@)))
                && final(self)@.reputation_map() == with_failures(old(self)@.reputation_map(),
                    resolution_losers(with_answer(old(self)@.task(id), agent@, answer@)))
                && final(self)@.faucet_grants == old(self)@.faucet_grants,
    {
        let i = match self.find_task(id) {
            Ok(i) => i,
            Err(_) => return Err(BoardError::NotFound),
        };
        let task = &self.tasks[i];
        let ghost t0 = self@.task(id);
        assert(task@ == t0);
        assert(task_wf(self@.tasks[i as int]));
        let (num, join_deadline, window, deadline, assignees) = match &task.kind {
            TaskKind::Consensus { num_assignees, join_deadline, submission_window_minutes, submission_deadline, assignees } =>
                (*num_assignees, *join_deadline, *submission_window_minutes, *submission_deadline, assignees),
            TaskKind::HashMatch { .. } => return Err(BoardError::WrongTaskKind),
        };
        if task.status != TaskStatus::Claimed {
            return Err(BoardError::NotClaimed);
        }
        let due = match deadline {
            Some(d) => d,
            None => {
                proof { assert(false); }
                return Err(BoardError::NotClaimed);
            },
        };
        if now.is_after(&due) {
            return Err(BoardError::SubmissionWindowExpired);
        }
        let ghost v = assignees_view(assignees@);
        proof { lemma_assignee_keys(assignees@); }
        let j = match find_key(assignees, &agent) {
            Ok(j) => j,
            Err(_) => {
                proof {
                    if has_entry(v, agent@) {
                        let q = entry_index(v, agent@);
                        assert(assignees@[q].0@ == agent@);
                    }
                }
                return Err(BoardError::NotClaimant);
            },
        };
        proof { lemma_entry_index(v, j as int); }
        if assignees[j].1.answer.is_some() {
            return Err(BoardError::AlreadySubmitted);
        }
        let mut new_assignees = copy_assignees(assignees);
        let ghost answer_view = answer@;
        let ghost agent_view = agent@;
        let entry = (agent, ConsensusAssignment { answer: Some(answer), paid: new_assignees[j].1.paid, share: new_assignees[j].1.share });
        let ghost before = new_assignees@;
        proof {
            assert(new_assignees@[j as int].1@ == v[j as int].1);
            assert((entry.0@, entry.1@) == (agent_view, AssignmentView { answer: Some(answer_view), ..v[j as int].1 }));
        }
        new_assignees.set(j, entry);
        proof {
            assert(new_assignees@ == before.update(j as int, entry));
            assert(assignees_view(new_assignees@) =~= v.update(j as int, (agent_view, AssignmentView { answer: Some(answer_view), ..v[j as int].1 })));
            lemma_assignee_keys(new_assignees@);
            assert(entry_keys(assignees_view(new_assignees@)) =~= entry_keys(v));
        }
        let ghost t1 = with_answer(t0, agent_view, answer_view);
        let mut all = true;
        let mut q: usize = 0;
        while q < new_assignees.len()
            invariant
                q <= new_assignees@.len(),
                all <==> forall|p: int| 0 <= p < q ==> (#[trigger] assignees_view(new_assignees@)[p]).1.answer is Some,
            decreases new_assignees.len() - q,
        {
            assert(assignees_view(new_assignees@)[q as int].1.answer is Some <==> new_assignees@[q as int].1.answer is Some);
            if new_assignees[q].1.answer.is_none() {
                all = false;
            }
            q = q + 1;
        }
        let ghost old_tasks = self.tasks@;
        let task = &mut self.tasks[i];
        task.kind = TaskKind::Consensus {
            num_assignees: num,
            join_deadline,
            submission_window_minutes: window,
            submission_deadline: deadline,
            assignees: new_assignees,
        };
        proof {
            assert(self.tasks@ == old_tasks.update(i as int, self.tasks@[i as int]));
            assert(self@.tasks =~= old(self)@.tasks.update(i as int, t1));
            assert(all == all_answered(t1));
        }
        if all {
            proof {
                assert(self@.reputation_map() == old(self)@.reputation_map());
                assert(self@.tasks[i as int] == t1);
                assert(self@.tasks.update(i as int, resolved(t1)) =~= old(self)@.tasks.update(i as int, resolved(t1)));
            }
            self.resolve_at(i);
            Ok(true)
        } else {
            Ok(false)
        }
    }

    /// Records `agent`'s answer to the claimed `Consensus` task `id` now,
    /// as `submit_consensus_answer_at` does at the current time.
    pub fn submit_consensus_answer(&mut self, id: u128, agent: PublicKey, answer: String) -> (r: Result<bool, BoardError>)
        requires
            old(self)@.wf(),
            old(self)@.answer_accepted_untimed(id, agent@)
                && all_answered(with_answer(old(self)@.task(id), agent@, answer@))
                ==> old(self)@.losers_fit(with_answer(old(self)@.task(id), agent@, answer@)),
        ensures
            final(self)@.wf(),
            exists|now: Timestamp| {
                &&& r is Err <==> (#[trigger] old(self)@.answer_error(id, agent@, now)) is Some
                &&& r matches Err(e) ==> old(self)@.answer_error(id, agent@, now) == Some(e) && final(self)@ == old(self)@
            },
            r matches Ok(done) ==> done == all_answered(with_answer(old(self)@.task(id), agent@, answer@)),
            r matches Ok(false) ==> final(self)@ == old(self)@.with_task_at(old(self)@.task_index(id),
                with_answer(old(self)@.task(id), agent@, answer@)),
            r matches Ok(true) ==> final(self)@.tasks == old(self)@.tasks.update(old(self)@.task_index(id),
                resolved(with_answer(old(self)@.task(id), agent@, answer@)))
                && final(self)@.reputation_map() == with_failures(old(self)@.reputation_map(),
                    resolution_losers(with_answer(old(self)@.task(id), agent@, answer@)))
                && final(self)@.faucet_grants == old(self)@.faucet_grants,
    {
        let now = Timestamp::now();
        let r = self.submit_consensus_answer_at(id, agent, answer, now);
        proof {
            assert(r is Err <==> old(self)@.answer_error(id, agent@, now) is Some);
        }
        r
    }

    /// Records that `recipient` was paid `amount` for the `Verified` task
    /// `id`, crediting its record; returns whether the task is now fully
    /// paid.  A consensus winner already recorded as paid gives `Ok(false)`
    /// and changes nothing.
    pub fn mark_recipient_paid(&mut self, id: u128, recipient: &PublicKey, amount: u64) -> (r: Result<bool, BoardError>)
        requires
            old(self)@.wf(),
            old(self)@.pay_error(id, recipient@) is None && !already_paid(old(self)@.task(id), recipient@)
                ==> old(self)@.reputation_of(recipient@).completed < u64::MAX
                    && old(self)@.reputation_of(recipient@).total_earned + amount <= u64::MAX,
        ensures
            final(self)@.wf(),
            r is Err <==> old(self)@.pay_error(id, recipient@) is Some,
            r matches Err(e) ==> old(self)@.pay_error(id, recipient@) == Some(e) && final(self)@ == old(self)@,
            r is Ok && already_paid(old(self)@.task(id), recipient@) ==> r == Ok::<bool, BoardError>(false) && final(self)@ == old(self)@,
            r is Ok && !already_paid(old(self)@.task(id), recipient@) ==> {
                &&& r == Ok::<bool, BoardError>(with_paid(old(self)@.task(id), recipient@).status == TaskStatus::Paid)
                &&& final(self)@.tasks == old(self)@.tasks.update(old(self)@.task_index(id), with_paid(old(self)@.task(id), recipient@))
                &&& final(self)@.reputation_map() == with_payout(old(self)@.reputation_map(), recipient@, amount)
                &&& final(self)@.faucet_grants == old(self)@.faucet_grants
            },
    {
        let i = match self.find_task(id) {
            Ok(i) => i,
            Err(_) => return Err(BoardError::NotFound),
        };
        let task = &self.tasks[i];
        let ghost t0 = self@.task(id);
        assert(task@ == t0);
        assert(task_wf(self@.tasks[i as int]));
        if task.status != TaskStatus::Verified {
            return Err(BoardError::NotVerified);
        }
        let ghost old_tasks = self.tasks@;
        let fully_paid = match &task.kind {
            TaskKind::HashMatch { .. } => {
                let is_claimant = match &task.claimant {
                    Some(c) => c.same_as(recipient),
                    None => false,
                };
                if !is_claimant {
                    return Err(BoardError::NotClaimant);
                }
                let task = &mut self.tasks[i];
                task.status = TaskStatus::Paid;
                proof {
                    assert(self.tasks@ == old_tasks.update(i as int, self.tasks@[i as int]));
                    assert(self@.tasks =~= old(self)@.tasks.update(i as int, with_paid(t0, recipient@)));
                }
                true
            },
            TaskKind::Consensus { num_assignees, join_deadline, submission_window_minutes, submission_deadline, assignees } => {
                let ghost v = assignees_view(assignees@);
                proof { lemma_assignee_keys(assignees@); }
                let j = match find_key(assignees, recipient) {
                    Ok(j) => j,
                    Err(_) => {
                        proof {
                            if has_entry(v, recipient@) {
                                let q = entry_index(v, recipient@);
                                assert(assignees@[q].0@ == recipient@);
                            }
                        }
                        return Err(BoardError::NotClaimant);
                    },
                };
                proof { lemma_entry_index(v, j as int); }
                if assignees[j].1.share.is_none() {
                    return Err(BoardError::NotClaimant);
                }
                if assignees[j].1.paid {
                    return Ok(false);
                }
                let num = *num_assignees;
                let jd = *join_deadline;
                let window = *submission_window_minutes;
                let deadline = *submission_deadline;
                let mut new_assignees = copy_assignees(assignees);
                let ghost before = new_assignees@;
                let entry = (recipient.duplicate(), ConsensusAssignment {
                    answer: new_assignees[j].1.answer.clone(),
                    paid: true,
                    share: new_assignees[j].1.share,
                });
                let ghost rv = recipient@;
                proof {
                    assert(new_assignees@[j as int].1@ == v[j as int].1);
                    assert((entry.0@, entry.1@) == (rv, AssignmentView { paid: true, ..v[j as int].1 }));
                }
                new_assignees.set(j, entry);
                let ghost paid_view = v.update(j as int, (rv, AssignmentView { paid: true, ..v[j as int].1 }));
                proof {
                    assert(new_assignees@ == before.update(j as int, entry));
                    assert(assignees_view(new_assignees@) =~= paid_view);
                    lemma_assignee_keys(new_assignees@);
                    assert(entry_keys(paid_view) =~= entry_keys(v));
                }
                let mut all = true;
                let mut q: usize = 0;
                while q < new_assignees.len()
                    invariant
                        q <= new_assignees@.len(),
                        all <==> forall|p: int| 0 <= p < q ==> (#[trigger] assignees_view(new_assignees@)[p]).1.share is None
                            || assignees_view(new_assignees@)[p].1.paid,
                    decreases new_assignees.len() - q,
                {
                    assert(assignees_view(new_assignees@)[q as int].1.share == new_assignees@[q as int].1.share);
                    if new_assignees[q].1.share.is_some() && !new_assignees[q].1.paid {
                        all = false;
                    }
                    q = q + 1;
                }
                assert(all == settled(paid_view));
                let task = &mut self.tasks[i];
                task.kind = TaskKind::Consensus {
                    num_assignees: num,
                    join_deadline: jd,
                    submission_window_minutes: window,
                    submission_deadline: deadline,
                    assignees: new_assignees,
                };
                if all {
                    task.status = TaskStatus::Paid;
                }
                proof {
                    assert(self.tasks@ == old_tasks.update(i as int, self.tasks@[i as int]));
                    assert(self@.tasks =~= old(self)@.tasks.update(i as int, with_paid(t0, rv)));
                }
                all
            },
        };
        self.credit_payout(recipient, amount);
        Ok(fully_paid)
    }

    /// Reopens every claimed task whose claim deadline has passed at
    /// `now`; returns their ids in board order.
    pub fn expire_claims(&mut self, now: Timestamp) -> (r: Vec<u128>)
        requires
            old(self)@.wf(),
        ensures
            final(self)@.wf(),
            final(self)@.tasks == old(self)@.tasks.map_values(|t: TaskView| if claim_expired(t, now) { reopened(t) } else { t }),
            r@ == ids_matching(old(self)@.tasks, |t: TaskView| claim_expired(t, now)),
            final(self)@.reputation == old(self)@.reputation,
            final(self)@.faucet_grants == old(self)@.faucet_grants,
    {
        let ghost ts = self@.tasks;
        let ghost f = |t: TaskView| if claim_expired(t, now) { reopened(t) } else { t };
        let ghost pred = |t: TaskView| claim_expired(t, now);
        let mut r: Vec<u128> = Vec::new();
        let mut i: usize = 0;
        while i < self.tasks.len()
            invariant
                i <= self@.tasks.len(),
                self@.tasks.len() == ts.len(),
                self.tasks@.len() == ts.len(),
                forall|j: int| 0 <= j < i ==> #[trigger] self@.tasks[j] == f(ts[j]),
                forall|j: int| i <= j < ts.len() ==> #[trigger] self@.tasks[j] == ts[j],
                r@ == ids_matching(ts.take(i as int), pred),
                self@.reputation == old(self)@.reputation,
                self@.faucet_grants == old(self)@.faucet_grants,
                f == (|t: TaskView| if claim_expired(t, now) { reopened(t) } else { t }),
                pred == (|t: TaskView| claim_expired(t, now)),
            decreases self.tasks.len() - i,
        {
            assert(ts.take(i + 1).drop_last() =~= ts.take(i as int));
            assert(self@.tasks[i as int] == ts[i as int]);
            assert(self.tasks@[i as int]@ == self@.tasks[i as int]);
            let ghost before = self@.tasks;
            let expired = self.tasks[i].status == TaskStatus::Claimed && match self.tasks[i].claim_deadline {
                Some(d) => now.is_after(&d),
                None => false,
            };
            assert(expired == claim_expired(ts[i as int], now));
            if expired {
                r.push(self.tasks[i].id);
                let ghost old_tasks = self.tasks@;
                let task = &mut self.tasks[i];
                task.status = TaskStatus::Open;
                task.claimant = None;
                task.claim_deadline = None;
                proof {
                    assert(self.tasks@ == old_tasks.update(i as int, self.tasks@[i as int]));
                    assert(self@.tasks =~= before.update(i as int, reopened(ts[i as int])));
                }
            }
            assert(expired == pred(ts[i as int]));
            assert(self@.tasks[i as int] == f(ts[i as int]));
            i = i + 1;
        }
        proof {
            assert(ts.take(ts.len() as int) =~= ts);
            assert(self@.tasks =~= ts.map_values(f));
            assert forall|a: int, b: int| 0 <= a < b < self@.tasks.len() implies (#[trigger] self@.tasks[a]).id < (#[trigger] self@.tasks[b]).id by {
                assert(ts[a].id < ts[b].id);
            }
            assert forall|a: int| 0 <= a < self@.tasks.len() implies task_wf(#[trigger] self@.tasks[a]) by {
                assert(task_wf(ts[a]));
            }
        }
        r
    }

    /// Closes every open consensus task whose join deadline has passed at
    /// `now`; returns their ids in board order.
    pub fn cancel_understaffed_consensus_tasks(&mut self, now: Timestamp) -> (r: Vec<u128>)
        requires
            old(self)@.wf(),
        ensures
            final(self)@.wf(),
            final(self)@.tasks == old(self)@.tasks.map_values(|t: TaskView| if understaffed(t, now) { cancelled(t) } else { t }),
            r@ == ids_matching(old(self)@.tasks, |t: TaskView| understaffed(t, now)),
            final(self)@.reputation == old(self)@.reputation,
            final(self)@.faucet_grants == old(self)@.faucet_grants,
    {
        let ghost ts = self@.tasks;
        let ghost f = |t: TaskView| if understaffed(t, now) { cancelled(t) } else { t };
        let ghost pred = |t: TaskView| understaffed(t, now);
        let mut r: Vec<u128> = Vec::new();
        let mut i: usize = 0;
        while i < self.tasks.len()
            invariant
                i <= self@.tasks.len(),
                self@.tasks.len() == ts.len(),
                self.tasks@.len() == ts.len(),
                forall|j: int| 0 <= j < i ==> #[trigger] self@.tasks[j] == f(ts[j]),
                forall|j: int| i <= j < ts.len() ==> #[trigger] self@.tasks[j] == ts[j],
                r@ == ids_matching(ts.take(i as int), pred),
                self@.reputation == old(self)@.reputation,
                self@.faucet_grants == old(self)@.faucet_grants,
                f == (|t: TaskView| if understaffed(t, now) { cancelled(t) } else { t }),
                pred == (|t: TaskView| understaffed(t, now)),
            decreases self.tasks.len() - i,
        {
            assert(ts.take(i + 1).drop_last() =~= ts.take(i as int));
            assert(self@.tasks[i as int] == ts[i as int]);
            assert(self.tasks@[i as int]@ == self@.tasks[i as int]);
            let ghost before = self@.tasks;
            let due = self.tasks[i].status == TaskStatus::Open && match &self.tasks[i].kind {
                TaskKind::Consensus { join_deadline, .. } => now.is_after(join_deadline),
                TaskKind::HashMatch { .. } => false,
            };
            assert(due == understaffed(ts[i as int], now));
            if due {
                r.push(self.tasks[i].id);
                let ghost old_tasks = self.tasks@;
                let task = &mut self.tasks[i];
                task.status = TaskStatus::Closed;
                task.close_reason = Some(CloseReason::Understaffed);
                proof {
                    assert(self.tasks@ == old_tasks.update(i as int, self.tasks@[i as int]));
                    assert(self@.tasks =~= before.update(i as int, cancelled(ts[i as int])));
                }
            }
            assert(due == pred(ts[i as int]));
            assert(self@.tasks[i as int] == f(ts[i as int]));
            i = i + 1;
        }
        proof {
            assert(ts.take(ts.len() as int) =~= ts);
            assert(self@.tasks =~= ts.map_values(f));
            assert forall|a: int, b: int| 0 <= a < b < self@.tasks.len() implies (#[trigger] self@.tasks[a]).id < (#[trigger] self@.tasks[b]).id by {
                assert(ts[a].id < ts[b].id);
            }
            assert forall|a: int| 0 <= a < self@.tasks.len() implies task_wf(#[trigger] self@.tasks[a]) by {
                assert(task_wf(ts[a]));
            }
        }
        r
    }

    /// The ids and positions of the claimed consensus tasks whose
    /// submission deadline has passed at `now`.
    fn due_consensus_tasks(&self, now: Timestamp) -> (r: (Vec<u128>, Vec<usize>))
        ensures
            r.0@ == ids_matching(self@.tasks, |t: TaskView| consensus_due(t, now)),
            usize_ints(r.1@) == positions_matching(self@.tasks, |t: TaskView| consensus_due(t, now)),
    {
        let ghost ts = self@.tasks;
        let ghost pred = |t: TaskView| consensus_due(t, now);
        let mut ids: Vec<u128> = Vec::new();
        let mut positions: Vec<usize> = Vec::new();
        let mut i: usize = 0;
        while i < self.tasks.len()
            invariant
                i <= ts.len(),
                self@.tasks == ts,
                self.tasks@.len() == ts.len(),
                ids@ == ids_matching(ts.take(i as int), pred),
                usize_ints(positions@) == positions_matching(ts.take(i as int), pred),
                pred == (|t: TaskView| consensus_due(t, now)),
            decreases self.tasks.len() - i,
        {
            assert(ts.take(i + 1).drop_last() =~= ts.take(i as int));
            assert(self.tasks@[i as int]@ == ts[i as int]);
            let due = self.tasks[i].status == TaskStatus::Claimed && match &self.tasks[i].kind {
                TaskKind::Consensus { submission_deadline, .. } => match submission_deadline {
                    Some(d) => now.is_after(d),
                    None => false,
                },
                TaskKind::HashMatch { .. } => false,
            };
            assert(due == consensus_due(ts[i as int], now));
            if due {
                ids.push(self.tasks[i].id);
                let ghost prev = positions@;
                positions.push(i);
                assert(usize_ints(positions@) =~= usize_ints(prev).push(i as int));
            }
            i = i + 1;
        }
        assert(ts.take(ts.len() as int) =~= ts);
        (ids, positions)
    }

    /// Resolves the tasks at `positions`, one after the other.
    fn resolve_positions(&mut self, positions: &Vec<usize>)
        requires
            old(self)@.wf(),
            forall|q: int| 0 <= q < positions@.len() ==> (#[trigger] positions@[q]) < old(self)@.tasks.len()
                && old(self)@.tasks[positions@[q] as int].kind is Consensus,
            resolve_each_fits(old(self)@.tasks, old(self)@.reputation_map(), usize_ints(positions@)),
        ensures
            final(self)@.wf(),
            final(self)@.tasks == resolve_each(old(self)@.tasks, old(self)@.reputation_map(), usize_ints(positions@)).0,
            final(self)@.reputation_map() == resolve_each(old(self)@.tasks, old(self)@.reputation_map(), usize_ints(positions@)).1,
            final(self)@.faucet_grants == old(self)@.faucet_grants,
    {
        let ghost ts = self@.tasks;
        let ghost m0 = self@.reputation_map();
        let ghost ps = usize_ints(positions@);
        assert(ps.take(0) =~= Seq::<int>::empty());
        let mut j: usize = 0;
        while j < positions.len()
            invariant
                j <= ps.len(),
                ps == usize_ints(positions@),
                forall|q: int| 0 <= q < positions@.len() ==> (#[trigger] positions@[q]) < ts.len()
                    && ts[positions@[q] as int].kind is Consensus,
                resolve_each_fits(ts, m0, ps),
                self@.wf(),
                self@.tasks == resolve_each(ts, m0, ps.take(j as int)).0,
                self@.reputation_map() == resolve_each(ts, m0, ps.take(j as int)).1,
                self@.faucet_grants == old(self)@.faucet_grants,
            decreases positions.len() - j,
        {
            let p = positions[j];
            proof {
                assert(ps[j as int] == p as int);
                let pre = ps.take(j + 1);
                assert(pre.drop_last() =~= ps.take(j as int));
                assert(pre.last() == p as int);
                lemma_fits_prefix(ts, m0, ps, j + 1);
                assert forall|q: int| 0 <= q < ps.take(j as int).len() implies 0 <= #[trigger] ps.take(j as int)[q] < ts.len() by {
                    assert(ps.take(j as int)[q] == positions@[q] as int);
                }
                lemma_resolve_each_shape(ts, m0, ps.take(j as int));
            }
            self.resolve_at(p);
            j = j + 1;
        }
        assert(ps.take(ps.len() as int) =~= ps);
    }

    /// Resolves every claimed consensus task whose submission deadline
    /// has passed at `now`, in board order, an assignee who never answered
    /// counting as disagreeing; returns their ids.
    pub fn resolve_expired_consensus_tasks(&mut self, now: Timestamp) -> (r: Vec<u128>)
        requires
            old(self)@.wf(),
            resolve_each_fits(old(self)@.tasks, old(self)@.reputation_map(),
                positions_matching(old(self)@.tasks, |t: TaskView| consensus_due(t, now))),
        ensures
            final(self)@.wf(),
            r@ == ids_matching(old(self)@.tasks, |t: TaskView| consensus_due(t, now)),
            final(self)@.tasks == resolve_each(old(self)@.tasks, old(self)@.reputation_map(),
                positions_matching(old(self)@.tasks, |t: TaskView| consensus_due(t, now))).0,
            final(self)@.reputation_map() == resolve_each(old(self)@.tasks, old(self)@.reputation_map(),
                positions_matching(old(self)@.tasks, |t: TaskView| consensus_due(t, now))).1,
            final(self)@.faucet_grants == old(self)@.faucet_grants,
    {
        let (ids, positions) = self.due_consensus_tasks(now);
        proof {
            let pred = |t: TaskView| consensus_due(t, now);
            lemma_positions_matching(self@.tasks, pred);
            assert forall|q: int| 0 <= q < positions@.len() implies (#[trigger] positions@[q]) < self@.tasks.len()
                && self@.tasks[positions@[q] as int].kind is Consensus by {
                assert(usize_ints(positions@)[q] == positions@[q] as int);
                assert(pred(self@.tasks[positions@[q] as int]));
            }
        }
        self.resolve_positions(&positions);
        ids
    }

    /// Stores `task` under its id, replacing any task with that id.
    fn put(&mut self, task: Task)
        requires
            old(self)@.wf(),
            task_wf(task@),
        ensures
            final(self)@.wf(),
            final(self)@.tasks == put_task(old(self)@.tasks, task@),
            final(self)@.reputation == old(self)@.reputation,
            final(self)@.faucet_grants == old(self)@.faucet_grants,
    {
        let ghost tv = task@;
        let ghost ts = self@.tasks;
        match self.find_task(task.id) {
            Ok(i) => {
                let ghost old_tasks = self.tasks@;
                self.tasks.set(i, task);
                proof {
                    assert(self.tasks@ == old_tasks.update(i as int, self.tasks@[i as int]));
                    assert(self@.tasks =~= ts.update(i as int, tv));
                    assert forall|a: int, b: int| 0 <= a < b < self@.tasks.len() implies (#[trigger] self@.tasks[a]).id < (#[trigger] self@.tasks[b]).id by {
                        assert(ts[a].id < ts[b].id);
                    }
                }
            },
            Err(p) => {
                let ghost old_tasks = self.tasks@;
                self.tasks.insert(p, task);
                proof {
                    assert(self.tasks@ == old_tasks.insert(p as int, self.tasks@[p as int]));
                    assert(self@.tasks =~= ts.insert(p as int, tv));
                    assert(is_task_insert_pos(ts, tv.id, p as int));
                    let q = choose|q: int| is_task_insert_pos(ts, tv.id, q);
                    assert(is_task_insert_pos(ts, tv.id, q));
                    if q < p {
                        assert(ts[q].id < tv.id);
                    } else if p < q {
                        assert(ts[p as int].id < tv.id);
                    }
                    assert forall|a: int, b: int| 0 <= a < b < self@.tasks.len() implies (#[trigger] self@.tasks[a]).id < (#[trigger] self@.tasks[b]).id by {
                        if b < p {
                            assert(ts[a].id < ts[b].id);
                        } else if b == p {
                        } else if a < p {
                            assert(ts[a].id < tv.id);
                        } else if a == p {
                        } else {
                            assert(ts[a - 1].id < ts[b - 1].id);
                        }
                    }
                    assert forall|a: int| 0 <= a < self@.tasks.len() implies task_wf(#[trigger] self@.tasks[a]) by {
                        if a < p {
                            assert(task_wf(ts[a]));
                        } else if a > p {
                            assert(task_wf(ts[a - 1]));
                        }
                    }
                }
            },
        }
    }

    /// Restores a task read back from storage, under its own id.
    pub fn restore_task(&mut self, task: Task)
        requires
            old(self)@.wf(),
            task_wf(task@),
        ensures
            final(self)@.wf(),
            final(self)@.tasks == put_task(old(self)@.tasks, task@),
            final(self)@.reputation == old(self)@.reputation,
            final(self)@.faucet_grants == old(self)@.faucet_grants,
    {
        self.put(task);
    }

    /// Posts a `HashMatch` task with id `id`, created at `now`; returns a
    /// copy of it.
    pub fn create_task_with(
        &mut self,
        id: u128,
        now: Timestamp,
        poster: PublicKey,
        description: String,
        bounty: u64,
        expected_output_hash: crate::hash::Hash,
    ) -> (t: Task)
        requires
            old(self)@.wf(),
        ensures
            final(self)@.wf(),
            t@ == new_hash_task(id, now, poster@, description@, bounty, expected_output_hash@),
            final(self)@.tasks == put_task(old(self)@.tasks, t@),
            final(self)@.reputation == old(self)@.reputation,
            final(self)@.faucet_grants == old(self)@.faucet_grants,
    {
        let task = Task {
            id,
            description,
            bounty,
            kind: TaskKind::HashMatch { expected_output_hash },
            poster,
            status: TaskStatus::Open,
            claimant: None,
            claim_deadline: None,
            failed_attempts: 0,
            created_at: now,
            min_reputation: 0,
            close_reason: None,
        };
        let copy = task.copy();
        self.put(task);
        copy
    }

    /// Posts a `HashMatch` task under a fresh random id, created now.
    pub fn create_task(
        &mut self,
        poster: PublicKey,
        description: String,
        bounty: u64,
        expected_output_hash: crate::hash::Hash,
    ) -> (t: Task)
        requires
            old(self)@.wf(),
        ensures
            final(self)@.wf(),
            t@ == new_hash_task(t.id, t.created_at, poster@, description@, bounty, expected_output_hash@),
            final(self)@.tasks == put_task(old(self)@.tasks, t@),
            final(self)@.reputation == old(self)@.reputation,
            final(self)@.faucet_grants == old(self)@.faucet_grants,
    {
        let id = crate::crypto::new_uuid();
        let now = Timestamp::now();
        self.create_task_with(id, now, poster, description, bounty, expected_output_hash)
    }

    /// Posts a `Consensus` task with id `id`, created at `now`; its
    /// submission deadline is set only once it fills up.
    pub fn create_consensus_task_with(
        &mut self,
        id: u128,
        now: Timestamp,
        poster: PublicKey,
        description: String,
        bounty: u64,
        num_assignees: u32,
        join_deadline: Timestamp,
        submission_window_minutes: i64,
    ) -> (t: Task)
        requires
            old(self)@.wf(),
        ensures
            final(self)@.wf(),
            t@ == new_consensus_task(id, now, poster@, description@, bounty, num_assignees, join_deadline, submission_window_minutes),
            final(self)@.tasks == put_task(old(self)@.tasks, t@),
            final(self)@.reputation == old(self)@.reputation,
            final(self)@.faucet_grants == old(self)@.faucet_grants,
    {
        let task = Task {
            id,
            description,
            bounty,
            kind: TaskKind::Consensus {
                num_assignees,
                join_deadline,
                submission_window_minutes,
                submission_deadline: None,
                assignees: Vec::new(),
            },
            poster,
            status: TaskStatus::Open,
            claimant: None,
            claim_deadline: None,
            failed_attempts: 0,
            created_at: now,
            min_reputation: 0,
            close_reason: None,
        };
        assert(assignees_view(Seq::<(PublicKey, ConsensusAssignment)>::empty()) =~= Seq::<(Seq<u8>, AssignmentView)>::empty());
        assert(task@ == new_consensus_task(id, now, poster@, description@, bounty, num_assignees, join_deadline, submission_window_minutes));
        let copy = task.copy();
        self.put(task);
        copy
    }

    /// Posts a `Consensus` task under a fresh random id, created now.
    pub fn create_consensus_task(
        &mut self,
        poster: PublicKey,
        description: String,
        bounty: u64,
        num_assignees: u32,
        join_deadline: Timestamp,
        submission_window_minutes: i64,
    ) -> (t: Task)
        requires
            old(self)@.wf(),
        ensures
            final(self)@.wf(),
            t@ == new_consensus_task(t.id, t.created_at, poster@, description@, bounty, num_assignees, join_deadline, submission_window_minutes),
            final(self)@.tasks == put_task(old(self)@.tasks, t@),
            final(self)@.reputation == old(self)@.reputation,
            final(self)@.faucet_grants == old(self)@.faucet_grants,
    {
        let id = crate::crypto::new_uuid();
        let now = Timestamp::now();
        self.create_consensus_task_with(id, now, poster, description, bounty, num_assignees, join_deadline, submission_window_minutes)
    }

    /// The bounty promised to tasks neither paid nor closed.
    pub fn allocated_bounty(&self) -> (total: u64)
        requires
            allocated(self@.tasks) <= u64::MAX,
        ensures
            total == allocated(self@.tasks),
    {
        let ghost ts = self@.tasks;
        let mut total: u64 = 0;
        let mut i: usize = 0;
        while i < self.tasks.len()
            invariant
                i <= ts.len(),
                ts == self@.tasks,
                self.tasks@.len() == ts.len(),
                total == allocated(ts.take(i as int)),
                allocated(ts) <= u64::MAX,
            decreases self.tasks.len() - i,
        {
            assert(ts.take(i + 1).drop_last() =~= ts.take(i as int));
            assert(self.tasks@[i as int]@ == ts[i as int]);
            proof { lemma_allocated_prefix(ts, i + 1); }
            let t = &self.tasks[i];
            if t.status != TaskStatus::Paid && t.status != TaskStatus::Closed {
                total = total + t.bounty;
            }
            i = i + 1;
        }
        assert(ts.take(ts.len() as int) =~= ts);
        total
    }

    /// Copies of the tasks with status `status`, in board order.
    fn tasks_in_status(&self, status: TaskStatus) -> (r: Vec<Task>)
        ensures
            tasks_view(r@) == tasks_with_status(self@.tasks, status),
    {
        let ghost ts = self@.tasks;
        let mut r: Vec<Task> = Vec::new();
        let mut i: usize = 0;
        while i < self.tasks.len()
            invariant
                i <= ts.len(),
                ts == self@.tasks,
                self.tasks@.len() == ts.len(),
                tasks_view(r@) == tasks_with_status(ts.take(i as int), status),
            decreases self.tasks.len() - i,
        {
            assert(ts.take(i + 1).drop_last() =~= ts.take(i as int));
            assert(self.tasks@[i as int]@ == ts[i as int]);
            if self.tasks[i].status == status {
                let c = self.tasks[i].copy();
                let ghost prev = r@;
                r.push(c);
                assert(tasks_view(r@) =~= tasks_view(prev).push(ts[i as int]));
            }
            i = i + 1;
        }
        assert(ts.take(ts.len() as int) =~= ts);
        r
    }

    /// Copies of the open tasks, in board order.
    pub fn list_open_tasks(&self) -> (r: Vec<Task>)
        ensures
            tasks_view(r@) == tasks_with_status(self@.tasks, TaskStatus::Open),
    {
        self.tasks_in_status(TaskStatus::Open)
    }

    /// Copies of the tasks verified but not yet paid, in board order.
    pub fn verified_unpaid_tasks(&self) -> (r: Vec<Task>)
        ensures
            tasks_view(r@) == tasks_with_status(self@.tasks, TaskStatus::Verified),
    {
        self.tasks_in_status(TaskStatus::Verified)
    }

    /// Copies of every task, in board order.
    pub fn all_tasks(&self) -> (r: Vec<Task>)
        ensures
            tasks_view(r@) == self@.tasks,
    {
        let mut r: Vec<Task> = Vec::new();
        let mut i: usize = 0;
        while i < self.tasks.len()
            invariant
                i <= self.tasks@.len(),
                tasks_view(r@) == self@.tasks.take(i as int),
            decreases self.tasks.len() - i,
        {
            let c = self.tasks[i].copy();
            let ghost prev = r@;
            r.push(c);
            assert(self.tasks@[i as int]@ == self@.tasks[i as int]);
            assert(tasks_view(r@) =~= tasks_view(prev).push(c@));
            assert(tasks_view(r@) =~= self@.tasks.take(i + 1));
            i = i + 1;
        }
        assert(self@.tasks.take(self@.tasks.len() as int) =~= self@.tasks);
        r
    }

    /// Copies of every reputation record, in key order.
    pub fn all_reputation(&self) -> (r: Vec<(PublicKey, Reputation)>)
        ensures
            rep_entries(r@) == rep_entries(self@.reputation),
    {
        let mut r: Vec<(PublicKey, Reputation)> = Vec::new();
        let mut i: usize = 0;
        while i < self.reputation.len()
            invariant
                i <= self.reputation@.len(),
                self@.reputation == self.reputation@,
                rep_entries(r@) == rep_entries(self.reputation@).take(i as int),
            decreases self.reputation.len() - i,
        {
            let e = (self.reputation[i].0.duplicate(), self.reputation[i].1);
            let ghost prev = r@;
            r.push(e);
            assert(rep_entries(r@) =~= rep_entries(prev).push((e.0@, e.1)));
            assert(rep_entries(r@) =~= rep_entries(self.reputation@).take(i + 1));
            i = i + 1;
        }
        assert(rep_entries(self.reputation@).take(self.reputation@.len() as int) =~= rep_entries(self.reputation@));
        r
    }

    /// Every key holding a faucet grant, in key order.
    pub fn all_faucet_grants(&self) -> (r: Vec<PublicKey>)
        ensures
            keys_view(r@) == key_seq(self@.faucet_grants),
    {
        let mut r: Vec<PublicKey> = Vec::new();
        let mut i: usize = 0;
        while i < self.faucet_grants.len()
            invariant
                i <= self.faucet_grants@.len(),
                self@.faucet_grants == self.faucet_grants@,
                keys_view(r@) == key_seq(self.faucet_grants@).take(i as int),
            decreases self.faucet_grants.len() - i,
        {
            let k = self.faucet_grants[i].0.duplicate();
            let ghost prev = r@;
            r.push(k);
            assert(keys_view(r@) =~= keys_view(prev).push(k@));
            assert(keys_view(r@) =~= key_seq(self.faucet_grants@).take(i + 1));
            i = i + 1;
        }
        assert(key_seq(self.faucet_grants@).take(self.faucet_grants@.len() as int) =~= key_seq(self.faucet_grants@));
        r
    }

    /// The `top_n` best records: by total earned, most first, ties by key.
    pub fn leaderboard(&self, top_n: usize) -> (r: Vec<(PublicKey, Reputation)>)
        requires
            self@.wf(),
        ensures
            is_top(rep_entries(self@.reputation), top_n as nat, rep_entries(r@)),
    {
        let ghost es = rep_entries(self.reputation@);
        proof {
            assert forall|a: int, b: int| 0 <= a < es.len() && 0 <= b < es.len() && a != b implies es[a].0 != es[b].0 by {
                assert(es[a].0 == key_seq(self.reputation@)[a]);
                assert(es[b].0 == key_seq(self.reputation@)[b]);
                if a < b {
                    assert(bytes_lt(key_seq(self.reputation@)[a], key_seq(self.reputation@)[b]));
                } else {
                    assert(bytes_lt(key_seq(self.reputation@)[b], key_seq(self.reputation@)[a]));
                }
                crate::crypto::lemma_bytes_lt_irreflexive(es[a].0);
            }
        }
        let mut r: Vec<(PublicKey, Reputation)> = Vec::new();
        while r.len() < top_n && r.len() < self.reputation.len()
            invariant
                es == rep_entries(self.reputation@),
                es.len() == self.reputation@.len(),
                forall|a: int, b: int| 0 <= a < es.len() && 0 <= b < es.len() && a != b ==> es[a].0 != es[b].0,
                r@.len() <= top_n,
                r@.len() <= es.len(),
                forall|i: int, j: int| 0 <= i < j < r@.len() ==> ranks_above(#[trigger] rep_entries(r@)[i], #[trigger] rep_entries(r@)[j]),
                forall|i: int| 0 <= i < r@.len() ==> es.contains(#[trigger] rep_entries(r@)[i]),
                forall|e: (Seq<u8>, Reputation)| #[trigger] es.contains(e) && !rep_entries(r@).contains(e)
                    ==> forall|i: int| 0 <= i < r@.len() ==> ranks_above(#[trigger] rep_entries(r@)[i], e),
            decreases es.len() - r@.len(),
        {
            let ghost rs = rep_entries(r@);
            let n = r.len();
            let mut best: Option<usize> = None;
            let mut j: usize = 0;
            while j < self.reputation.len()
                invariant
                    j <= es.len(),
                    n == r@.len(),
                    rs == rep_entries(r@),
                    es == rep_entries(self.reputation@),
                    es.len() == self.reputation@.len(),
                    forall|a: int, b: int| 0 <= a < es.len() && 0 <= b < es.len() && a != b ==> es[a].0 != es[b].0,
                    best matches Some(b) ==> b < j && (n == 0 || ranks_above(rs[n - 1], es[b as int]))
                        && forall|k: int| 0 <= k < j && k != b && (n == 0 || ranks_above(rs[n - 1], #[trigger] es[k]))
                            ==> ranks_above(es[b as int], es[k]),
                    best is None ==> forall|k: int| 0 <= k < j ==> !(n == 0 || ranks_above(rs[n - 1], #[trigger] es[k])),
                decreases es.len() - j,
            {
                let cand = &self.reputation[j];
                assert(es[j as int] == (cand.0@, cand.1));
                let eligible = if n == 0 {
                    true
                } else {
                    let last = &r[n - 1];
                    assert(rs[n - 1] == (last.0@, last.1));
                    last.1.total_earned > cand.1.total_earned
                        || (last.1.total_earned == cand.1.total_earned && last.0.compare(&cand.0) < 0)
                };
                assert(eligible == (n == 0 || ranks_above(rs[n - 1], es[j as int])));
                if eligible {
                    let better = match best {
                        None => true,
                        Some(b) => {
                            let cur = &self.reputation[b];
                            assert(es[b as int] == (cur.0@, cur.1));
                            cand.1.total_earned > cur.1.total_earned
                                || (cand.1.total_earned == cur.1.total_earned && cand.0.compare(&cur.0) < 0)
                        },
                    };
                    assert(best matches Some(b) ==> better == ranks_above(es[j as int], es[b as int]));
                    if better {
                        proof {
                            if best is Some {
                                let b = best.unwrap();
                                assert forall|k: int| 0 <= k < j + 1 && k != j && (n == 0 || ranks_above(rs[n - 1], #[trigger] es[k]))
                                    implies ranks_above(es[j as int], es[k]) by {
                                    lemma_ranks_above_order(es[j as int], es[b as int], es[k]);
                                }
                            }
                        }
                        best = Some(j);
                    } else {
                        proof {
                            let b = best.unwrap();
                            lemma_ranks_above_order(es[b as int], es[j as int], es[j as int]);
                            assert(es[j as int].0 != es[b as int].0);
                        }
                    }
                }
                j = j + 1;
            }
            proof {
                assert(rs.no_duplicates()) by {
                    assert forall|a: int, b: int| 0 <= a < rs.len() && 0 <= b < rs.len() && a != b implies rs[a] != rs[b] by {
                        if a < b {
                            assert(ranks_above(rs[a], rs[b]));
                        } else {
                            assert(ranks_above(rs[b], rs[a]));
                        }
                        lemma_ranks_above_order(rs[a], rs[b], rs[a]);
                    }
                }
                assert(es.no_duplicates()) by {
                    assert forall|a: int, b: int| 0 <= a < es.len() && 0 <= b < es.len() && a != b implies es[a] != es[b] by {
                        assert(es[a].0 != es[b].0);
                    }
                }
                lemma_exists_missing(es, rs);
                let e = choose|e: (Seq<u8>, Reputation)| #[trigger] es.contains(e) && !rs.contains(e);
                let k = choose|k: int| 0 <= k < es.len() && es[k] == e;
                if n > 0 {
                    assert(ranks_above(rs[n - 1], e));
                }
                assert(best is Some);
            }
            let b = best.unwrap();
            let entry = (self.reputation[b].0.duplicate(), self.reputation[b].1);
            assert((entry.0@, entry.1) == es[b as int]);
            r.push(entry);
            proof {
                let rs2 = rep_entries(r@);
                assert(rs2 =~= rs.push(es[b as int]));
                assert forall|i: int, k: int| 0 <= i < k < rs2.len() implies ranks_above(#[trigger] rs2[i], #[trigger] rs2[k]) by {
                    if k == n as int && i < n as int {
                        if i < n - 1 {
                            assert(ranks_above(rs[i], rs[n - 1]));
                            lemma_ranks_above_order(rs[i], rs[n - 1], es[b as int]);
                        }
                    }
                }
                assert forall|e: (Seq<u8>, Reputation)| #[trigger] es.contains(e) && !rs2.contains(e)
                    implies forall|i: int| 0 <= i < rs2.len() ==> ranks_above(#[trigger] rs2[i], e) by {
                    assert(!rs.contains(e)) by {
                        if rs.contains(e) {
                            let q = choose|q: int| 0 <= q < rs.len() && rs[q] == e;
                            assert(rs2[q] == e);
                        }
                    }
                    assert(e != es[b as int]) by {
                        assert(rs2[n as int] == es[b as int]);
                    }
                    let k = choose|k: int| 0 <= k < es.len() && es[k] == e;
                    assert(k != b);
                    if n > 0 {
                        assert(ranks_above(rs[n - 1], e));
                    }
                    assert(ranks_above(es[b as int], es[k]));
                    assert forall|i: int| 0 <= i < rs2.len() implies ranks_above(#[trigger] rs2[i], e) by {
                        if i < n {
                            assert(rs2[i] == rs[i]);
                        }
                    }
                }
                assert forall|i: int| 0 <= i < rs2.len() implies es.contains(#[trigger] rs2[i]) by {
                    if i < n {
                        assert(rs2[i] == rs[i]);
                    } else {
                        assert(es[b as int] == rs2[i]);
                    }
                }
            }
        }
        r
    }

    /// Adds a failure to `agent`'s record.
    fn add_failure(&mut self, agent: &PublicKey)
        requires
            old(self)@.wf(),
            old(self)@.reputation_of(agent@).failed < u64::MAX,
        ensures
            final(self)@.wf(),
            final(self)@.reputation_map() == with_failure(old(self)@.reputation_map(), agent@),
            final(self)@.tasks == old(self)@.tasks,
            final(self)@.faucet_grants == old(self)@.faucet_grants,
    {
        let mut rep = self.reputation(agent);
        rep.failed = rep.failed + 1;
        upsert(&mut self.reputation, agent.duplicate(), rep);
    }

    /// Credits `agent` with a completed task that paid `amount`.
    fn credit_payout(&mut self, agent: &PublicKey, amount: u64)
        requires
            old(self)@.wf(),
            old(self)@.reputation_of(agent@).completed < u64::MAX,
            old(self)@.reputation_of(agent@).total_earned + amount <= u64::MAX,
        ensures
            final(self)@.wf(),
            final(self)@.reputation_map() == with_payout(old(self)@.reputation_map(), agent@, amount),
            final(self)@.tasks == old(self)@.tasks,
            final(self)@.faucet_grants == old(self)@.faucet_grants,
    {
        let mut rep = self.reputation(agent);
        rep.completed = rep.completed + 1;
        rep.total_earned = rep.total_earned + amount;
        upsert(&mut self.reputation, agent.duplicate(), rep);
    }

    /// Claims the `HashMatch` task `id` for `claimant` until `deadline`.
    pub fn claim_task(&mut self, id: u128, claimant: PublicKey, deadline: Timestamp) -> (r: Result<(), BoardError>)
        requires
            old(self)@.wf(),
        ensures
            final(self)@.wf(),
            r == outcome(old(self)@.claim_error(id, claimant@)),
            r is Err ==> final(self)@ == old(self)@,
            r is Ok ==> final(self)@ == old(self)@.with_task_at(old(self)@.task_index(id),
                claimed(old(self)@.task(id), claimant@, deadline)),
    {
        let i = match self.find_task(id) {
            Ok(i) => i,
            Err(_) => return Err(BoardError::NotFound),
        };
        let task = &self.tasks[i];
        assert(task@ == self@.task(id));
        if !matches!(task.kind, TaskKind::HashMatch { .. }) {
            return Err(BoardError::WrongTaskKind);
        }
        if task.status != TaskStatus::Open {
            return Err(BoardError::NotOpen);
        }
        let have = self.reputation(&claimant).completed;
        if have < task.min_reputation {
            return Err(BoardError::InsufficientReputation { required: task.min_reputation, have });
        }
        let ghost old_tasks = self.tasks@;
        let task = &mut self.tasks[i];
        task.status = TaskStatus::Claimed;
        task.claimant = Some(claimant);
        task.claim_deadline = Some(deadline);
        proof {
            assert(self.tasks@ == old_tasks.update(i as int, self.tasks@[i as int]));
            assert(self@.tasks =~= old(self)@.tasks.update(i as int, claimed(old(self)@.task(id), claimant@, deadline)));
        }
        Ok(())
    }

    /// Joins `agent` to the open `Consensus` task `id` at `now`; the join
    /// that fills the task moves it to `Claimed` and starts its submission
    /// window.
    pub fn join_consensus_task_at(&mut self, id: u128, agent: PublicKey, now: Timestamp) -> (r: Result<(), BoardError>)
        requires
            old(self)@.wf(),
            !old(self)@.join_overflows(id, agent@, now),
        ensures
            final(self)@.wf(),
            r == outcome(old(self)@.join_error(id, agent@, now)),
            r is Err ==> final(self)@ == old(self)@,
            r is Ok ==> final(self)@ == old(self)@.with_task_at(old(self)@.task_index(id),
                joined(old(self)@.task(id), agent@, now)),
    {
        let i = match self.find_task(id) {
            Ok(i) => i,
            Err(_) => return Err(BoardError::NotFound),
        };
        let task = &self.tasks[i];
        assert(task@ == self@.task(id));
        assert(task_wf(self@.tasks[i as int]));
        let (num, join_deadline, window, old_deadline, assignees) = match &task.kind {
            TaskKind::Consensus { num_assignees, join_deadline, submission_window_minutes, submission_deadline, assignees } =>
                (*num_assignees, *join_deadline, *submission_window_minutes, *submission_deadline, assignees),
            TaskKind::HashMatch { .. } => return Err(BoardError::WrongTaskKind),
        };
        if task.status != TaskStatus::Open {
            return Err(BoardError::NotOpen);
        }
        if now.is_after(&join_deadline) {
            return Err(BoardError::JoinWindowExpired);
        }
        let have = self.reputation(&agent).completed;
        if have < task.min_reputation {
            return Err(BoardError::InsufficientReputation { required: task.min_reputation, have });
        }
        let ghost v = assignees_view(assignees@);
        proof { lemma_assignee_keys(assignees@); }
        let p = match find_key(assignees, &agent) {
            Ok(j) => {
                assert(v[j as int].0 == agent@);
                return Err(BoardError::AlreadyJoined);
            },
            Err(p) => p,
        };
        proof {
            if has_entry(v, agent@) {
                let j = entry_index(v, agent@);
                assert(assignees@[j].0@ == agent@);
            }
            assert(is_insert_pos(v, agent@, p as int));
            lemma_insert_pos(v, agent@, p as int);
        }
        let mut new_assignees = copy_assignees(assignees);
        let ghost before = new_assignees@;
        let ghost agent_view = agent@;
        let entry = (agent, ConsensusAssignment::fresh());
        proof {
            assert forall|j: int| 0 <= j < new_assignees@.len() implies (#[trigger] new_assignees@[j]).0@ == assignees@[j].0@ by {
                assert(key_seq(new_assignees@)[j] == key_seq(assignees@)[j]);
            }
            crate::keymap::lemma_insert_sorted(new_assignees@, p as int, entry);
        }
        new_assignees.insert(p, entry);
        proof {
            assert(new_assignees@ == before.insert(p as int, new_assignees@[p as int]));
            assert(assignees_view(new_assignees@) =~= v.insert(p as int, (agent_view, fresh_assignment())));
            lemma_assignee_keys(new_assignees@);
        }
        let fills = (#[verifier::truncate] (new_assignees.len() as u32)) >= num;
        let deadline = if fills { Some(now.plus_minutes(window)) } else { old_deadline };
        let ghost old_tasks = self.tasks@;
        let task = &mut self.tasks[i];
        task.kind = TaskKind::Consensus {
            num_assignees: num,
            join_deadline,
            submission_window_minutes: window,
            submission_deadline: deadline,
            assignees: new_assignees,
        };
        if fills {
            task.status = TaskStatus::Claimed;
        }
        proof {
            assert(self.tasks@ == old_tasks.update(i as int, self.tasks@[i as int]));
            assert(self@.tasks =~= old(self)@.tasks.update(i as int, joined(old(self)@.task(id), agent_view, now)));
        }
        Ok(())
    }

    /// Whether a successful join of `agent` to `id` at `now` would fill the
    /// task with a submission deadline past the representable instants.
    pub(crate) fn join_overflows(&self, id: u128, agent: &PublicKey, now: Timestamp) -> (b: bool)
        requires
            self@.wf(),
            -100_000_000_000_000_000_000_000_000_000 < now.nanos < 100_000_000_000_000_000_000_000_000_000,
        ensures
            b == self@.join_overflows(id, agent@, now),
    {
        let i = match self.find_task(id) {
            Ok(i) => i,
            Err(_) => return false,
        };
        let task = &self.tasks[i];
        assert(task@ == self@.task(id));
        assert(task_wf(self@.tasks[i as int]));
        let (num, join_deadline, window, assignees) = match &task.kind {
            TaskKind::Consensus { num_assignees, join_deadline, submission_window_minutes, assignees, .. } =>
                (*num_assignees, *join_deadline, *submission_window_minutes, assignees),
            TaskKind::HashMatch { .. } => return false,
        };
        if task.status != TaskStatus::Open || now.is_after(&join_deadline) {
            return false;
        }
        if self.reputation(agent).completed < task.min_reputation {
            return false;
        }
        let ghost v = assignees_view(assignees@);
        proof { lemma_assignee_keys(assignees@); }
        let p = match find_key(assignees, agent) {
            Ok(j) => {
                assert(v[j as int].0 == agent@);
                return false;
            },
            Err(p) => p,
        };
        proof {
            if has_entry(v, agent@) {
                let j = entry_index(v, agent@);
                assert(assignees@[j].0@ == agent@);
            }
            assert(is_insert_pos(v, agent@, p as int));
            lemma_insert_pos(v, agent@, p as int);
        }
        assert(with_joined(v, agent@).len() == v.len() + 1);
        let fills = (#[verifier::truncate] (((assignees.len() as u128) + 1) as u32)) >= num;
        if !fills {
            return false;
        }
        let deadline = now.nanos + (window as i128) * NANOS_PER_MINUTE;
        !(crate::time::MIN_UTC_NANOS <= deadline && deadline <= crate::time::MAX_UTC_NANOS)
    }

    /// Joins `agent` to the open `Consensus` task `id` now, as
    /// `join_consensus_task_at` does at the current time; where filling
    /// the task now would put its submission deadline past the
    /// representable instants, nothing changes and `DeadlineOutOfRange`
    /// is returned.
    pub fn join_consensus_task(&mut self, id: u128, agent: PublicKey) -> (r: Result<(), BoardError>)
        requires
            old(self)@.wf(),
        ensures
            final(self)@.wf(),
            r is Err ==> final(self)@ == old(self)@,
            r == Err::<(), BoardError>(BoardError::DeadlineOutOfRange) ==>
                exists|now: Timestamp| #[trigger] old(self)@.join_overflows(id, agent@, now),
            r != Err::<(), BoardError>(BoardError::DeadlineOutOfRange) ==>
                exists|now: Timestamp| !#[trigger] old(self)@.join_overflows(id, agent@, now)
                    && r == outcome(old(self)@.join_error(id, agent@, now))
                    && (r is Ok ==> final(self)@ == old(self)@.with_task_at(old(self)@.task_index(id),
                        joined(old(self)@.task(id), agent@, now))),
    {
        let now = Timestamp::now();
        if self.join_overflows(id, &agent, now) {
            return Err(BoardError::DeadlineOutOfRange);
        }
        let r = self.join_consensus_task_at(id, agent, now);
        proof {
            if old(self)@.join_error(id, agent@, now) == Some(BoardError::DeadlineOutOfRange) {
                assert(false);
            }
        }
        r
    }

    /// Checks `output_hash` against the `HashMatch` task `id` claimed by
    /// `submitter`: on a match the task becomes `Verified` and `Ok(true)`
    /// is returned; otherwise it reopens with one more failed attempt, the
    /// submitter's record takes a failure, and `Ok(false)` is returned.
    pub fn submit(&mut self, id: u128, submitter: PublicKey, output_hash: crate::hash::Hash) -> (r: Result<bool, BoardError>)
        requires
            old(self)@.wf(),
            old(self)@.submit_error(id, submitter@) is None
                && expected_hash_of(old(self)@.task(id)) != output_hash@
                ==> old(self)@.task(id).failed_attempts < u32::MAX
                    && old(self)@.reputation_of(submitter@).failed < u64::MAX,
        ensures
            final(self)@.wf(),
            r is Err <==> old(self)@.submit_error(id, submitter@) is Some,
            r matches Err(e) ==> old(self)@.submit_error(id, submitter@) == Some(e) && final(self)@ == old(self)@,
            r matches Ok(matched) ==> matched == (expected_hash_of(old(self)@.task(id)) == output_hash@),
            r matches Ok(true) ==> final(self)@ == old(self)@.with_task_at(old(self)@.task_index(id),
                TaskView { status: TaskStatus::Verified, ..old(self)@.task(id) }),
            r matches Ok(false) ==> final(self)@.tasks == old(self)@.tasks.update(old(self)@.task_index(id),
                reopened_after_failure(old(self)@.task(id)))
                && final(self)@.reputation_map() == with_failure(old(self)@.reputation_map(), submitter@)
                && final(self)@.faucet_grants == old(self)@.faucet_grants,
    {
        let i = match self.find_task(id) {
            Ok(i) => i,
            Err(_) => return Err(BoardError::NotFound),
        };
        let task = &self.tasks[i];
        assert(task@ == self@.task(id));
        let expected = match &task.kind {
            TaskKind::HashMatch { expected_output_hash } => *expected_output_hash,
            TaskKind::Consensus { .. } => return Err(BoardError::WrongTaskKind),
        };
        if task.status != TaskStatus::Claimed {
            return Err(BoardError::NotClaimed);
        }
        let is_claimant = match &task.claimant {
            Some(c) => c.same_as(&submitter),
            None => false,
        };
        if !is_claimant {
            return Err(BoardError::NotClaimant);
        }
        let ghost old_tasks = self.tasks@;
        if output_hash.equals(&expected) {
            let task = &mut self.tasks[i];
            task.status = TaskStatus::Verified;
            proof {
                assert(self.tasks@ == old_tasks.update(i as int, self.tasks@[i as int]));
                assert(self@.tasks =~= old(self)@.tasks.update(i as int, TaskView { status: TaskStatus::Verified, ..old(self)@.task(id) }));
            }
            Ok(true)
        } else {
            let task = &mut self.tasks[i];
            task.status = TaskStatus::Open;
            task.claimant = None;
            task.claim_deadline = None;
            task.failed_attempts = task.failed_attempts + 1;
            proof {
                assert(self.tasks@ == old_tasks.update(i as int, self.tasks@[i as int]));
                assert(self@.tasks =~= old(self)@.tasks.update(i as int, reopened_after_failure(old(self)@.task(id))));
            }
            self.add_failure(&submitter);
            Ok(false)
        }
    }

    /// Sets the completed-task count needed to claim or join `id`.
    pub fn set_min_reputation(&mut self, id: u128, min_reputation: u64) -> (r: Result<(), BoardError>)
        requires
            old(self)@.wf(),
        ensures
            final(self)@.wf(),
            r is Ok <==> old(self)@.has_task(id),
            r matches Err(e) ==> e == BoardError::NotFound && final(self)@ == old(self)@,
            r is Ok ==> final(self)@.tasks == old(self)@.tasks.update(old(self)@.task_index(id),
                TaskView { min_reputation, ..old(self)@.task(id) }),
            final(self)@.reputation == old(self)@.reputation,
            final(self)@.faucet_grants == old(self)@.faucet_grants,
    {
        match self.find_task(id) {
            Err(_) => Err(BoardError::NotFound),
            Ok(i) => {
                let ghost old_tasks = self.tasks@;
                let task = &mut self.tasks[i];
                task.min_reputation = min_reputation;
                proof {
                    assert(self.tasks@ == old_tasks.update(i as int, self.tasks@[i as int]));
                }
                assert(self@.tasks =~= old(self)@.tasks.update(i as int, TaskView { min_reputation, ..old(self)@.task(id) }));
                Ok(())
            },
        }
    }

    /// Restores a reputation record read back from storage.
    pub fn restore_reputation(&mut self, pubkey: PublicKey, reputation: Reputation)
        requires
            old(self)@.wf(),
        ensures
            final(self)@.wf(),
            final(self)@.reputation_map() == old(self)@.reputation_map().insert(pubkey@, reputation),
            final(self)@.tasks == old(self)@.tasks,
            final(self)@.faucet_grants == old(self)@.faucet_grants,
    {
        upsert(&mut self.reputation, pubkey, reputation);
    }
}

/// Removing an entry from a sorted list removes its key from the map.
pub proof fn lemma_remove_sorted<V: View>(s: Seq<(PublicKey, V)>, i: int)
    requires
        keys_sorted(key_seq(s)),
        0 <= i < s.len(),
    ensures
        keys_sorted(key_seq(s.remove(i))),
        map_view(s.remove(i)) == map_view(s).remove(s[i].0@),
{
    let t = s.remove(i);
    assert forall|a: int, b: int| 0 <= a < b < key_seq(t).len() implies bytes_lt(#[trigger] key_seq(t)[a], #[trigger] key_seq(t)[b]) by {
        let a2 = if a < i { a } else { a + 1 };
        let b2 = if b < i { b } else { b + 1 };
        assert(bytes_lt(key_seq(s)[a2], key_seq(s)[b2]));
    }
    assert(map_view(t) =~= map_view(s).remove(s[i].0@)) by {
        assert forall|k: Seq<u8>| map_view(t).contains_key(k) <==> map_view(s).remove(s[i].0@).contains_key(k) by {
            if has_key(t, k) {
                let j = key_index(t, k);
                let j2 = if j < i { j } else { j + 1 };
                assert(s[j2].0@ == k);
                if k == s[i].0@ {
                    crate::keymap::lemma_sorted_unique(s, i, j2);
                }
            }
            if has_key(s, k) && k != s[i].0@ {
                let j = key_index(s, k);
                if j < i {
                    assert(t[j].0@ == k);
                } else {
                    assert(t[j - 1].0@ == k);
                }
            }
        }
        assert forall|k: Seq<u8>| #[trigger] map_view(t).contains_key(k) implies map_view(t)[k] == map_view(s).remove(s[i].0@)[k] by {
            let j = key_index(t, k);
            lemma_map_view_at(t, j);
            let j2 = if j < i { j } else { j + 1 };
            lemma_map_view_at(s, j2);
        }
    }
}


/// What a task adds to `allocated`: its bounty unless it is paid or closed.
pub open spec fn allocation_of(t: TaskView) -> nat {
    if t.status == TaskStatus::Paid || t.status == TaskStatus::Closed { 0 } else { t.bounty as nat }
}

/// Replacing one task changes the allocated bounty by the difference of
/// the two tasks' allocations; so a task that becomes `Paid` or `Closed`
/// frees exactly its bounty.
pub proof fn lemma_allocated_update(ts: Seq<TaskView>, i: int, t: TaskView)
    requires
        0 <= i < ts.len(),
    ensures
        allocated(ts.update(i, t)) + allocation_of(ts[i]) == allocated(ts) + allocation_of(t),
    decreases ts.len(),
{
    if i == ts.len() - 1 {
        assert(ts.update(i, t).drop_last() =~= ts.drop_last());
    } else {
        assert(ts.update(i, t).drop_last() =~= ts.drop_last().update(i, t));
        lemma_allocated_update(ts.drop_last(), i, t);
    }
}

/// Recording a payout never changes any assignee's share, and leaves the
/// recipient recorded as paid.
pub proof fn lemma_payout_keeps_shares(t: TaskView, recipient: Seq<u8>)
    requires
        task_wf(t),
        t.kind matches KindView::Consensus { assignees, .. } && has_entry(assignees, recipient),
    ensures
        with_paid(t, recipient).kind matches KindView::Consensus { assignees: paid, .. }
            && (t.kind matches KindView::Consensus { assignees, .. }
                && paid.len() == assignees.len()
                && forall|i: int| 0 <= i < assignees.len() ==> (#[trigger] paid[i]).1.share == assignees[i].1.share
                    && paid[i].0 == assignees[i].0),
        is_recipient_paid_of(with_paid(t, recipient), recipient),
{
    if let KindView::Consensus { assignees, .. } = t.kind {
        let j = entry_index(assignees, recipient);
        let paid = assignees.update(j, (recipient, AssignmentView { paid: true, ..assignees[j].1 }));
        assert(entry_keys(paid) =~= entry_keys(assignees));
        lemma_entry_index(paid, j);
    }
}

/// A resolution pays out no more than the bounty: the winners' shares
/// add up to at most the bounty.
pub proof fn lemma_shares_within_bounty(bounty: u64, s: Seq<(Seq<u8>, AssignmentView)>, w: Seq<char>)
    ensures
        winner_share(bounty, s, w) * answer_count(s, w) <= bounty,
{
    let c = answer_count(s, w);
    if c > 0 {
        assert((bounty as nat / c) * c <= bounty) by (nonlinear_arith)
            requires c > 0;
    }
}

/// Every winner of a resolution gets the same share, and nobody else
/// gets one.
pub proof fn lemma_equal_shares(t: TaskView, w: Seq<char>)
    requires
        t.kind matches KindView::Consensus { assignees, .. } && majority_of(assignees) == Some(w)
            && forall|i: int| 0 <= i < assignees.len() ==> (#[trigger] assignees[i]).1.share is None,
    ensures
        resolved(t).kind matches KindView::Consensus { assignees: after, .. }
            && (t.kind matches KindView::Consensus { assignees, .. }
                && forall|i: int| 0 <= i < after.len() ==>
                    ((#[trigger] after[i]).1.share == if assignees[i].1.answer == Some(w) {
                        Some(winner_share(t.bounty, assignees, w))
                    } else {
                        None::<u64>
                    })),
        resolved(t).status == TaskStatus::Verified,
{
}

/// A tied vote closes the task with nobody charged a failure and nothing
/// owed.
pub proof fn lemma_tie_charges_nobody(t: TaskView)
    requires
        t.kind matches KindView::Consensus { assignees, .. } && majority_of(assignees) is None,
    ensures
        resolution_losers(t) == Set::<Seq<u8>>::empty(),
        resolved(t).status == TaskStatus::Closed,
        resolved(t).close_reason == Some(CloseReason::NoMajority),
        pending_payouts_of(resolved(t)) == Seq::<(Seq<u8>, u64)>::empty(),
{
}

/// A key that holds a faucet grant is refused another: once recorded, a
/// grant stays until revoked.
pub proof fn lemma_faucet_once(grants: Set<Seq<u8>>, k: Seq<u8>)
    ensures
        grants.insert(k).contains(k),
        grants.insert(k).remove(k) == grants.remove(k),
{
    assert(grants.insert(k).remove(k) =~= grants.remove(k));
}

/// Recording a payout of `amount` to `k` adds one completed task and
/// `amount` to what `k` has earned, and leaves every other record alone:
/// whatever board `after` holds that credited map, `k`'s earnings are the
/// sum of what it had and the new payout.
pub proof fn lemma_payout_accumulates(before: BoardView, after: BoardView, k: Seq<u8>, amount: u64)
    requires
        after.reputation_map() == with_payout(before.reputation_map(), k, amount),
        before.reputation_of(k).completed < u64::MAX,
        before.reputation_of(k).total_earned + amount <= u64::MAX,
    ensures
        after.reputation_of(k).total_earned == before.reputation_of(k).total_earned + amount,
        after.reputation_of(k).completed == before.reputation_of(k).completed + 1,
        after.reputation_of(k).failed == before.reputation_of(k).failed,
        forall|j: Seq<u8>| j != k ==> #[trigger] after.reputation_of(j) == before.reputation_of(j),
{
}

/// Two payouts to `k` in a row add both amounts to its earnings.
pub proof fn lemma_two_payouts_add(b0: BoardView, b1: BoardView, b2: BoardView, k: Seq<u8>, a1: u64, a2: u64)
    requires
        b1.reputation_map() == with_payout(b0.reputation_map(), k, a1),
        b2.reputation_map() == with_payout(b1.reputation_map(), k, a2),
        b0.reputation_of(k).completed + 2 <= u64::MAX,
        b0.reputation_of(k).total_earned + a1 + a2 <= u64::MAX,
    ensures
        b2.reputation_of(k).total_earned == b0.reputation_of(k).total_earned + a1 + a2,
        b2.reputation_of(k).completed == b0.reputation_of(k).completed + 2,
{
    lemma_payout_accumulates(b0, b1, k, a1);
    lemma_payout_accumulates(b1, b2, k, a2);
}

/// A submission whose hash misses leaves the task (found again by its
/// id) open and unclaimed with one more failed attempt, and charges the
/// submitter one failure: whatever board `after` holds that result.
pub proof fn lemma_failed_submission_counts(before: BoardView, after: BoardView, id: u128, submitter: Seq<u8>)
    requires
        before.wf(),
        before.has_task(id),
        before.task(id).failed_attempts < u32::MAX,
        before.reputation_of(submitter).failed < u64::MAX,
        after.tasks == before.tasks.update(before.task_index(id), reopened_after_failure(before.task(id))),
        after.reputation_map() == with_failure(before.reputation_map(), submitter),
    ensures
        after.has_task(id),
        after.task(id).failed_attempts == before.task(id).failed_attempts + 1,
        after.task(id).status == TaskStatus::Open,
        after.task(id).claimant is None,
        after.task(id).bounty == before.task(id).bounty,
        after.reputation_of(submitter).failed == before.reputation_of(submitter).failed + 1,
        after.reputation_of(submitter).completed == before.reputation_of(submitter).completed,
{
    let i = before.task_index(id);
    let ts = after.tasks;
    assert(ts[i].id == id);
    assert(ids_sorted(ts)) by {
        assert forall|p: int, q: int| 0 <= p < q < ts.len() implies (#[trigger] ts[p]).id < (#[trigger] ts[q]).id by {
            assert(before.tasks[p].id == ts[p].id);
            assert(before.tasks[q].id == ts[q].id);
        }
    }
    lemma_task_index(ts, i);
}

} // verus!
