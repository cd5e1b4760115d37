//! The hub's request authentication rules that live on the server: how
//! far a signed request's timestamp may stray from the clock, the guard
//! against replaying a signature, and the guard that keeps one payout
//! from being made twice at once.
use vstd::prelude::*;
use crate::time::{Timestamp, NANOS_PER_SECOND};

verus! {

/// How far, in seconds, a signed request's timestamp may lie from the
/// hub's clock, either way.
pub const MAX_REQUEST_DRIFT_SECONDS: i64 = 120;

/// Why a signed request was not accepted.
#[derive(Clone, Debug, PartialEq, Eq)]
pub enum AuthError {
    /// The request's timestamp is too far from the hub's clock.
    ClockDrift,
    /// The signature was already used.
    Replayed,
    /// The signature does not verify.
    BadSignature,
    /// The public key could not be read; the text says why.
    BadPublicKey(String),
    /// The signature could not be read; the text says why.
    BadSignatureEncoding(String),
}

/// Whether a request stamped `stamped` is fresh at `now`.
pub open spec fn within_drift(stamped: Timestamp, now: Timestamp) -> bool {
    -MAX_REQUEST_DRIFT_SECONDS * NANOS_PER_SECOND <= now.nanos - stamped.nanos <= MAX_REQUEST_DRIFT_SECONDS * NANOS_PER_SECOND
}

/// Refuses a request whose timestamp lies more than
/// `MAX_REQUEST_DRIFT_SECONDS` from `now`.
pub fn check_drift(stamped: Timestamp, now: Timestamp) -> (r: Result<(), AuthError>)
    requires
        crate::time::in_utc_range(stamped.nanos as int),
        crate::time::in_utc_range(now.nanos as int),
    ensures
        within_drift(stamped, now) ==> r is Ok,
        !within_drift(stamped, now) ==> r == Err::<(), AuthError>(AuthError::ClockDrift),
{
    let d = now.nanos - stamped.nanos;
    let bound = MAX_REQUEST_DRIFT_SECONDS as i128 * NANOS_PER_SECOND;
    if d < -bound || d > bound {
        Err(AuthError::ClockDrift)
    } else {
        Ok(())
    }
}

/// The instant signature `sig` was first seen (the last entry for it).
pub open spec fn seen_at(s: Seq<(Seq<u8>, Timestamp)>, sig: Seq<u8>) -> Option<Timestamp>
    decreases s.len(),
{
    if s.len() == 0 {
        None
    } else if s.last().0 == sig {
        Some(s.last().1)
    } else {
        seen_at(s.drop_last(), sig)
    }
}

/// A signature has no entry exactly when no entry names it.
proof fn lemma_seen_absent(s: Seq<(Seq<u8>, Timestamp)>, sig: Seq<u8>)
    ensures
        seen_at(s, sig) is None <==> forall|k: int| 0 <= k < s.len() ==> (#[trigger] s[k]).0 != sig,
    decreases s.len(),
{
    if s.len() > 0 {
        lemma_seen_absent(s.drop_last(), sig);
        if seen_at(s, sig) is None {
            assert forall|k: int| 0 <= k < s.len() implies (#[trigger] s[k]).0 != sig by {
                if k < s.len() - 1 {
                    assert(s.drop_last()[k] == s[k]);
                }
            }
        } else if s.last().0 != sig {
            let k = choose|k: int| 0 <= k < s.drop_last().len() && (#[trigger] s.drop_last()[k]).0 == sig;
            assert(s[k] == s.drop_last()[k]);
        }
    }
}

/// No signature is listed twice.
pub open spec fn distinct_sigs(s: Seq<(Seq<u8>, Timestamp)>) -> bool {
    forall|i: int, j: int| 0 <= i < j < s.len() ==> (#[trigger] s[i]).0 != (#[trigger] s[j]).0
}

/// The signatures already used, each with when it was first seen.
pub struct ReplayGuard {
    seen: Vec<(Vec<u8>, Timestamp)>,
}

/// The entries of a guard read through their views.
pub open spec fn seen_view(s: Seq<(Vec<u8>, Timestamp)>) -> Seq<(Seq<u8>, Timestamp)> {
    s.map_values(|e: (Vec<u8>, Timestamp)| (e.0@, e.1))
}

impl ReplayGuard {
    /// Each signature is listed once.
    #[verifier::type_invariant]
    spec fn listed_once(&self) -> bool {
        distinct_sigs(seen_view(self.seen@))
    }

    /// When `sig` was first seen, if it was.
    pub closed spec fn seen(&self, sig: Seq<u8>) -> Option<Timestamp> {
        seen_at(seen_view(self.seen@), sig)
    }

    /// A guard that has seen nothing.
    pub fn new() -> (g: ReplayGuard)
        ensures
            forall|sig: Seq<u8>| #[trigger] g.seen(sig) is None,
    {
        let g = ReplayGuard { seen: Vec::new() };
        assert forall|sig: Seq<u8>| #[trigger] g.seen(sig) is None by {
            assert(seen_view(g.seen@).len() == 0);
        }
        g
    }

    /// Records `sig` as used at `now`; a signature already used is
    /// refused with `Replayed` and changes nothing.
    pub fn record(&mut self, sig: &Vec<u8>, now: Timestamp) -> (r: Result<(), AuthError>)
        ensures
            old(self).seen(sig@) is Some ==> r == Err::<(), AuthError>(AuthError::Replayed)
                && forall|s: Seq<u8>| #[trigger] final(self).seen(s) == old(self).seen(s),
            old(self).seen(sig@) is None ==> r is Ok && final(self).seen(sig@) == Some(now)
                && forall|s: Seq<u8>| s != sig@ ==> #[trigger] final(self).seen(s) == old(self).seen(s),
    {
        let ghost sv = seen_view(self.seen@);
        let mut i = self.seen.len();
        assert(sv.take(i as int) =~= sv);
        while i > 0
            invariant
                i <= self.seen@.len(),
                sv == seen_view(self.seen@),
                seen_at(sv, sig@) == seen_at(sv.take(i as int), sig@),
            decreases i,
        {
            assert(sv.take(i as int).drop_last() =~= sv.take(i - 1));
            if bytes_equal(&self.seen[i - 1].0, sig) {
                return Err(AuthError::Replayed);
            }
            i = i - 1;
        }
        assert(sv.take(0) =~= Seq::<(Seq<u8>, Timestamp)>::empty());
        proof {
            use_type_invariant(&*self);
            lemma_seen_absent(sv, sig@);
        }
        let entry = (sig.clone(), now);
        let mut seen: Vec<(Vec<u8>, Timestamp)> = Vec::new();
        std::mem::swap(&mut seen, &mut self.seen);
        seen.push(entry);
        proof {
            assert(seen_view(seen@) =~= sv.push((sig@, now)));
            assert(seen_view(seen@).drop_last() =~= sv);
            assert forall|a: int, b: int| 0 <= a < b < seen_view(seen@).len()
                implies (#[trigger] seen_view(seen@)[a]).0 != (#[trigger] seen_view(seen@)[b]).0 by {
                if b == sv.len() {
                    assert(sv[a] == seen_view(seen@)[a]);
                } else {
                    assert(sv[a] == seen_view(seen@)[a] && sv[b] == seen_view(seen@)[b]);
                }
            }
        }
        self.seen = seen;
        Ok(())
    }

    /// Forgets the signatures first seen at or before `cutoff`: a request
    /// that old already fails the drift check on its own.
    pub fn cleanup_at(&mut self, cutoff: Timestamp)
        ensures
            forall|s: Seq<u8>| #[trigger] final(self).seen(s) == (match old(self).seen(s) {
                Some(t) => if t.nanos > cutoff.nanos { Some(t) } else { None },
                None => None,
            }),
    {
        proof { use_type_invariant(&*self); }
        let ghost sv = seen_view(self.seen@);
        let mut kept: Vec<(Vec<u8>, Timestamp)> = Vec::new();
        let mut i: usize = 0;
        while i < self.seen.len()
            invariant
                i <= self.seen@.len(),
                sv == seen_view(self.seen@),
                distinct_sigs(sv),
                distinct_sigs(seen_view(kept@)),
                forall|s: Seq<u8>| #[trigger] seen_at(seen_view(kept@), s) == (match seen_at(sv.take(i as int), s) {
                    Some(t) => if t.nanos > cutoff.nanos { Some(t) } else { None },
                    None => None,
                }),
            decreases self.seen.len() - i,
        {
            assert(sv.take(i + 1).drop_last() =~= sv.take(i as int));
            assert(sv.take(i + 1).last() == sv[i as int]);
            let ghost prev = seen_view(kept@);
            let e = &self.seen[i];
            proof {
                assert forall|k: int| 0 <= k < sv.take(i as int).len() implies (#[trigger] sv.take(i as int)[k]).0 != e.0@ by {
                    assert(sv[k].0 != sv[i as int].0);
                }
                lemma_seen_absent(sv.take(i as int), e.0@);
                lemma_seen_absent(prev, e.0@);
            }
            if e.1.nanos > cutoff.nanos {
                let entry = (e.0.clone(), e.1);
                kept.push(entry);
                assert(seen_view(kept@).drop_last() =~= prev);
                assert forall|a: int, b: int| 0 <= a < b < seen_view(kept@).len()
                    implies (#[trigger] seen_view(kept@)[a]).0 != (#[trigger] seen_view(kept@)[b]).0 by {
                    if b == seen_view(kept@).len() - 1 {
                        assert(prev[a] == seen_view(kept@)[a]);
                    } else {
                        assert(prev[a] == seen_view(kept@)[a] && prev[b] == seen_view(kept@)[b]);
                    }
                }
            }
            assert forall|s: Seq<u8>| #[trigger] seen_at(seen_view(kept@), s) == (match seen_at(sv.take(i + 1), s) {
                Some(t) => if t.nanos > cutoff.nanos { Some(t) } else { None },
                None => None,
            }) by {
                assert(seen_at(prev, s) == (match seen_at(sv.take(i as int), s) {
                    Some(t) => if t.nanos > cutoff.nanos { Some(t) } else { None },
                    None => None,
                }));
            }
            i = i + 1;
        }
        assert(sv.take(sv.len() as int) =~= sv);
        self.seen = kept;
    }
}

impl ReplayGuard {
    /// Forgets, as of the current time, the signatures old enough to
    /// fail the drift check anyway.
    pub fn cleanup(&mut self)
        ensures
            exists|now: Timestamp| #![trigger drift_cutoff(now)] forall|s: Seq<u8>| #[trigger] final(self).seen(s) == (match old(self).seen(s) {
                Some(t) => if t.nanos > drift_cutoff(now).nanos { Some(t) } else { None },
                None => None,
            }),
    {
        let now = Timestamp::now();
        let cutoff = Timestamp { nanos: now.nanos - MAX_REQUEST_DRIFT_SECONDS as i128 * NANOS_PER_SECOND };
        assert(cutoff == drift_cutoff(now));
        self.cleanup_at(cutoff);
    }
}

/// The cutoff of a replay-guard sweep at `now`: one drift bound earlier.
pub open spec fn drift_cutoff(now: Timestamp) -> Timestamp {
    Timestamp { nanos: (now.nanos - MAX_REQUEST_DRIFT_SECONDS * NANOS_PER_SECOND) as i128 }
}

/// What a refused signed request says.
pub open spec fn auth_error_text(e: AuthError) -> Seq<char> {
    match e {
        AuthError::ClockDrift => "request timestamp is too far from the server clock"@,
        AuthError::Replayed => "signature has already been used"@,
        AuthError::BadSignature => "signature does not verify"@,
        AuthError::BadPublicKey(m) => "bad public key: "@ + m@,
        AuthError::BadSignatureEncoding(m) => "bad signature encoding: "@ + m@,
    }
}

impl AuthError {
    /// The error's text.
    pub fn message(&self) -> (m: String)
        ensures
            m@ == auth_error_text(*self),
    {
        match self {
            AuthError::ClockDrift => "request timestamp is too far from the server clock".to_owned(),
            AuthError::Replayed => "signature has already been used".to_owned(),
            AuthError::BadSignature => "signature does not verify".to_owned(),
            AuthError::BadPublicKey(t) => {
                let mut m = "bad public key: ".to_owned();
                m.append(t.as_str());
                m
            },
            AuthError::BadSignatureEncoding(t) => {
                let mut m = "bad signature encoding: ".to_owned();
                m.append(t.as_str());
                m
            },
        }
    }
}

/// The (task, recipient key) pairs whose payout is under way.
pub struct PayoutLocks {
    held: Vec<(u128, Vec<u8>)>,
}

/// Whether `(task, recipient)` is among `s`.
pub open spec fn holds(s: Seq<(u128, Vec<u8>)>, task: u128, recipient: Seq<u8>) -> bool {
    exists|i: int| 0 <= i < s.len() && (#[trigger] s[i]).0 == task && s[i].1@ == recipient
}

impl PayoutLocks {
    /// Whether the payout of `recipient`'s share of `task` is under way.
    pub closed spec fn held(&self, task: u128, recipient: Seq<u8>) -> bool {
        holds(self.held@, task, recipient)
    }

    /// No payout under way.
    pub fn new() -> (l: PayoutLocks)
        ensures
            forall|t: u128, r: Seq<u8>| !#[trigger] l.held(t, r),
    {
        PayoutLocks { held: Vec::new() }
    }

    /// Takes the lock on paying `recipient`'s share of `task`: `false`
    /// (and nothing changes) where another payout of it is under way.
    pub fn try_acquire(&mut self, task: u128, recipient: &Vec<u8>) -> (acquired: bool)
        ensures
            acquired == !old(self).held(task, recipient@),
            final(self).held(task, recipient@),
            forall|t: u128, r: Seq<u8>| (t != task || r != recipient@) ==>
                (#[trigger] final(self).held(t, r) == old(self).held(t, r)),
    {
        let mut i: usize = 0;
        while i < self.held.len()
            invariant
                i <= self.held@.len(),
                forall|j: int| 0 <= j < i ==> !((#[trigger] self.held@[j]).0 == task && self.held@[j].1@ == recipient@),
            decreases self.held.len() - i,
        {
            if self.held[i].0 == task && bytes_equal(&self.held[i].1, recipient) {
                return false;
            }
            i = i + 1;
        }
        let ghost before = self.held@;
        self.held.push((task, recipient.clone()));
        assert(self.held@[before.len() as int].0 == task && self.held@[before.len() as int].1@ == recipient@);
        assert forall|t: u128, r: Seq<u8>| (t != task || r != recipient@) implies
            (#[trigger] holds(self.held@, t, r) == holds(before, t, r)) by {
            if holds(self.held@, t, r) {
                let j = choose|j: int| 0 <= j < self.held@.len() && (#[trigger] self.held@[j]).0 == t && self.held@[j].1@ == r;
                assert(before[j] == self.held@[j]);
            }
            if holds(before, t, r) {
                let j = choose|j: int| 0 <= j < before.len() && (#[trigger] before[j]).0 == t && before[j].1@ == r;
                assert(before[j] == self.held@[j]);
            }
        }
        true
    }

    /// Releases the lock on paying `recipient`'s share of `task`.
    pub fn release(&mut self, task: u128, recipient: &Vec<u8>)
        ensures
            !final(self).held(task, recipient@),
            forall|t: u128, r: Seq<u8>| (t != task || r != recipient@) ==>
                (#[trigger] final(self).held(t, r) == old(self).held(t, r)),
    {
        let ghost old_h = self.held@;
        let mut kept: Vec<(u128, Vec<u8>)> = Vec::new();
        let mut i: usize = 0;
        while i < self.held.len()
            invariant
                i <= old_h.len(),
                old_h == self.held@,
                !holds(kept@, task, recipient@),
                forall|t: u128, r: Seq<u8>| (t != task || r != recipient@) ==>
                    (#[trigger] holds(kept@, t, r) == holds(old_h.take(i as int), t, r)),
            decreases self.held.len() - i,
        {
            let ghost prev = kept@;
            let ghost pre = old_h.take(i as int);
            assert(old_h.take(i + 1) =~= pre.push(old_h[i as int]));
            let e = &self.held[i];
            let matches = e.0 == task && bytes_equal(&e.1, recipient);
            if !matches {
                kept.push((e.0, e.1.clone()));
            }
            proof {
                assert forall|t: u128, r: Seq<u8>| (t != task || r != recipient@) implies
                    (#[trigger] holds(kept@, t, r) == holds(old_h.take(i + 1), t, r)) by {
                    let post = old_h.take(i + 1);
                    if holds(kept@, t, r) {
                        let j = choose|j: int| 0 <= j < kept@.len() && (#[trigger] kept@[j]).0 == t && kept@[j].1@ == r;
                        if j < prev.len() {
                            assert(prev[j] == kept@[j]);
                            assert(holds(prev, t, r));
                            let q = choose|q: int| 0 <= q < pre.len() && (#[trigger] pre[q]).0 == t && pre[q].1@ == r;
                            assert(post[q] == pre[q]);
                        } else {
                            assert(post[i as int] == old_h[i as int]);
                        }
                    }
                    if holds(post, t, r) {
                        let q = choose|q: int| 0 <= q < post.len() && (#[trigger] post[q]).0 == t && post[q].1@ == r;
                        if q < i {
                            assert(pre[q] == post[q]);
                            assert(holds(prev, t, r));
                            let j = choose|j: int| 0 <= j < prev.len() && (#[trigger] prev[j]).0 == t && prev[j].1@ == r;
                            assert(kept@[j] == prev[j]);
                        } else {
                            assert(kept@[prev.len() as int].0 == t);
                        }
                    }
                }
                if holds(kept@, task, recipient@) {
                    let j = choose|j: int| 0 <= j < kept@.len() && (#[trigger] kept@[j]).0 == task && kept@[j].1@ == recipient@;
                    if j < prev.len() {
                        assert(prev[j] == kept@[j]);
                    }
                }
            }
            i = i + 1;
        }
        assert(old_h.take(old_h.len() as int) =~= old_h);
        self.held = kept;
    }
}

/// Whether two byte strings are equal.
fn bytes_equal(a: &Vec<u8>, b: &Vec<u8>) -> (e: bool)
    ensures
        e == (a@ == b@),
{
    if a.len() != b.len() {
        return false;
    }
    let mut i: usize = 0;
    while i < a.len()
        invariant
            a@.len() == b@.len(),
            i <= a@.len(),
            forall|j: int| 0 <= j < i ==> a@[j] == b@[j],
        decreases a.len() - i,
    {
        if a[i] != b[i] {
            return false;
        }
        i = i + 1;
    }
    assert(a@ =~= b@);
    true
}


} // verus!
