//! A fixed-window request limiter, one window per client address (a
//! 128-bit number: IPv4 addresses mapped into IPv6).
use vstd::prelude::*;
use crate::time::{Timestamp, NANOS_PER_SECOND};

verus! {

/// How often a client's request count resets, in seconds.
pub const WINDOW_SECONDS: i64 = 60;
/// Requests allowed per client per window.
pub const MAX_REQUESTS_PER_WINDOW: u32 = 120;

/// Instants the limiter works with: those the system clock can report.
pub open spec fn in_clock_range(nanos: int) -> bool {
    -100_000_000_000_000_000_000_000_000_000 < nanos < 100_000_000_000_000_000_000_000_000_000
}

/// One client's current window.
#[derive(Clone, Copy, Debug, PartialEq, Eq, Structural)]
pub struct Window {
    pub started_at: Timestamp,
    pub count: u32,
}

/// The window recorded for `ip` (the last entry for it).
pub open spec fn window_in(s: Seq<(u128, Window)>, ip: u128) -> Option<Window>
    decreases s.len(),
{
    if s.len() == 0 {
        None
    } else if s.last().0 == ip {
        Some(s.last().1)
    } else {
        window_in(s.drop_last(), ip)
    }
}

/// No address occurs twice.
pub open spec fn distinct_ips(s: Seq<(u128, Window)>) -> bool
    decreases s.len(),
{
    s.len() == 0 || (distinct_ips(s.drop_last()) && window_in(s.drop_last(), s.last().0) is None)
}

/// Every prefix of a table without repeats is without repeats.
proof fn lemma_distinct_prefix(s: Seq<(u128, Window)>, k: int)
    requires
        distinct_ips(s),
        0 <= k <= s.len(),
    ensures
        distinct_ips(s.take(k)),
    decreases s.len(),
{
    if k < s.len() {
        assert(s.drop_last().take(k) =~= s.take(k));
        lemma_distinct_prefix(s.drop_last(), k);
    } else {
        assert(s.take(k) =~= s);
    }
}

/// A recorded window started at an instant the clock can report.
proof fn lemma_window_in_range(s: Seq<(u128, Window)>, ip: u128)
    requires
        forall|i: int| 0 <= i < s.len() ==> in_clock_range((#[trigger] s[i]).1.started_at.nanos as int),
    ensures
        window_in(s, ip) matches Some(w) ==> in_clock_range(w.started_at.nanos as int),
    decreases s.len(),
{
    if s.len() > 0 && s.last().0 != ip {
        let d = s.drop_last();
        assert forall|i: int| 0 <= i < d.len() implies in_clock_range((#[trigger] d[i]).1.started_at.nanos as int) by {
            assert(d[i] == s[i]);
        }
        lemma_window_in_range(d, ip);
    }
}

/// The per-client table.
pub struct RateLimitTable {
    entries: Vec<(u128, Window)>,
}

impl RateLimitTable {
    /// The entries, in the order they were made.
    pub closed spec fn entries_view(&self) -> Seq<(u128, Window)> {
        self.entries@
    }

    /// The window recorded for `ip`.
    pub open spec fn window(&self, ip: u128) -> Option<Window> {
        window_in(self.entries_view(), ip)
    }

    /// The table's invariant: one entry per address, each started at an
    /// instant the clock can report.
    pub open spec fn wf(&self) -> bool {
        &&& distinct_ips(self.entries_view())
        &&& forall|i: int| 0 <= i < self.entries_view().len()
            ==> in_clock_range((#[trigger] self.entries_view()[i]).1.started_at.nanos as int)
    }

    /// The window recorded for `ip`, if any.
    pub fn get(&self, ip: u128) -> (r: Option<Window>)
        ensures
            r == self.window(ip),
    {
        let mut i = self.entries.len();
        assert(self.entries@.take(i as int) =~= self.entries@);
        while i > 0
            invariant
                i <= self.entries@.len(),
                window_in(self.entries@, ip) == window_in(self.entries@.take(i as int), ip),
            decreases i,
        {
            let e = self.entries[i - 1];
            assert(self.entries@.take(i as int).drop_last() =~= self.entries@.take(i - 1));
            if e.0 == ip {
                return Some(e.1);
            }
            i = i - 1;
        }
        assert(self.entries@.take(0) =~= Seq::<(u128, Window)>::empty());
        None
    }

    /// Drops the entry for `ip`, keeping the others.
    fn remove(&mut self, ip: u128)
        requires
            old(self).wf(),
        ensures
            final(self).wf(),
            final(self).window(ip) is None,
            forall|q: u128| q != ip ==> #[trigger] final(self).window(q) == old(self).window(q),
    {
        let ghost old_s = self.entries@;
        let mut kept: Vec<(u128, Window)> = Vec::new();
        let mut i: usize = 0;
        while i < self.entries.len()
            invariant
                i <= old_s.len(),
                old_s == self.entries@,
                distinct_ips(old_s),
                forall|k: int| 0 <= k < old_s.len() ==> in_clock_range((#[trigger] old_s[k]).1.started_at.nanos as int),
                distinct_ips(kept@),
                forall|k: int| 0 <= k < kept@.len() ==> in_clock_range((#[trigger] kept@[k]).1.started_at.nanos as int),
                window_in(kept@, ip) is None,
                forall|q: u128| q != ip ==> #[trigger] window_in(kept@, q) == window_in(old_s.take(i as int), q),
            decreases self.entries.len() - i,
        {
            let e = self.entries[i];
            assert(old_s.take(i + 1).drop_last() =~= old_s.take(i as int));
            assert(old_s.take(i + 1).last() == e);
            proof {
                lemma_distinct_prefix(old_s, i + 1);
            }
            let ghost prev = kept@;
            if e.0 != ip {
                kept.push(e);
                assert(kept@.drop_last() =~= prev);
            }
            assert forall|q: u128| q != ip implies #[trigger] window_in(kept@, q) == window_in(old_s.take(i + 1), q) by {
                assert(window_in(prev, q) == window_in(old_s.take(i as int), q));
            }
            i = i + 1;
        }
        assert(old_s.take(old_s.len() as int) =~= old_s);
        self.entries = kept;
    }
}

/// A table with no entries.
pub fn new_table() -> (t: RateLimitTable)
    ensures
        t.wf(),
        forall|ip: u128| #[trigger] t.window(ip) is None,
{
    RateLimitTable { entries: Vec::new() }
}

/// The window a request from a client with window `w` at `now` counts
/// against: a new one where there is none or the old one lapsed more
/// than `WINDOW_SECONDS` ago.
pub open spec fn current_window(w: Option<Window>, now: Timestamp) -> Window {
    match w {
        None => Window { started_at: now, count: 0 },
        Some(w) => if now.nanos - w.started_at.nanos > WINDOW_SECONDS * NANOS_PER_SECOND {
            Window { started_at: now, count: 0 }
        } else {
            w
        },
    }
}

/// The window after recording one more request.
pub open spec fn recorded_window(w: Option<Window>, now: Timestamp) -> Window {
    Window { started_at: current_window(w, now).started_at, count: (current_window(w, now).count + 1) as u32 }
}

/// Records one request from `ip` at `now` and reports whether it is still
/// within `MAX_REQUESTS_PER_WINDOW` of its window.  A count already at
/// `u32::MAX` would overflow, so it is left out.
pub fn check_and_record(table: &mut RateLimitTable, ip: u128, now: Timestamp) -> (allowed: bool)
    requires
        old(table).wf(),
        in_clock_range(now.nanos as int),
        current_window(old(table).window(ip), now).count < u32::MAX,
    ensures
        final(table).wf(),
        final(table).window(ip) == Some(recorded_window(old(table).window(ip), now)),
        forall|q: u128| q != ip ==> #[trigger] final(table).window(q) == old(table).window(q),
        allowed == (recorded_window(old(table).window(ip), now).count <= MAX_REQUESTS_PER_WINDOW),
{
    let existing = table.get(ip);
    let mut w = match existing {
        None => Window { started_at: now, count: 0 },
        Some(w) => w,
    };
    proof {
        lemma_window_in_range(table.entries_view(), ip);
    }
    if now.nanos - w.started_at.nanos > WINDOW_SECONDS as i128 * NANOS_PER_SECOND {
        w = Window { started_at: now, count: 0 };
    }
    w.count = w.count + 1;
    table.remove(ip);
    let ghost mid = *table;
    let ghost before = table.entries@;
    table.entries.push((ip, w));
    assert(table.entries@.drop_last() =~= before);
    assert forall|q: u128| q != ip implies #[trigger] window_in(table.entries@, q) == old(table).window(q) by {
        assert(mid.window(q) == old(table).window(q));
    }
    w.count <= MAX_REQUESTS_PER_WINDOW
}

/// What stays of window `w` in a sweep that drops the windows started at
/// or before `cutoff` (in nanoseconds).
pub open spec fn swept(w: Option<Window>, cutoff: int) -> Option<Window> {
    match w {
        Some(x) => if x.started_at.nanos > cutoff { Some(x) } else { None },
        None => None,
    }
}

/// The cutoff of a sweep at `now`: one window length earlier.
pub open spec fn sweep_cutoff(now: Timestamp) -> int {
    now.nanos - WINDOW_SECONDS * NANOS_PER_SECOND
}

/// Evicts the entries whose window started `WINDOW_SECONDS` or more
/// before `now`.
pub fn cleanup_at(table: &mut RateLimitTable, now: Timestamp)
    requires
        old(table).wf(),
        in_clock_range(now.nanos as int),
    ensures
        final(table).wf(),
        forall|q: u128| #[trigger] final(table).window(q) == swept(old(table).window(q), sweep_cutoff(now)),
{
    let cutoff = now.nanos - WINDOW_SECONDS as i128 * NANOS_PER_SECOND;
    let ghost old_s = table.entries@;
    let mut kept: Vec<(u128, Window)> = Vec::new();
    let mut i: usize = 0;
    while i < table.entries.len()
        invariant
            i <= old_s.len(),
            old_s == table.entries@,
            cutoff == sweep_cutoff(now),
            distinct_ips(old_s),
            forall|k: int| 0 <= k < old_s.len() ==> in_clock_range((#[trigger] old_s[k]).1.started_at.nanos as int),
            distinct_ips(kept@),
            forall|k: int| 0 <= k < kept@.len() ==> in_clock_range((#[trigger] kept@[k]).1.started_at.nanos as int),
            forall|q: u128| #[trigger] window_in(kept@, q) == swept(window_in(old_s.take(i as int), q), cutoff as int),
        decreases table.entries.len() - i,
    {
        let e = table.entries[i];
        assert(old_s.take(i + 1).drop_last() =~= old_s.take(i as int));
        assert(old_s.take(i + 1).last() == e);
        proof {
            lemma_distinct_prefix(old_s, i + 1);
        }
        let ghost prev = kept@;
        if e.1.started_at.nanos > cutoff {
            assert(window_in(prev, e.0) == swept(window_in(old_s.take(i as int), e.0), cutoff as int));
            kept.push(e);
            assert(kept@.drop_last() =~= prev);
        }
        assert forall|q: u128| #[trigger] window_in(kept@, q) == swept(window_in(old_s.take(i + 1), q), cutoff as int) by {
            assert(window_in(prev, q) == swept(window_in(old_s.take(i as int), q), cutoff as int));
        }
        i = i + 1;
    }
    assert(old_s.take(old_s.len() as int) =~= old_s);
    table.entries = kept;
}

/// Evicts the entries whose window lapsed, as of the current time.
pub fn cleanup(table: &mut RateLimitTable)
    requires
        old(table).wf(),
    ensures
        final(table).wf(),
        exists|now: Timestamp| #![trigger sweep_cutoff(now)] forall|q: u128| #[trigger] final(table).window(q) == swept(old(table).window(q), sweep_cutoff(now)),
{
    let now = Timestamp::now();
    cleanup_at(table, now);
}

/// A client's window after `k` requests at `now`, starting from `w`.
pub open spec fn after_requests(w: Option<Window>, now: Timestamp, k: nat) -> Option<Window>
    decreases k,
{
    if k == 0 {
        w
    } else {
        Some(recorded_window(after_requests(w, now, (k - 1) as nat), now))
    }
}

/// A burst from a new client: after `k` requests at one instant its
/// window started then and counts `k`, so the `k`th request is allowed
/// exactly when `k <= MAX_REQUESTS_PER_WINDOW`.
pub proof fn lemma_burst(now: Timestamp, k: nat)
    requires
        1 <= k < u32::MAX,
    ensures
        after_requests(None, now, k) == Some(Window { started_at: now, count: k as u32 }),
        (after_requests(None, now, k).unwrap().count <= MAX_REQUESTS_PER_WINDOW) == (k <= MAX_REQUESTS_PER_WINDOW),
    decreases k,
{
    assert(after_requests(None, now, 0) is None);
    if k > 1 {
        lemma_burst(now, (k - 1) as nat);
        assert(current_window(after_requests(None, now, (k - 1) as nat), now)
            == Window { started_at: now, count: (k - 1) as u32 });
    } else {
        assert(current_window(None, now) == Window { started_at: now, count: 0 });
    }
    assert(after_requests(None, now, k) == Some(recorded_window(after_requests(None, now, (k - 1) as nat), now)));
}

/// Once a window has lapsed, the next request starts a fresh one and is
/// allowed, whatever the old count.
pub proof fn lemma_lapsed_window_resets(w: Window, now: Timestamp)
    requires
        now.nanos - w.started_at.nanos > WINDOW_SECONDS * NANOS_PER_SECOND,
    ensures
        recorded_window(Some(w), now) == (Window { started_at: now, count: 1 }),
        recorded_window(Some(w), now).count <= MAX_REQUESTS_PER_WINDOW,
{
}

/// Within a window, a client that already made `MAX_REQUESTS_PER_WINDOW`
/// requests is refused.
pub proof fn lemma_full_window_refuses(w: Window, now: Timestamp)
    requires
        now.nanos - w.started_at.nanos <= WINDOW_SECONDS * NANOS_PER_SECOND,
        MAX_REQUESTS_PER_WINDOW <= w.count < u32::MAX,
    ensures
        recorded_window(Some(w), now).count > MAX_REQUESTS_PER_WINDOW,
{
}

} // verus!
