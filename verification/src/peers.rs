//! A node's peer policy: strikes and bans for misbehaving peers, the
//! network time offset taken from peers' clocks, and the choice of the
//! peer with the most work.  Peers are named by their address as a
//! 128-bit number (IPv4 addresses mapped into IPv6).
use vstd::prelude::*;
use crate::time::{Timestamp, NANOS_PER_MINUTE, in_utc_range};
use crate::u256::U256;

verus! {

/// How long a ban lasts, in hours.
pub const BAN_DURATION_HOURS: i64 = 1;
/// Strikes within the window that escalate to a ban.
pub const MAX_STRIKES: u32 = 3;
/// The strike window, in minutes.
pub const STRIKE_WINDOW_MINUTES: i64 = 10;
/// Most distinct peers whose clock samples are kept.
pub const MAX_SAMPLES: usize = 50;
/// Fewest samples before the network time is trusted at all.
pub const MIN_SAMPLES_TO_ADJUST: usize = 5;
/// Largest median offset applied, in minutes.
pub const MAX_TIME_ADJUSTMENT_MINUTES: i64 = 70;
/// Largest magnitude, in seconds, of a clock offset (what a
/// `chrono::Duration` can hold).
pub const MAX_OFFSET_SECONDS: i64 = 9_223_372_036_854_775;

/// How many entries of `s` lie below `v` (or at most `v`, where not
/// `strict`).
pub open spec fn count_below(s: Seq<i64>, v: i64, strict: bool) -> nat
    decreases s.len(),
{
    if s.len() == 0 {
        0
    } else {
        count_below(s.drop_last(), v, strict)
            + if (strict && s.last() < v) || (!strict && s.last() <= v) { 1nat } else { 0nat }
    }
}

/// `m` is the median of `s`: an entry with at most `len/2` entries below
/// it and more than `len/2` at or below it (the middle of `s` sorted).
pub open spec fn is_median(s: Seq<i64>, m: i64) -> bool {
    &&& s.contains(m)
    &&& count_below(s, m, true) <= s.len() / 2
    &&& count_below(s, m, false) > s.len() / 2
}

/// Counts add over concatenation.
pub proof fn lemma_count_add(a: Seq<i64>, b: Seq<i64>, v: i64, strict: bool)
    ensures
        count_below(a + b, v, strict) == count_below(a, v, strict) + count_below(b, v, strict),
    decreases b.len(),
{
    if b.len() > 0 {
        assert((a + b).drop_last() =~= a + b.drop_last());
        lemma_count_add(a, b.drop_last(), v, strict);
    } else {
        assert(a + b =~= a);
    }
}

/// Inserting `x` adds one to the counts it falls under.
pub proof fn lemma_count_insert(s: Seq<i64>, p: int, x: i64, v: i64, strict: bool)
    requires
        0 <= p <= s.len(),
    ensures
        count_below(s.insert(p, x), v, strict) == count_below(s, v, strict)
            + if (strict && x < v) || (!strict && x <= v) { 1nat } else { 0nat },
{
    assert(s.insert(p, x) =~= s.take(p) + seq![x] + s.skip(p));
    assert(s =~= s.take(p) + s.skip(p));
    lemma_count_add(s.take(p) + seq![x], s.skip(p), v, strict);
    lemma_count_add(s.take(p), seq![x], v, strict);
    lemma_count_add(s.take(p), s.skip(p), v, strict);
    assert(seq![x].drop_last() =~= Seq::<i64>::empty());
    assert(count_below(Seq::<i64>::empty(), v, strict) == 0);
    assert(count_below(seq![x], v, strict)
        == if (strict && x < v) || (!strict && x <= v) { 1nat } else { 0nat });
}

/// In a sorted sequence, the entry at `k` has at most `k` entries below
/// it and more than `k` at or below it.
pub proof fn lemma_sorted_rank(t: Seq<i64>, k: int)
    requires
        0 <= k < t.len(),
        forall|i: int, j: int| 0 <= i <= j < t.len() ==> t[i] <= t[j],
    ensures
        count_below(t, t[k], true) <= k,
        count_below(t, t[k], false) > k,
{
    let m = t[k];
    assert(t =~= t.take(k) + t.skip(k));
    lemma_count_add(t.take(k), t.skip(k), m, true);
    lemma_count_bound(t.take(k), m, true);
    lemma_count_none(t.skip(k), m);
    assert(t =~= t.take(k + 1) + t.skip(k + 1));
    lemma_count_add(t.take(k + 1), t.skip(k + 1), m, false);
    lemma_count_all(t.take(k + 1), m);
}

/// A count never exceeds the length.
pub proof fn lemma_count_bound(s: Seq<i64>, v: i64, strict: bool)
    ensures
        count_below(s, v, strict) <= s.len(),
    decreases s.len(),
{
    if s.len() > 0 {
        lemma_count_bound(s.drop_last(), v, strict);
    }
}

/// No entry at least `v` lies below it.
pub proof fn lemma_count_none(s: Seq<i64>, v: i64)
    requires
        forall|i: int| 0 <= i < s.len() ==> s[i] >= v,
    ensures
        count_below(s, v, true) == 0,
    decreases s.len(),
{
    if s.len() > 0 {
        lemma_count_none(s.drop_last(), v);
    }
}

/// Every entry at most `v` counts.
pub proof fn lemma_count_all(s: Seq<i64>, v: i64)
    requires
        forall|i: int| 0 <= i < s.len() ==> s[i] <= v,
    ensures
        count_below(s, v, false) == s.len(),
    decreases s.len(),
{
    if s.len() > 0 {
        lemma_count_all(s.drop_last(), v);
    }
}

/// The median of the clock offsets (in seconds) of the samples, once
/// there are at least `MIN_SAMPLES_TO_ADJUST` of them.
pub fn median_of_seconds(secs: &Vec<i64>) -> (r: Option<i64>)
    ensures
        secs@.len() < MIN_SAMPLES_TO_ADJUST ==> r is None,
        secs@.len() >= MIN_SAMPLES_TO_ADJUST ==> (r matches Some(m) && is_median(secs@, m)),
{
    if secs.len() < MIN_SAMPLES_TO_ADJUST {
        return None;
    }
    let ghost s = secs@;
    let mut sorted: Vec<i64> = Vec::new();
    let mut i: usize = 0;
    while i < secs.len()
        invariant
            i <= s.len(),
            s == secs@,
            sorted@.len() == i,
            forall|a: int, b: int| 0 <= a <= b < sorted@.len() ==> sorted@[a] <= sorted@[b],
            forall|v: i64, strict: bool| count_below(sorted@, v, strict) == #[trigger] count_below(s.take(i as int), v, strict),
            forall|a: int| 0 <= a < sorted@.len() ==> s.take(i as int).contains(#[trigger] sorted@[a]),
        decreases secs.len() - i,
    {
        let x = secs[i];
        let mut p = sorted.len();
        while p > 0 && sorted[p - 1] > x
            invariant
                p <= sorted@.len(),
                forall|a: int| p <= a < sorted@.len() ==> sorted@[a] > x,
            decreases p,
        {
            p = p - 1;
        }
        let ghost before = sorted@;
        sorted.insert(p, x);
        proof {
            assert(s.take(i + 1) =~= s.take(i as int).push(x));
            assert(s.take(i + 1).drop_last() =~= s.take(i as int));
            assert(s.take(i + 1).last() == x);
            assert forall|v: i64, strict: bool| count_below(sorted@, v, strict) == #[trigger] count_below(s.take(i + 1), v, strict) by {
                lemma_count_insert(before, p as int, x, v, strict);
                assert(count_below(before, v, strict) == count_below(s.take(i as int), v, strict));
                assert(count_below(s.take(i + 1), v, strict) == count_below(s.take(i as int), v, strict)
                    + if (strict && x < v) || (!strict && x <= v) { 1nat } else { 0nat });
            }
            assert forall|a: int, b: int| 0 <= a <= b < sorted@.len() implies sorted@[a] <= sorted@[b] by {
                if a < p && b == p {
                    if p > 0 { assert(before[p - 1] <= x); }
                    assert(before[a] <= before[p - 1] || a == p - 1);
                } else if a == p && b > p {
                    assert(before[b - 1] > x);
                } else if a < p && b > p {
                    assert(before[a] <= before[b - 1]);
                } else if a > p {
                    assert(before[a - 1] <= before[b - 1]);
                }
            }
            assert forall|a: int| 0 <= a < sorted@.len() implies s.take(i + 1).contains(#[trigger] sorted@[a]) by {
                if a == p {
                    assert(s.take(i + 1)[i as int] == x);
                } else {
                    let a2 = if a < p { a } else { a - 1 };
                    assert(sorted@[a] == before[a2]);
                    assert(s.take(i as int).contains(before[a2]));
                    let q = choose|q: int| 0 <= q < s.take(i as int).len() && s.take(i as int)[q] == before[a2];
                    assert(s.take(i + 1)[q] == before[a2]);
                }
            }
        }
        i = i + 1;
    }
    assert(s.take(s.len() as int) =~= s);
    let k = sorted.len() / 2;
    let m = sorted[k];
    proof {
        lemma_sorted_rank(sorted@, k as int);
        assert(count_below(sorted@, m, true) == count_below(s, m, true));
        assert(count_below(sorted@, m, false) == count_below(s, m, false));
    }
    Some(m)
}

/// The offset to apply given the median of the samples: none (zero)
/// without a median, or where the median exceeds
/// `MAX_TIME_ADJUSTMENT_MINUTES` whole minutes either way.
pub open spec fn applied_offset_of(median: Option<i64>) -> i64 {
    match median {
        None => 0,
        Some(m) => if (if m < 0 { -(m as int) } else { m as int }) / 60 > MAX_TIME_ADJUSTMENT_MINUTES { 0 } else { m },
    }
}

/// The offset to apply given the median of the samples.
pub fn applied_offset(median: Option<i64>) -> (r: i64)
    requires
        median matches Some(m) ==> -MAX_OFFSET_SECONDS <= m <= MAX_OFFSET_SECONDS,
    ensures
        r == applied_offset_of(median),
{
    match median {
        None => 0,
        Some(m) => {
            let magnitude = if m < 0 { -m } else { m };
            if magnitude / 60 > MAX_TIME_ADJUSTMENT_MINUTES { 0 } else { m }
        },
    }
}

/// The clock samples of distinct peers: (peer, offset in seconds).
pub struct TimeSamples {
    samples: Vec<(u128, i64)>,
}

impl View for TimeSamples {
    type V = Seq<(u128, i64)>;

    closed spec fn view(&self) -> Seq<(u128, i64)> {
        self.samples@
    }
}

/// The offsets of a list of samples.
pub open spec fn offsets_of(s: Seq<(u128, i64)>) -> Seq<i64> {
    s.map_values(|e: (u128, i64)| e.1)
}

/// Whether `peer` has a sample.
pub open spec fn has_sample(s: Seq<(u128, i64)>, peer: u128) -> bool {
    exists|i: int| 0 <= i < s.len() && (#[trigger] s[i]).0 == peer
}

impl TimeSamples {
    /// The samples' invariant: one per peer, every offset within what a
    /// duration holds, and at most `MAX_SAMPLES` of them.
    pub open spec fn wf(self) -> bool {
        &&& forall|i: int, j: int| 0 <= i < j < self@.len() ==> (#[trigger] self@[i]).0 != (#[trigger] self@[j]).0
        &&& forall|i: int| 0 <= i < self@.len() ==> -MAX_OFFSET_SECONDS <= (#[trigger] self@[i]).1 <= MAX_OFFSET_SECONDS
        &&& self@.len() <= MAX_SAMPLES
    }

    /// No samples.
    pub fn new() -> (t: TimeSamples)
        ensures
            t.wf(),
            t@.len() == 0,
    {
        TimeSamples { samples: Vec::new() }
    }

    /// Records `peer`'s offset (replacing its earlier one).  A new peer
    /// past `MAX_SAMPLES` is ignored and `None` returned; otherwise the
    /// offset now to apply, see `applied_offset_of`.
    pub fn record_sample(&mut self, peer: u128, offset_seconds: i64) -> (r: Option<i64>)
        requires
            old(self).wf(),
            -MAX_OFFSET_SECONDS <= offset_seconds <= MAX_OFFSET_SECONDS,
        ensures
            final(self).wf(),
            old(self)@.len() >= MAX_SAMPLES && !has_sample(old(self)@, peer) ==> r is None && final(self)@ == old(self)@,
            !(old(self)@.len() >= MAX_SAMPLES && !has_sample(old(self)@, peer)) ==> {
                &&& has_sample(final(self)@, peer)
                &&& forall|q: u128| q != peer ==> (has_sample(final(self)@, q) <==> has_sample(old(self)@, q))
                &&& r matches Some(a) && (exists|m: Option<i64>| a == applied_offset_of(m)
                    && (offsets_of(final(self)@).len() < MIN_SAMPLES_TO_ADJUST ==> m is None)
                    && (offsets_of(final(self)@).len() >= MIN_SAMPLES_TO_ADJUST ==> (m matches Some(v) && is_median(offsets_of(final(self)@), v))))
            },
    {
        let mut pos: Option<usize> = None;
        let mut i: usize = 0;
        while i < self.samples.len()
            invariant
                i <= self@.len(),
                self@ == old(self)@,
                pos matches Some(p) ==> p < i && self@[p as int].0 == peer,
                pos is None ==> forall|j: int| 0 <= j < i ==> (#[trigger] self@[j]).0 != peer,
            decreases self.samples.len() - i,
        {
            if pos.is_none() && self.samples[i].0 == peer {
                pos = Some(i);
            }
            i = i + 1;
        }
        match pos {
            None => {
                if self.samples.len() >= MAX_SAMPLES {
                    return None;
                }
                let ghost before = self@;
                self.samples.push((peer, offset_seconds));
                proof {
                    assert(self@ == before.push((peer, offset_seconds)));
                    assert(self@[before.len() as int].0 == peer);
                    assert forall|q: u128| q != peer implies (has_sample(self@, q) <==> has_sample(before, q)) by {
                        if has_sample(self@, q) {
                            let j = choose|j: int| 0 <= j < self@.len() && (#[trigger] self@[j]).0 == q;
                            assert(before[j].0 == q);
                        }
                        if has_sample(before, q) {
                            let j = choose|j: int| 0 <= j < before.len() && (#[trigger] before[j]).0 == q;
                            assert(self@[j].0 == q);
                        }
                    }
                }
            },
            Some(p) => {
                let ghost before = self@;
                self.samples.set(p, (peer, offset_seconds));
                proof {
                    assert(self@ == before.update(p as int, (peer, offset_seconds)));
                    assert(self@[p as int].0 == peer);
                    assert forall|q: u128| q != peer implies (has_sample(self@, q) <==> has_sample(before, q)) by {
                        if has_sample(self@, q) {
                            let j = choose|j: int| 0 <= j < self@.len() && (#[trigger] self@[j]).0 == q;
                            assert(before[j].0 == q);
                        }
                        if has_sample(before, q) {
                            let j = choose|j: int| 0 <= j < before.len() && (#[trigger] before[j]).0 == q;
                            assert(self@[j].0 == q);
                        }
                    }
                }
            },
        }
        let mut offsets: Vec<i64> = Vec::new();
        let mut k: usize = 0;
        while k < self.samples.len()
            invariant
                k <= self@.len(),
                offsets@ == offsets_of(self@).take(k as int),
            decreases self.samples.len() - k,
        {
            offsets.push(self.samples[k].1);
            k = k + 1;
            assert(offsets@ =~= offsets_of(self@).take(k as int));
        }
        assert(offsets_of(self@).take(self@.len() as int) =~= offsets_of(self@));
        let median = median_of_seconds(&offsets);
        proof {
            if let Some(v) = median {
                let j = choose|j: int| 0 <= j < offsets@.len() && offsets@[j] == v;
                assert(offsets@[j] == self@[j].1);
            }
        }
        let applied = applied_offset(median);
        Some(applied)
    }
}

/// Among chain tips `(peer, height, work)`, the first with the most
/// work, as (peer, height); an empty name and height zero where no tip
/// has work above zero.
pub open spec fn best_tip(tips: Seq<(Seq<char>, u32, nat)>) -> (Seq<char>, u32)
    decreases tips.len(),
{
    if tips.len() == 0 {
        (Seq::empty(), 0)
    } else {
        let prev = best_tip(tips.drop_last());
        let last = tips.last();
        if last.2 > best_work(tips.drop_last()) { (last.0, last.1) } else { prev }
    }
}

/// The most work among the tips (zero where none).
pub open spec fn best_work(tips: Seq<(Seq<char>, u32, nat)>) -> nat
    decreases tips.len(),
{
    if tips.len() == 0 {
        0
    } else {
        let w = best_work(tips.drop_last());
        if tips.last().2 > w { tips.last().2 } else { w }
    }
}

/// Chain tips read through their views.
pub open spec fn tips_view(s: Seq<(String, u32, U256)>) -> Seq<(Seq<char>, u32, nat)> {
    s.map_values(|e: (String, u32, U256)| (e.0@, e.1, e.2@))
}

/// The peer to sync from: the first tip with strictly the most work.
pub fn choose_best_tip(tips: &Vec<(String, u32, U256)>) -> (r: (String, u32))
    ensures
        (r.0@, r.1) == best_tip(tips_view(tips@)),
{
    let ghost tv = tips_view(tips@);
    let mut best_name = String::new();
    let mut best_height: u32 = 0;
    let mut best = U256::zero();
    let mut i: usize = 0;
    while i < tips.len()
        invariant
            i <= tips@.len(),
            tv == tips_view(tips@),
            (best_name@, best_height) == best_tip(tv.take(i as int)),
            best@ == best_work(tv.take(i as int)),
        decreases tips.len() - i,
    {
        assert(tv.take(i + 1).drop_last() =~= tv.take(i as int));
        let t = &tips[i];
        assert(tv[i as int] == (t.0@, t.1, t.2@));
        if best.lt(&t.2) {
            best = t.2;
            best_name = t.0.clone();
            best_height = t.1;
        }
        i = i + 1;
    }
    assert(tv.take(tv.len() as int) =~= tv);
    (best_name, best_height)
}

/// What a strike does.
#[derive(Clone, Copy, Debug, PartialEq, Eq, Structural)]
pub enum StrikeOutcome {
    /// The peer is banned until the instant given.
    Banned(Timestamp),
    /// The peer now has this many strikes in its window.
    Counted(u32),
}

/// Strikes and bans, by peer.
pub struct PeerPolicy {
    strikes: Vec<(u128, u32, Timestamp)>,
    bans: Vec<(u128, Timestamp)>,
}

/// A peer's strike record: (count, window start).
pub open spec fn strike_of(s: Seq<(u128, u32, Timestamp)>, peer: u128) -> Option<(u32, Timestamp)>
    decreases s.len(),
{
    if s.len() == 0 {
        None
    } else if s.last().0 == peer {
        Some((s.last().1, s.last().2))
    } else {
        strike_of(s.drop_last(), peer)
    }
}

/// A peer's ban, the instant it lifts.
pub open spec fn ban_of(s: Seq<(u128, Timestamp)>, peer: u128) -> Option<Timestamp>
    decreases s.len(),
{
    if s.len() == 0 {
        None
    } else if s.last().0 == peer {
        Some(s.last().1)
    } else {
        ban_of(s.drop_last(), peer)
    }
}

/// The instant a ban made at `now` lifts.
pub open spec fn ban_until(now: Timestamp) -> Timestamp {
    Timestamp { nanos: (now.nanos + BAN_DURATION_HOURS * 60 * NANOS_PER_MINUTE) as i128 }
}

/// A strike's new count given the peer's record at `now`: a lapsed
/// window starts over.
pub open spec fn next_count(rec: Option<(u32, Timestamp)>, now: Timestamp) -> u32 {
    match rec {
        None => 1,
        Some((c, start)) => if now.nanos - start.nanos > STRIKE_WINDOW_MINUTES * NANOS_PER_MINUTE { 1 } else { (c + 1) as u32 },
    }
}

/// The window start after a strike at `now`.
pub open spec fn next_start(rec: Option<(u32, Timestamp)>, now: Timestamp) -> Timestamp {
    match rec {
        None => now,
        Some((c, start)) => if now.nanos - start.nanos > STRIKE_WINDOW_MINUTES * NANOS_PER_MINUTE { now } else { start },
    }
}

impl PeerPolicy {
    /// The records the policy keeps: strike counts and bans.
    pub closed spec fn strikes_view(&self) -> Seq<(u128, u32, Timestamp)> {
        self.strikes@
    }

    /// The bans kept.
    pub closed spec fn bans_view(&self) -> Seq<(u128, Timestamp)> {
        self.bans@
    }

    /// The policy's invariant: stored strike counts stay below
    /// `MAX_STRIKES`.
    pub open spec fn wf(&self) -> bool {
        forall|p: u128| #[trigger] strike_of(self.strikes_view(), p) matches Some(r) ==> r.0 < MAX_STRIKES
    }

    /// No strikes and no bans.
    pub fn new() -> (p: PeerPolicy)
        ensures
            p.wf(),
            forall|q: u128| #[trigger] strike_of(p.strikes_view(), q) is None && ban_of(p.bans_view(), q) is None,
    {
        PeerPolicy { strikes: Vec::new(), bans: Vec::new() }
    }

    /// Bans `peer` until `until`.
    pub fn ban(&mut self, peer: u128, until: Timestamp)
        ensures
            ban_of(final(self).bans_view(), peer) == Some(until),
            forall|q: u128| q != peer ==> #[trigger] ban_of(final(self).bans_view(), q) == ban_of(old(self).bans_view(), q),
            final(self).strikes_view() == old(self).strikes_view(),
    {
        let ghost before = self.bans@;
        self.bans.push((peer, until));
        assert(self.bans@.drop_last() =~= before);
    }

    /// Records a violation by `peer` at `now`: a `severe` one bans it at
    /// once; otherwise it counts a strike in the current window, and the
    /// `MAX_STRIKES`th strike clears the count and bans it.
    pub fn strike(&mut self, peer: u128, severe: bool, now: Timestamp) -> (r: StrikeOutcome)
        requires
            old(self).wf(),
            in_utc_range(now.nanos as int),
            in_utc_range(ban_until(now).nanos as int),
            strike_of(old(self).strikes_view(), peer) matches Some(rec) ==> in_utc_range(rec.1.nanos as int),
        ensures
            final(self).wf(),
            severe ==> r == StrikeOutcome::Banned(ban_until(now))
                && ban_of(final(self).bans_view(), peer) == Some(ban_until(now))
                && final(self).strikes_view() == old(self).strikes_view(),
            !severe && next_count(strike_of(old(self).strikes_view(), peer), now) >= MAX_STRIKES ==>
                r == StrikeOutcome::Banned(ban_until(now))
                && ban_of(final(self).bans_view(), peer) == Some(ban_until(now))
                && strike_of(final(self).strikes_view(), peer) is None,
            !severe && next_count(strike_of(old(self).strikes_view(), peer), now) < MAX_STRIKES ==>
                r == StrikeOutcome::Counted(next_count(strike_of(old(self).strikes_view(), peer), now))
                && strike_of(final(self).strikes_view(), peer) == Some((
                    next_count(strike_of(old(self).strikes_view(), peer), now),
                    next_start(strike_of(old(self).strikes_view(), peer), now)))
                && final(self).bans_view() == old(self).bans_view(),
            forall|q: u128| q != peer ==> #[trigger] strike_of(final(self).strikes_view(), q) == strike_of(old(self).strikes_view(), q),
            forall|q: u128| q != peer ==> #[trigger] ban_of(final(self).bans_view(), q) == ban_of(old(self).bans_view(), q),
    {
        let until = now.plus_minutes(BAN_DURATION_HOURS * 60);
        assert(until == ban_until(now));
        if severe {
            self.ban(peer, until);
            return StrikeOutcome::Banned(until);
        }
        let rec = self.find_strike(peer);
        let (count, start) = match rec {
            None => (1u32, now),
            Some((c, s)) => {
                if now.nanos - s.nanos > STRIKE_WINDOW_MINUTES as i128 * NANOS_PER_MINUTE {
                    (1u32, now)
                } else {
                    (c + 1, s)
                }
            },
        };
        let ghost before = self.strikes@;
        if count >= MAX_STRIKES {
            self.remove_strikes(peer);
            self.ban(peer, until);
            assert forall|q: u128| #[trigger] strike_of(self.strikes_view(), q) is Some implies strike_of(self.strikes_view(), q).unwrap().0 < MAX_STRIKES by {
                if q != peer {
                    assert(strike_of(old(self).strikes_view(), q) == strike_of(self.strikes_view(), q));
                }
            }
            StrikeOutcome::Banned(until)
        } else {
            self.strikes.push((peer, count, start));
            assert(self.strikes@.drop_last() =~= before);
            assert forall|q: u128| #[trigger] strike_of(self.strikes_view(), q) is Some implies strike_of(self.strikes_view(), q).unwrap().0 < MAX_STRIKES by {
                if q != peer {
                    assert(strike_of(self.strikes_view(), q) == strike_of(before, q));
                }
            }
            StrikeOutcome::Counted(count)
        }
    }

    /// `peer`'s strike record.
    fn find_strike(&self, peer: u128) -> (r: Option<(u32, Timestamp)>)
        ensures
            r == strike_of(self.strikes_view(), peer),
    {
        let mut i = self.strikes.len();
        assert(self.strikes@.take(i as int) =~= self.strikes@);
        while i > 0
            invariant
                i <= self.strikes@.len(),
                strike_of(self.strikes@, peer) == strike_of(self.strikes@.take(i as int), peer),
            decreases i,
        {
            let e = self.strikes[i - 1];
            assert(self.strikes@.take(i as int).drop_last() =~= self.strikes@.take(i - 1));
            if e.0 == peer {
                return Some((e.1, e.2));
            }
            i = i - 1;
        }
        assert(self.strikes@.take(0) =~= Seq::<(u128, u32, Timestamp)>::empty());
        None
    }

    /// Forgets `peer`'s strikes.
    fn remove_strikes(&mut self, peer: u128)
        ensures
            strike_of(final(self).strikes_view(), peer) is None,
            forall|q: u128| q != peer ==> #[trigger] strike_of(final(self).strikes_view(), q) == strike_of(old(self).strikes_view(), q),
            final(self).bans_view() == old(self).bans_view(),
    {
        let ghost old_s = self.strikes@;
        let mut kept: Vec<(u128, u32, Timestamp)> = Vec::new();
        let mut i: usize = 0;
        while i < self.strikes.len()
            invariant
                i <= old_s.len(),
                old_s == self.strikes@,
                strike_of(kept@, peer) is None,
                forall|q: u128| q != peer ==> #[trigger] strike_of(kept@, q) == strike_of(old_s.take(i as int), q),
            decreases self.strikes.len() - i,
        {
            let e = self.strikes[i];
            assert(old_s.take(i + 1).drop_last() =~= old_s.take(i as int));
            assert(old_s.take(i + 1).last() == e);
            let ghost prev = kept@;
            if e.0 != peer {
                kept.push(e);
                assert(kept@.drop_last() =~= prev);
                assert(kept@.last() == e);
            }
            assert forall|q: u128| q != peer implies #[trigger] strike_of(kept@, q) == strike_of(old_s.take(i + 1), q) by {
                assert(strike_of(prev, q) == strike_of(old_s.take(i as int), q));
            }
            i = i + 1;
        }
        assert(old_s.take(old_s.len() as int) =~= old_s);
        self.strikes = kept;
    }

    /// Whether `peer` is banned at `now`; an expired ban is forgotten.
    pub fn is_banned(&mut self, peer: u128, now: Timestamp) -> (b: bool)
        ensures
            b == (ban_of(old(self).bans_view(), peer) matches Some(u) && u.nanos > now.nanos),
            !b ==> ban_of(final(self).bans_view(), peer) is None,
            b ==> final(self).bans_view() == old(self).bans_view(),
            forall|q: u128| q != peer ==> #[trigger] ban_of(final(self).bans_view(), q) == ban_of(old(self).bans_view(), q),
            final(self).strikes_view() == old(self).strikes_view(),
    {
        let ghost old_b = self.bans@;
        let mut i = self.bans.len();
        let mut found: Option<Timestamp> = None;
        assert(old_b.take(i as int) =~= old_b);
        while i > 0
            invariant
                i <= old_b.len(),
                old_b == self.bans@,
                found is None ==> ban_of(old_b, peer) == ban_of(old_b.take(i as int), peer),
                found matches Some(u) ==> ban_of(old_b, peer) == Some(u),
            decreases i,
        {
            let e = self.bans[i - 1];
            assert(old_b.take(i as int).drop_last() =~= old_b.take(i - 1));
            if found.is_none() && e.0 == peer {
                found = Some(e.1);
            }
            i = i - 1;
        }
        assert(old_b.take(0) =~= Seq::<(u128, Timestamp)>::empty());
        match found {
            Some(u) => {
                if u.nanos > now.nanos {
                    return true;
                }
            },
            None => {
                return false;
            },
        }
        let mut kept: Vec<(u128, Timestamp)> = Vec::new();
        let mut j: usize = 0;
        while j < self.bans.len()
            invariant
                j <= old_b.len(),
                old_b == self.bans@,
                ban_of(kept@, peer) is None,
                forall|q: u128| q != peer ==> #[trigger] ban_of(kept@, q) == ban_of(old_b.take(j as int), q),
            decreases self.bans.len() - j,
        {
            let e = self.bans[j];
            assert(old_b.take(j + 1).drop_last() =~= old_b.take(j as int));
            assert(old_b.take(j + 1).last() == e);
            let ghost prev = kept@;
            if e.0 != peer {
                kept.push(e);
                assert(kept@.drop_last() =~= prev);
                assert(kept@.last() == e);
            }
            assert forall|q: u128| q != peer implies #[trigger] ban_of(kept@, q) == ban_of(old_b.take(j + 1), q) by {
                assert(ban_of(prev, q) == ban_of(old_b.take(j as int), q));
            }
            j = j + 1;
        }
        assert(old_b.take(old_b.len() as int) =~= old_b);
        self.bans = kept;
        false
    }
}

/// What a node does with one address while connecting to its peers.
#[derive(Clone, Copy, Debug, PartialEq, Eq, Structural)]
pub enum ConnectStep {
    /// Leave it out and go on with the next.
    Skip,
    /// Give up connecting altogether.
    Abort,
    /// Keep the connection.
    Keep,
}

/// The decision on one address while connecting: a banned address is
/// skipped before any attempt; an address the node was started with
/// must answer and shake hands, or the whole attempt fails; a discovered
/// address must answer, and one whose handshake fails is skipped.
/// `reachable` and `handshake_ok` are read only where the attempt gets
/// that far.
pub fn connect_step(listed: bool, banned: bool, reachable: bool, handshake_ok: bool) -> (r: ConnectStep)
    ensures
        r == (if banned {
            ConnectStep::Skip
        } else if !reachable {
            ConnectStep::Abort
        } else if !handshake_ok {
            if listed { ConnectStep::Abort } else { ConnectStep::Skip }
        } else {
            ConnectStep::Keep
        }),
{
    if banned {
        ConnectStep::Skip
    } else if !reachable {
        ConnectStep::Abort
    } else if !handshake_ok {
        if listed { ConnectStep::Abort } else { ConnectStep::Skip }
    } else {
        ConnectStep::Keep
    }
}

} // verus!
