use vstd::prelude::*;
use std::collections::VecDeque;
use crate::deadlines::{Deadlines, pq_contents, pq_new, pq_peek, pq_pop, pq_push};
use crate::estimators::{cap, elapsed, rate_step, rtt_step, RateCalculator, Ratio, RttCalculator};

verus! {

/// A message carried by a reliable connection.
pub enum Message {
    /// Reliable, in-order stream data.
    Rel { stream_id: u16, seqno: u64, payload: Vec<u8> },
    /// Unreliable datagram.
    Urel { stream_id: u16, payload: Vec<u8> },
    /// Keepalive carrying nothing.
    Empty,
}

impl Message {
    pub open spec fn is_rel_spec(&self) -> bool {
        self is Rel
    }

    /// Whether this is reliable stream data.
    pub fn is_rel(&self) -> (r: bool)
        ensures
            r == self.is_rel_spec(),
    {
        match self {
            Message::Rel { .. } => true,
            _ => false,
        }
    }
}

/// One unacknowledged outbound segment.
pub struct InflightEntry {
    pub seqno: u64,
    pub acked: bool,
    pub send_time: u64,
    pub retrans: u64,
    pub payload: Message,
    pub delivered: u64,
    pub delivered_time: u64,
}

impl InflightEntry {
    pub open spec fn seqno_spec(&self) -> u64 {
        self.seqno
    }

    pub open spec fn acked_spec(&self) -> bool {
        self.acked
    }

    /// The RTT sample this segment gives when acknowledged at `now`: none
    /// once it has been retransmitted.
    pub open spec fn rtt_sample(&self, now: u64) -> Option<u64> {
        if self.retrans == 0 {
            Some(elapsed(now, self.send_time) as u64)
        } else {
            None
        }
    }

    pub open spec fn retrans_spec(&self) -> u64 {
        self.retrans
    }

    /// Whether acknowledging this segment gives a delivery-rate sample:
    /// reliable data that was never retransmitted.
    pub open spec fn gives_rate_sample(&self) -> bool {
        self.retrans == 0 && self.payload.is_rel_spec()
    }

    /// The delivery-rate sample this segment gives when acknowledged at
    /// `now` with `delivered` messages delivered in all.
    pub open spec fn rate_sample(&self, delivered: u64, now: u64) -> Ratio {
        Ratio {
            num: elapsed(delivered, self.delivered) as u64,
            den_ms: elapsed(now, self.delivered_time) as u64,
        }
    }

    /// The segment's sequence number.
    pub fn seqno(&self) -> (r: u64)
        ensures
            r == self.seqno_spec(),
    {
        self.seqno
    }

    /// Whether the segment has been acknowledged.
    pub fn acked(&self) -> (r: bool)
        ensures
            r == self.acked_spec(),
    {
        self.acked
    }
}

/// What the retransmission timer asks of its driver next.
#[derive(Clone, Copy, Debug, PartialEq, Eq, Structural)]
pub enum Wake {
    /// Send this segment again; `timeout` is false for a fast retransmit.
    Retransmit { seqno: u64, timeout: bool },
    /// Nothing is due yet: call again at this time.
    SleepUntil(u64),
    /// The next deadline is more than thirty seconds away.
    Done,
    /// No deadline is pending at all.
    Idle,
}

/// Number of unacknowledged segments in a (seqno, acked) sequence.
pub open spec fn count_unacked(s: Seq<(u64, bool)>) -> nat
    decreases s.len(),
{
    if s.len() == 0 {
        0
    } else {
        count_unacked(s.drop_last()) + if s.last().1 { 0nat } else { 1nat }
    }
}

/// Drops acknowledged segments from the front.
pub open spec fn prune(s: Seq<(u64, bool)>) -> Seq<(u64, bool)>
    decreases s.len(),
{
    if s.len() > 0 && s[0].1 {
        prune(s.drop_first())
    } else {
        s
    }
}

/// Position of `seqno` in a contiguous run of segments, if it lies there.
pub open spec fn offset_in(s: Seq<(u64, bool)>, seqno: u64) -> Option<int> {
    if s.len() > 0 && s[0].0 <= seqno && seqno - s[0].0 < s.len() {
        Some(seqno - s[0].0)
    } else {
        None
    }
}

/// `seqno` is held and not yet acknowledged.
pub open spec fn pending(s: Seq<(u64, bool)>, seqno: u64) -> bool {
    match offset_in(s, seqno) {
        Some(i) => !s[i].1,
        None => false,
    }
}

/// The state after acknowledging `seqno` alone.
pub open spec fn ack_one(s: Seq<(u64, bool)>, seqno: u64) -> Seq<(u64, bool)> {
    match offset_in(s, seqno) {
        Some(i) => if s[i].1 { s } else { prune(s.update(i, (seqno, true))) },
        None => s,
    }
}

/// Timeout after `n` retransmissions: the base scaled by 3/2 (rounded down)
/// once per retransmission, saturating at the largest millisecond value.
pub open spec fn backoff(base: u64, n: nat) -> int
    decreases n,
{
    if n == 0 {
        base as int
    } else {
        cap(backoff(base, (n - 1) as nat) * 3 / 2)
    }
}

/// `a` and `b` are the same segment, acknowledged or not.
pub open spec fn same_but_acked(a: InflightEntry, b: InflightEntry) -> bool {
    &&& a.seqno == b.seqno
    &&& a.send_time == b.send_time
    &&& a.retrans == b.retrans
    &&& a.payload == b.payload
    &&& a.delivered == b.delivered
    &&& a.delivered_time == b.delivered_time
}

/// `n` is what remains of `o` after dropping segments from the front, each
/// kept segment unchanged but for its acknowledged flag.
pub open spec fn kept_suffix(o: Seq<InflightEntry>, n: Seq<InflightEntry>) -> bool {
    &&& n.len() <= o.len()
    &&& forall|j: int| 0 <= j < n.len() ==> same_but_acked(#[trigger] n[j], o[j + o.len() - n.len()])
}

/// `e` with one more retransmission counted (saturating).
pub open spec fn bumped(e: InflightEntry) -> InflightEntry {
    InflightEntry {
        seqno: e.seqno,
        acked: e.acked,
        send_time: e.send_time,
        retrans: cap(e.retrans + 1) as u64,
        payload: e.payload,
        delivered: e.delivered,
        delivered_time: e.delivered_time,
    }
}

/// `e` is a segment `seqno` carrying `msg`, sent at `now`, never
/// retransmitted nor acknowledged, with the delivery counters of that moment.
pub open spec fn new_entry(
    e: InflightEntry,
    seqno: u64,
    msg: Message,
    now: u64,
    delivered: u64,
    delivered_time: u64,
) -> bool {
    &&& e.seqno == seqno
    &&& !e.acked
    &&& e.send_time == now
    &&& e.retrans == 0
    &&& e.payload == msg
    &&& e.delivered == delivered
    &&& e.delivered_time == delivered_time
}

proof fn lemma_kept_trans(a: Seq<InflightEntry>, b: Seq<InflightEntry>, c: Seq<InflightEntry>)
    requires
        kept_suffix(a, b),
        kept_suffix(b, c),
    ensures
        kept_suffix(a, c),
{
    assert forall|j: int| 0 <= j < c.len() implies same_but_acked(#[trigger] c[j], a[j + a.len() - c.len()]) by {
        assert(same_but_acked(c[j], b[j + b.len() - c.len()]));
        assert(same_but_acked(b[j + b.len() - c.len()], a[j + b.len() - c.len() + a.len() - b.len()]));
    }
}

/// Acknowledging each of `seqs` in turn, one by one.
pub open spec fn ack_all(s: Seq<(u64, bool)>, seqs: Seq<u64>) -> Seq<(u64, bool)>
    decreases seqs.len(),
{
    if seqs.len() == 0 {
        s
    } else {
        ack_one(ack_all(s, seqs.drop_last()), seqs.last())
    }
}

/// The held sequence numbers below `k`, ascending.
pub open spec fn held_below(s: Seq<(u64, bool)>, k: u64) -> Seq<u64> {
    let m: int = if s.len() == 0 || k <= s[0].0 {
        0
    } else if k - s[0].0 < s.len() {
        k - s[0].0
    } else {
        s.len() as int
    };
    Seq::new(m as nat, |j: int| (s[0].0 + j) as u64)
}

/// `n` is `o` less some timers that were due by `now` and whose segment was
/// gone or acknowledged.
pub open spec fn stale_dropped(o: Map<u64, u64>, n: Map<u64, u64>, s: Seq<(u64, bool)>, now: u64) -> bool {
    &&& forall|x: u64| #[trigger] n.contains_key(x) ==> o.contains_key(x) && n[x] == o[x]
    &&& forall|x: u64|
        #[trigger] o.contains_key(x) && !n.contains_key(x) ==> o[x] <= now && !(offset_in(s, x) matches Some(
            i,
        ) && !s[i].1)
}

/// `d` is the earliest deadline of `m`.
pub open spec fn earliest(m: Map<u64, u64>, d: u64) -> bool {
    &&& exists|x: u64| #[trigger] m.contains_key(x) && m[x] == d
    &&& forall|x: u64| #[trigger] m.contains_key(x) ==> d <= m[x]
}

/// Timeout in ms after `n` retransmissions of a segment whose base timeout is `base`.
pub fn backoff_ms(base: u64, n: u64) -> (r: u64)
    ensures
        r == backoff(base, n as nat),
{
    let mut v: u64 = base;
    let mut i: u64 = 0;
    while i < n
        invariant
            i <= n,
            v == backoff(base, i as nat),
        decreases n - i,
    {
        let t: u128 = (v as u128) * 3 / 2;
        v = if t > u64::MAX as u128 { u64::MAX } else { t as u64 };
        i = i + 1;
    }
    v
}

proof fn lemma_count_push(s: Seq<(u64, bool)>, x: (u64, bool))
    ensures
        count_unacked(s.push(x)) == count_unacked(s) + if x.1 { 0nat } else { 1nat },
{
    assert(s.push(x).drop_last() =~= s);
}

proof fn lemma_count_update(s: Seq<(u64, bool)>, i: int, x: (u64, bool))
    requires
        0 <= i < s.len(),
    ensures
        count_unacked(s.update(i, x)) + (if s[i].1 { 0nat } else { 1nat }) == count_unacked(s) + (
        if x.1 { 0nat } else { 1nat }),
    decreases s.len(),
{
    if i == s.len() - 1 {
        assert(s.update(i, x).drop_last() =~= s.drop_last());
    } else {
        lemma_count_update(s.drop_last(), i, x);
        assert(s.update(i, x).drop_last() =~= s.drop_last().update(i, x));
    }
}

proof fn lemma_count_drop_first(s: Seq<(u64, bool)>)
    requires
        s.len() > 0,
    ensures
        count_unacked(s) == count_unacked(s.drop_first()) + if s[0].1 { 0nat } else { 1nat },
    decreases s.len(),
{
    if s.len() > 1 {
        lemma_count_drop_first(s.drop_last());
        assert(s.drop_last().drop_first() =~= s.drop_first().drop_last());
        assert(s.drop_first().last() == s.last());
    } else {
        assert(s.drop_last() =~= Seq::<(u64, bool)>::empty());
        assert(s.drop_first() =~= Seq::<(u64, bool)>::empty());
    }
}

proof fn lemma_count_le_len(s: Seq<(u64, bool)>)
    ensures
        count_unacked(s) <= s.len(),
    decreases s.len(),
{
    if s.len() > 0 {
        lemma_count_le_len(s.drop_last());
    }
}

/// Retransmission backoff: each retransmission scales the pending timeout
/// by 3/2, rounded down and saturating, so it never shrinks.
pub proof fn lemma_backoff_step(base: u64, n: nat)
    ensures
        backoff(base, n + 1) == cap(backoff(base, n) * 3 / 2),
        backoff(base, n) <= backoff(base, n + 1),
        base <= backoff(base, n),
        backoff(base, n) <= u64::MAX,
    decreases n,
{
    if n > 0 {
        lemma_backoff_step(base, (n - 1) as nat);
    }
}

/// A larger base timeout never gives an earlier retransmission: backoff is
/// monotone in its base.
pub proof fn lemma_backoff_monotone(b1: u64, b2: u64, n: nat)
    requires
        b1 <= b2,
    ensures
        backoff(b1, n) <= backoff(b2, n),
    decreases n,
{
    if n > 0 {
        lemma_backoff_monotone(b1, b2, (n - 1) as nat);
    }
}

/// Karn's rule: acknowledging a segment that was retransmitted leaves the
/// smoothed RTT, its variance and the timeout unchanged.
pub proof fn lemma_karn(o: RttCalculator, n: RttCalculator, e: InflightEntry, now: u64)
    requires
        e.retrans_spec() > 0,
        rtt_step(o, e.rtt_sample(now), now, n),
    ensures
        n.srtt == o.srtt,
        n.rttvar == o.rttvar,
        n.rto == o.rto,
{
}

/// Sender-side reliability state of one connection. Times are readings of a
/// monotonic clock in milliseconds.
pub struct Inflight {
    segments: VecDeque<InflightEntry>,
    inflight_count: usize,
    times: Deadlines,
    fast_retrans: Vec<u64>,
    rtt: RttCalculator,
    rate: RateCalculator,
    delivered: u64,
    delivered_time: u64,
}

impl View for Inflight {
    type V = Seq<(u64, bool)>;

    closed spec fn view(&self) -> Seq<(u64, bool)> {
        self.segments@.map_values(|e: InflightEntry| (e.seqno, e.acked))
    }
}

impl Inflight {
    /// The state is consistent: segments are numbered contiguously from an
    /// unacknowledged front, the counter matches them, fast retransmits are
    /// kept ascending.
    pub closed spec fn wf(&self) -> bool {
        let s = self@;
        &&& forall|i: int| 0 <= i < s.len() ==> #[trigger] s[i].0 == s[0].0 + i
        &&& s.len() > 0 ==> s[0].0 + s.len() <= u64::MAX
        &&& s.len() > 0 ==> !s[0].1
        &&& self.inflight_count == count_unacked(s)
        &&& pq_contents(self.times).dom().finite()
        &&& forall|i: int, j: int|
            0 <= i < j < self.fast_retrans@.len() ==> self.fast_retrans@[i] < self.fast_retrans@[j]
    }

    /// Pending retransmission deadline of each sequence number.
    pub closed spec fn deadlines(&self) -> Map<u64, u64> {
        pq_contents(self.times).map_values(|p: u64| (u64::MAX - p) as u64)
    }

    pub closed spec fn inflight_spec(&self) -> nat {
        self.inflight_count as nat
    }

    pub closed spec fn fast_spec(&self) -> Seq<u64> {
        self.fast_retrans@
    }

    pub closed spec fn entries(&self) -> Seq<InflightEntry> {
        self.segments@
    }

    pub closed spec fn delivered_spec(&self) -> u64 {
        self.delivered
    }

    pub closed spec fn delivered_time_spec(&self) -> u64 {
        self.delivered_time
    }

    /// The (seqno, acked) view is read off the held entries.
    pub proof fn lemma_view_entries(x: Inflight)
        ensures
            x@.len() == x.entries().len(),
            forall|i: int|
                0 <= i < x@.len() ==> #[trigger] x@[i] == (x.entries()[i].seqno, x.entries()[i].acked),
    {
    }

    pub closed spec fn rtt_spec(&self) -> RttCalculator {
        self.rtt
    }

    pub closed spec fn rate_spec(&self) -> RateCalculator {
        self.rate
    }

    /// Ack accounting: in any consistent state the in-flight counter is the
    /// number of unacknowledged segments, the front segment is
    /// unacknowledged and has the smallest sequence number held, segment `i`
    /// is numbered front + `i`, so a number is found by offset exactly when it
    /// is held, and queued fast retransmits are ascending.
    pub proof fn lemma_ack_accounting(x: Inflight)
        requires
            x.wf(),
        ensures
            x.inflight_spec() == count_unacked(x@),
            x@.len() > 0 ==> !x@[0].1,
            forall|i: int| 0 <= i < x@.len() ==> x@[0].0 <= #[trigger] x@[i].0,
            forall|i: int| 0 <= i < x@.len() ==> #[trigger] x@[i].0 == x@[0].0 + i,
            x@.len() > 0 ==> x@[0].0 + x@.len() <= u64::MAX,
            forall|s: u64|
                #[trigger] offset_in(x@, s) is Some <==> exists|i: int| 0 <= i < x@.len() && x@[i].0 == s,
            forall|s: u64|
                #[trigger] pending(x@, s) <==> exists|i: int| 0 <= i < x@.len() && x@[i].0 == s && !x@[i].1,
            forall|i: int, j: int|
                0 <= i < j < x.fast_spec().len() ==> x.fast_spec()[i] < x.fast_spec()[j],
    {
        assert forall|s: u64| #[trigger] offset_in(x@, s) is Some <==> exists|i: int|
            0 <= i < x@.len() && x@[i].0 == s by {
            if exists|i: int| 0 <= i < x@.len() && x@[i].0 == s {
                let i = choose|i: int| 0 <= i < x@.len() && x@[i].0 == s;
                assert(x@[i].0 == x@[0].0 + i);
            }
            if offset_in(x@, s) is Some {
                let i = s - x@[0].0;
                assert(x@[i].0 == x@[0].0 + i);
            }
        }
        assert forall|s: u64| #[trigger] pending(x@, s) <==> exists|i: int|
            0 <= i < x@.len() && x@[i].0 == s && !x@[i].1 by {
            if exists|i: int| 0 <= i < x@.len() && x@[i].0 == s && !x@[i].1 {
                let i = choose|i: int| 0 <= i < x@.len() && x@[i].0 == s && !x@[i].1;
                assert(x@[i].0 == x@[0].0 + i);
            }
            if pending(x@, s) {
                let i = s - x@[0].0;
                assert(x@[i].0 == x@[0].0 + i);
            }
        }
    }

    /// Entries are fixed by where they came from and their view: two
    /// engines that each kept a suffix of the same entries, and agree on
    /// (seqno, acked), hold the same entries. With the contracts of
    /// `mark_acked` and `mark_acked_lt`, a cumulative ack thus leaves the same
    /// entries as the single acks it stands for.
    pub proof fn lemma_entries_determined(o: Inflight, x: Inflight, y: Inflight)
        requires
            kept_suffix(o.entries(), x.entries()),
            kept_suffix(o.entries(), y.entries()),
            x@ == y@,
        ensures
            x.entries() == y.entries(),
    {
        let a = x.entries();
        let b = y.entries();
        assert(x@.len() == a.len() && y@.len() == b.len());
        assert forall|j: int| 0 <= j < a.len() implies a[j] == b[j] by {
            assert(same_but_acked(a[j], o.entries()[j + o.entries().len() - a.len()]));
            assert(same_but_acked(b[j], o.entries()[j + o.entries().len() - b.len()]));
            assert(x@[j] == (a[j].seqno, a[j].acked));
            assert(y@[j] == (b[j].seqno, b[j].acked));
        }
        assert(a =~= b);
    }

    /// An empty engine with fresh estimators.
    pub fn new(now: u64) -> (r: Inflight)
        ensures
            r.wf(),
            r@ == Seq::<(u64, bool)>::empty(),
            r.deadlines().dom() == Set::<u64>::empty(),
            r.fast_spec() == Seq::<u64>::empty(),
            r.rtt_spec() == RttCalculator::new_spec(now),
            r.rate_spec().rate == (Ratio { num: 100, den_ms: 1000 }),
            r.rate_spec().rate_update_time == now,
            r.delivered_spec() == 0,
            r.delivered_time_spec() == now,
    {
        let r = Inflight {
            segments: VecDeque::new(),
            inflight_count: 0,
            times: pq_new(),
            fast_retrans: Vec::new(),
            rtt: RttCalculator::new(now),
            rate: RateCalculator::new(now),
            delivered: 0,
            delivered_time: now,
        };
        assert(r@ =~= Seq::<(u64, bool)>::empty());
        r
    }

    /// Current delivery-rate estimate.
    pub fn rate(&self) -> (r: Ratio)
        ensures
            r == self.rate_spec().rate,
    {
        self.rate.rate
    }

    /// Bandwidth-delay product in messages, as `num / den`: the rate times min-RTT.
    pub fn bdp(&self) -> (r: (u128, u64))
        ensures
            r.0 == self.rate_spec().rate.num as int * self.rtt_spec().min_rtt as int,
            r.1 == self.rate_spec().rate.den_ms,
    {
        let n: u128 = self.rate.rate.num as u128;
        let m: u128 = self.rtt.min_rtt as u128;
        proof {
            assert(n * m <= u64::MAX as int * u64::MAX as int) by (nonlinear_arith)
                requires n <= u64::MAX as int, m <= u64::MAX as int;
        }
        (n * m, self.rate.rate.den_ms)
    }

    /// Number of segments held, acknowledged or not.
    pub fn len(&self) -> (r: usize)
        ensures
            r == self@.len(),
    {
        self.segments.len()
    }

    /// Number of segments not yet acknowledged.
    pub fn inflight(&self) -> (r: usize)
        requires
            self.wf(),
        ensures
            r == count_unacked(self@),
            r <= self@.len(),
    {
        proof {
            lemma_count_le_len(self@);
        }
        self.inflight_count
    }

    /// Smoothed round-trip time in ms.
    pub fn srtt(&self) -> (r: u64)
        ensures
            r == self.rtt_spec().srtt,
    {
        self.rtt.srtt
    }

    /// Minimum recent round-trip time in ms.
    pub fn min_rtt(&self) -> (r: u64)
        ensures
            r == self.rtt_spec().min_rtt,
    {
        self.rtt.min_rtt
    }
}

impl Inflight {
    /// Acknowledges one segment. Returns whether it was newly acknowledged.
    /// A newly acknowledged segment feeds the RTT estimator (only if never
    /// retransmitted) and, if it carried reliable data and was never
    /// retransmitted, the rate estimator; acknowledged segments are then
    /// dropped from the front.
    pub fn mark_acked(&mut self, seqno: u64, now: u64) -> (r: bool)
        requires
            old(self).wf(),
        ensures
            final(self).wf(),
            r == pending(old(self)@, seqno),
            final(self)@ == ack_one(old(self)@, seqno),
            final(self).deadlines() == old(self).deadlines(),
            final(self).fast_spec() == old(self).fast_spec(),
            kept_suffix(old(self).entries(), final(self).entries()),
            !r ==> final(self).entries() == old(self).entries(),
            !r ==> final(self).rtt_spec() == old(self).rtt_spec() && final(self).rate_spec()
                == old(self).rate_spec() && final(self).delivered_spec() == old(self).delivered_spec()
                && final(self).delivered_time_spec() == old(self).delivered_time_spec(),
            r ==> final(self).delivered_time_spec() == now,
            r ==> rtt_step(
                old(self).rtt_spec(),
                old(self).entries()[seqno - old(self)@[0].0].rtt_sample(now),
                now,
                final(self).rtt_spec(),
            ),
            r ==> final(self).delivered_spec() == cap(old(self).delivered_spec() + 1),
            r && old(self).entries()[seqno - old(self)@[0].0].gives_rate_sample() ==> rate_step(
                old(self).rate_spec(),
                old(self).entries()[seqno - old(self)@[0].0].rate_sample(
                    final(self).delivered_spec(),
                    now,
                ),
                now,
                final(self).rate_spec(),
            ),
            r && !old(self).entries()[seqno - old(self)@[0].0].gives_rate_sample() ==> final(self).rate_spec() == old(
                self,
            ).rate_spec(),
    {
        let ghost s0 = self@;
        let mut toret = false;
        if self.segments.len() > 0 {
            let first_seqno = self.segments[0].seqno;
            if seqno >= first_seqno {
                let offset = seqno - first_seqno;
                if offset < self.segments.len() as u64 && !self.segments[offset as usize].acked {
                    let idx = offset as usize;
                    let ghost segs0 = self.segments@;
                    assert(s0[idx as int].0 == seqno);
                    let mut seg = self.segments.remove(idx).unwrap();
                    self.delivered = if self.delivered < u64::MAX { self.delivered + 1 } else { u64::MAX };
                    self.delivered_time = now;
                    toret = true;
                    seg.acked = true;
                    proof {
                        lemma_count_update(s0, idx as int, (seqno, true));
                    }
                    self.inflight_count = self.inflight_count - 1;
                    if seg.retrans == 0 && seg.payload.is_rel() {
                        let data_acked = if self.delivered >= seg.delivered { self.delivered - seg.delivered } else { 0 };
                        let ack_elapsed = if self.delivered_time >= seg.delivered_time {
                            self.delivered_time - seg.delivered_time
                        } else {
                            0
                        };
                        self.rate.record_sample(Ratio { num: data_acked, den_ms: ack_elapsed }, now);
                    }
                    let sample = if seg.retrans == 0 {
                        Some(if now >= seg.send_time { now - seg.send_time } else { 0 })
                    } else {
                        None
                    };
                    self.rtt.record_sample(sample, now);
                    self.segments.insert(idx, seg);
                    assert(self.segments@ =~= segs0.update(idx as int, seg));
                    assert(self@ =~= s0.update(idx as int, (seqno, true)));
                    assert(kept_suffix(old(self).entries(), self.entries()));
                }
                let ghost target = self@;
                let ghost fixed = (
                    self.times,
                    self.fast_retrans,
                    self.rtt,
                    self.rate,
                    self.delivered,
                    self.delivered_time,
                );
                while self.segments.len() > 0 && self.segments[0].acked
                    invariant
                        old(self).wf(),
                        !toret ==> self.segments@ == old(self).segments@,
                        kept_suffix(old(self).entries(), self.entries()),
                        prune(self@) == prune(target),
                        fixed == (
                            self.times,
                            self.fast_retrans,
                            self.rtt,
                            self.rate,
                            self.delivered,
                            self.delivered_time,
                        ),
                        forall|i: int| 0 <= i < self@.len() ==> #[trigger] self@[i].0 == self@[0].0 + i,
                        self@.len() > 0 ==> self@[0].0 + self@.len() <= u64::MAX,
                        self.inflight_count == count_unacked(self@),
                    decreases self.segments.len(),
                {
                    let ghost before = self@;
                    let ghost before_e = self.segments@;
                    proof {
                        lemma_count_drop_first(before);
                    }
                    self.segments.pop_front();
                    assert(kept_suffix(before_e, self.segments@));
                    proof {
                        lemma_kept_trans(old(self).entries(), before_e, self.segments@);
                    }
                    assert(self@ =~= before.drop_first());
                    assert forall|i: int| 0 <= i < self@.len() implies #[trigger] self@[i].0 == self@[0].0 + i by {
                        assert(before[i + 1].0 == before[0].0 + i + 1);
                        assert(before[1].0 == before[0].0 + 1);
                    }
                }
            }
        }
        toret
    }

    /// Registers a segment sent at `now`, unless its sequence number is
    /// already held, and (re)arms its retransmission deadline at now + RTO.
    /// Sequence numbers are inserted in ascending order without gaps.
    pub fn insert(&mut self, seqno: u64, msg: Message, now: u64)
        requires
            old(self).wf(),
            seqno < u64::MAX,
            old(self)@.len() == 0 || old(self)@[0].0 <= seqno <= old(self)@[0].0 + old(self)@.len(),
        ensures
            final(self).wf(),
            final(self)@ == (if offset_in(old(self)@, seqno) is Some {
                old(self)@
            } else {
                old(self)@.push((seqno, false))
            }),
            final(self).deadlines() == old(self).deadlines().insert(
                seqno,
                cap(now + old(self).rtt_spec().rto) as u64,
            ),
            final(self).fast_spec() == old(self).fast_spec(),
            final(self).rtt_spec() == old(self).rtt_spec(),
            final(self).rate_spec() == old(self).rate_spec(),
            final(self).delivered_spec() == old(self).delivered_spec(),
            final(self).delivered_time_spec() == old(self).delivered_time_spec(),
            offset_in(old(self)@, seqno) is Some ==> final(self).entries() == old(self).entries()
                && final(self).inflight_spec() == old(self).inflight_spec(),
            offset_in(old(self)@, seqno) is None ==> final(self).entries().drop_last() == old(
                self,
            ).entries() && new_entry(
                final(self).entries().last(),
                seqno,
                msg,
                now,
                old(self).delivered_spec(),
                old(self).delivered_time_spec(),
            ) && final(self).inflight_spec() == old(self).inflight_spec() + 1,
    {
        let rto = self.rtt.rto();
        let present = self.get_seqno(seqno).is_some();
        if !present {
            let ghost s0 = self@;
            let entry = InflightEntry {
                seqno,
                acked: false,
                send_time: now,
                payload: msg,
                retrans: 0,
                delivered: self.delivered,
                delivered_time: self.delivered_time,
            };
            let ghost segs0 = self.segments@;
            self.segments.push_back(entry);
            assert(self.segments@.drop_last() =~= segs0);
            assert(self@ =~= s0.push((seqno, false)));
            proof {
                lemma_count_push(s0, (seqno, false));
                lemma_count_le_len(s0);
            }
            assert(self.segments.len() == s0.len() + 1);
            self.inflight_count = self.inflight_count + 1;
        }
        let deadline: u64 = if now as u128 + rto as u128 > u64::MAX as u128 { u64::MAX } else { now + rto };
        pq_push(&mut self.times, seqno, u64::MAX - deadline);
        assert(self.deadlines() =~= old(self).deadlines().insert(seqno, deadline));
    }

    /// Cumulative acknowledgement: acknowledges, in ascending order, every
    /// held segment numbered below `seqno`.
    pub fn mark_acked_lt(&mut self, seqno: u64, now: u64)
        requires
            old(self).wf(),
        ensures
            final(self).wf(),
            final(self)@ == ack_all(old(self)@, held_below(old(self)@, seqno)),
            kept_suffix(old(self).entries(), final(self).entries()),
            final(self).deadlines() == old(self).deadlines(),
            final(self).fast_spec() == old(self).fast_spec(),
    {
        let n = self.segments.len();
        if n == 0 {
            assert(held_below(self@, seqno) =~= Seq::<u64>::empty());
            assert(kept_suffix(old(self).entries(), self.entries()));
            return;
        }
        assert(kept_suffix(old(self).entries(), self.entries()));
        let first = self.segments[0].seqno;
        let ghost below = held_below(self@, seqno);
        let mut j: usize = 0;
        while j < n && first + (j as u64) < seqno
            invariant
                self.wf(),
                0 <= j <= n,
                n == old(self)@.len(),
                n > 0,
                first == old(self)@[0].0,
                first + n <= u64::MAX,
                below == held_below(old(self)@, seqno),
                j <= below.len(),
                self@ == ack_all(old(self)@, below.take(j as int)),
                kept_suffix(old(self).entries(), self.entries()),
                self.deadlines() == old(self).deadlines(),
                self.fast_spec() == old(self).fast_spec(),
            decreases n - j,
        {
            let ghost prev = self.entries();
            self.mark_acked(first + j as u64, now);
            proof {
                lemma_kept_trans(old(self).entries(), prev, self.entries());
            }
            assert(below.take(j as int + 1).drop_last() =~= below.take(j as int));
            j = j + 1;
        }
        assert(below.take(j as int) =~= below);
    }

    /// Queues a sequence number for immediate retransmission; the receive
    /// path calls this on evidence of loss. Kept ascending, without repeats.
    pub fn push_fast_retrans(&mut self, seqno: u64)
        requires
            old(self).wf(),
        ensures
            final(self).wf(),
            final(self).fast_spec().to_set() == old(self).fast_spec().to_set().insert(seqno),
            final(self)@ == old(self)@,
            final(self).deadlines() == old(self).deadlines(),
    {
        let mut i: usize = 0;
        while i < self.fast_retrans.len() && self.fast_retrans[i] < seqno
            invariant
                self.wf(),
                self == old(self),
                i <= self.fast_retrans@.len(),
                forall|j: int| 0 <= j < i ==> self.fast_retrans@[j] < seqno,
            decreases self.fast_retrans@.len() - i,
        {
            i = i + 1;
        }
        let ghost f0 = self.fast_retrans@;
        if i < self.fast_retrans.len() && self.fast_retrans[i] == seqno {
            return;
        }
        self.fast_retrans.insert(i, seqno);
        assert(self.fast_retrans@ == f0.insert(i as int, seqno));
        assert(self.fast_retrans@.to_set() =~= f0.to_set().insert(seqno)) by {
            assert forall|x: u64| self.fast_retrans@.to_set().contains(x) <==> f0.to_set().insert(seqno).contains(x) by {
                if f0.contains(x) {
                    let k = choose|k: int| 0 <= k < f0.len() && f0[k] == x;
                    if k < i {
                        assert(self.fast_retrans@[k] == x);
                    } else {
                        assert(self.fast_retrans@[k + 1] == x);
                    }
                }
                if self.fast_retrans@.contains(x) && x != seqno {
                    let k = choose|k: int| 0 <= k < self.fast_retrans@.len() && self.fast_retrans@[k] == x;
                    if k < i {
                        assert(f0[k] == x);
                    } else {
                        assert(f0[k - 1] == x);
                    }
                }
                if x == seqno {
                    assert(self.fast_retrans@[i as int] == x);
                }
            }
        }
    }

    /// Handing out the first queued fast retransmit.
    pub open spec fn fast_step(self, n: Inflight, r: Wake) -> bool {
        &&& r == (Wake::Retransmit { seqno: self.fast_spec()[0], timeout: false })
        &&& n.fast_spec() == self.fast_spec().drop_first()
        &&& n.deadlines() == self.deadlines()
        &&& n.entries() == self.entries()
    }

    /// Serving the timers at `now`, with no fast retransmit queued.
    pub open spec fn timer_step(self, n: Inflight, now: u64, r: Wake) -> bool {
        &&& n.fast_spec() == self.fast_spec()
        &&& match r {
            Wake::Idle => {
                &&& n.entries() == self.entries()
                &&& n.deadlines().dom() == Set::<u64>::empty()
                &&& stale_dropped(self.deadlines(), n.deadlines(), self@, now)
            },
            Wake::Done => {
                &&& n.entries() == self.entries()
                &&& stale_dropped(self.deadlines(), n.deadlines(), self@, now)
                &&& exists|d: u64| earliest(n.deadlines(), d) && d > now && d - now > 30000
            },
            Wake::SleepUntil(d) => {
                &&& n.entries() == self.entries()
                &&& stale_dropped(self.deadlines(), n.deadlines(), self@, now)
                &&& earliest(n.deadlines(), d)
                &&& d > now
                &&& d - now <= 30000
            },
            Wake::Retransmit { seqno, timeout } => {
                let i = seqno - self@[0].0;
                &&& timeout
                &&& self.deadlines().contains_key(seqno)
                &&& self.deadlines()[seqno] <= now
                &&& offset_in(self@, seqno) is Some
                &&& !self@[i].1
                &&& n.entries() == self.entries().update(i, bumped(self.entries()[i]))
                &&& n.deadlines().contains_key(seqno)
                &&& n.deadlines()[seqno] == cap(
                    now + backoff(self.rtt_spec().rto, n.entries()[i].retrans_spec() as nat),
                )
                &&& stale_dropped(self.deadlines().remove(seqno), n.deadlines().remove(seqno), self@, now)
                &&& forall|x: u64|
                    #[trigger] n.deadlines().contains_key(x) && x != seqno ==> self.deadlines()[seqno]
                        <= n.deadlines()[x]
            },
        }
    }

    /// One step of the retransmission timer at time `now`. A queued fast
    /// retransmit goes first. Otherwise timers that are due but whose segment
    /// is gone or acknowledged are discarded; a due timer of a live segment
    /// counts one more retransmission, is re-armed at now + RTO scaled by 3/2
    /// per retransmission, and its segment is handed out. If nothing is due,
    /// the driver is told when to call again, or that the next deadline is
    /// more than thirty seconds away, or that no timer is pending.
    pub fn poll_retransmit(&mut self, now: u64) -> (r: Wake)
        requires
            old(self).wf(),
        ensures
            final(self).wf(),
            final(self)@ == old(self)@,
            final(self).rtt_spec() == old(self).rtt_spec(),
            final(self).rate_spec() == old(self).rate_spec(),
            old(self).fast_spec().len() > 0 ==> old(self).fast_step(*final(self), r),
            old(self).fast_spec().len() == 0 ==> old(self).timer_step(*final(self), now, r),
    {
        if self.fast_retrans.len() > 0 {
            let seq = self.fast_retrans.remove(0);
            assert(self.fast_retrans@ =~= old(self).fast_retrans@.drop_first());
            return Wake::Retransmit { seqno: seq, timeout: false };
        }
        let ghost start = *old(self);
        loop
            invariant
                start == *old(self),
                self.wf(),
                self@ == start@,
                self.entries() == start.entries(),
                self.fast_retrans@ == start.fast_retrans@,
                self.fast_retrans@.len() == 0,
                self.rtt == start.rtt,
                self.rate == start.rate,
                stale_dropped(start.deadlines(), self.deadlines(), start@, now),
            decreases pq_contents(self.times).dom().len(),
        {
            match pq_peek(&self.times) {
                None => {
                    assert(self.deadlines().dom() =~= Set::<u64>::empty());
                    return Wake::Idle;
                },
                Some((top, p)) => {
                    let deadline = u64::MAX - p;
                    assert(earliest(self.deadlines(), deadline)) by {
                        assert(self.deadlines().contains_key(top));
                    }
                    let wait = if deadline > now { deadline - now } else { 0 };
                    if wait > 30000 {
                        return Wake::Done;
                    }
                    if deadline > now {
                        return Wake::SleepUntil(deadline);
                    }
                    let ghost d0 = self.deadlines();
                    let ghost old_q = pq_contents(self.times);
                    let popped = pq_pop(&mut self.times);
                    let (seqno, _) = match popped {
                        Some(pair) => pair,
                        None => {
                            return Wake::Idle;
                        },
                    };
                    assert(self.deadlines() =~= d0.remove(seqno));
                    let rto = self.rtt.rto();
                    let n = self.segments.len();
                    if n > 0 && seqno >= self.segments[0].seqno && seqno - self.segments[0].seqno < n as u64
                        && !self.segments[(seqno - self.segments[0].seqno) as usize].acked {
                        let idx = (seqno - self.segments[0].seqno) as usize;
                        let ghost segs0 = self.segments@;
                        let ghost s0 = self@;
                        let mut seg = self.segments.remove(idx).unwrap();
                        seg.retrans = if seg.retrans < u64::MAX { seg.retrans + 1 } else { u64::MAX };
                        let rtx = seg.retrans;
                        self.segments.insert(idx, seg);
                        assert(self.segments@ =~= segs0.update(idx as int, seg));
                        assert(self@ =~= s0);
                        let b = backoff_ms(rto, rtx);
                        let next: u64 = if now as u128 + b as u128 > u64::MAX as u128 { u64::MAX } else { now + b };
                        let ghost d1 = self.deadlines();
                        pq_push(&mut self.times, seqno, u64::MAX - next);
                        assert(self.deadlines() =~= d1.insert(seqno, next));
                        assert(self.deadlines().remove(seqno) =~= d1);
                        assert(d0.contains_key(seqno) && d0[seqno] <= now);
                        assert forall|x: u64| #[trigger] d0.contains_key(x) implies d0[seqno] <= d0[x] by {
                            assert(old_q.contains_key(x));
                        }
                        assert(stale_dropped(start.deadlines().remove(seqno), d1, start@, now));
                        return Wake::Retransmit { seqno, timeout: true };
                    }
                },
            }
        }
    }

    /// The segment with this sequence number, if it is held.
    pub fn get_seqno(&self, seqno: u64) -> (r: Option<&InflightEntry>)
        requires
            self.wf(),
        ensures
            offset_in(self@, seqno) is None ==> r is None,
            offset_in(self@, seqno) matches Some(i) ==> r matches Some(e) && *e == self.entries()[i],
            r matches Some(e) ==> e.seqno == seqno,
    {
        if self.segments.len() > 0 {
            let first_seqno = self.segments[0].seqno;
            if seqno >= first_seqno {
                let offset = seqno - first_seqno;
                if offset < self.segments.len() as u64 {
                    assert(self@[offset as int].0 == self@[0].0 + offset);
                    return Some(&self.segments[offset as usize]);
                }
            }
        }
        None
    }
}

} // verus!
