//! Round-trip times, measured with PING and PONG packets.
use vstd::prelude::*;

use crate::bytes;
use crate::error::VoiceError;
use crate::find;

verus! {

/// The most pings that are remembered as unanswered.
pub const MAX_PENDING_PINGS: usize = 16;

/// The round-trip times of one peer, in microseconds.
#[derive(Clone, Copy, Debug, PartialEq, Eq, Structural)]
pub struct LatencyStats {
    /// The last round-trip time.
    pub last_rtt_us: u64,
    /// The smallest one.
    pub min_rtt_us: u64,
    /// The moving average: each new one counts for an eighth.
    pub avg_rtt_us: u64,
    /// The largest one.
    pub max_rtt_us: u64,
    /// The moving average of how much one differs from the one before.
    pub jitter_us: u64,
    /// How many there were.
    pub sample_count: u64,
}

/// The average of seven parts of the old value and one part of the new one, rounded down.
pub open spec fn smoothed(old_value: u64, new_value: u64) -> u64 {
    ((7 * old_value + new_value) / 8) as u64
}

pub open spec fn difference(a: u64, b: u64) -> u64 {
    if a < b {
        (b - a) as u64
    } else {
        (a - b) as u64
    }
}

impl LatencyStats {
    pub open spec fn zero() -> LatencyStats {
        LatencyStats {
            last_rtt_us: 0,
            min_rtt_us: 0,
            avg_rtt_us: 0,
            max_rtt_us: 0,
            jitter_us: 0,
            sample_count: 0,
        }
    }

    /// No measurement yet: any first one is smaller than the smallest.
    pub open spec fn unmeasured() -> LatencyStats {
        LatencyStats { min_rtt_us: u64::MAX, ..LatencyStats::zero() }
    }

    /// The statistics with one more measurement.
    pub open spec fn with_sample(self, rtt: u64) -> LatencyStats {
        LatencyStats {
            last_rtt_us: rtt,
            min_rtt_us: if rtt < self.min_rtt_us {
                rtt
            } else {
                self.min_rtt_us
            },
            avg_rtt_us: if self.sample_count == 0 {
                rtt
            } else {
                smoothed(self.avg_rtt_us, rtt)
            },
            max_rtt_us: if rtt > self.max_rtt_us {
                rtt
            } else {
                self.max_rtt_us
            },
            jitter_us: if self.sample_count == 0 {
                0
            } else {
                smoothed(self.jitter_us, difference(rtt, self.last_rtt_us))
            },
            sample_count: crate::jitter::saturating_inc(self.sample_count),
        }
    }

    /// Once there is a measurement, average and last one lie between the smallest and the
    /// largest, and the jitter is no more than these two are apart.
    pub open spec fn wf(self) -> bool {
        if self.sample_count == 0 {
            self == LatencyStats::unmeasured()
        } else {
            &&& self.min_rtt_us <= self.avg_rtt_us <= self.max_rtt_us
            &&& self.min_rtt_us <= self.last_rtt_us <= self.max_rtt_us
            &&& self.jitter_us <= self.max_rtt_us - self.min_rtt_us
        }
    }
}

/// Every measurement keeps the average and the last round-trip time between the smallest and the
/// largest one.
pub proof fn law_average_between_extremes(stats: LatencyStats, rtt: u64)
    requires
        stats.wf(),
    ensures
        LatencyStats::unmeasured().wf(),
        stats.with_sample(rtt).wf(),
        stats.with_sample(rtt).sample_count > 0,
        stats.with_sample(rtt).min_rtt_us <= stats.with_sample(rtt).avg_rtt_us,
        stats.with_sample(rtt).avg_rtt_us <= stats.with_sample(rtt).max_rtt_us,
{
}

impl Default for LatencyStats {
    fn default() -> (stats: Self)
        ensures
            stats == LatencyStats::zero(),
    {
        LatencyStats {
            last_rtt_us: 0,
            min_rtt_us: 0,
            avg_rtt_us: 0,
            max_rtt_us: 0,
            jitter_us: 0,
            sample_count: 0,
        }
    }
}

/// Whether no two pings have the same id.
pub open spec fn distinct_ids(pending: Seq<(u32, u64)>) -> bool {
    forall|i: int, j: int|
        0 <= i < j < pending.len() ==> (#[trigger] pending[i]).0 != (#[trigger] pending[j]).0
}

/// That a ping has an id.
pub open spec fn has_ping_id(id: u32) -> spec_fn((u32, u64)) -> bool {
    |p: (u32, u64)| p.0 == id
}

/// Where the ping with an id stands among unanswered ones; their number if it is not there.
pub open spec fn ping_position(pending: Seq<(u32, u64)>, id: u32) -> nat {
    find::first_index(pending, has_ping_id(id))
}

/// The unanswered pings without the one with an id.
pub open spec fn without_ping(pending: Seq<(u32, u64)>, id: u32) -> Seq<(u32, u64)> {
    if ping_position(pending, id) < pending.len() {
        pending.remove(ping_position(pending, id) as int)
    } else {
        pending
    }
}

/// What a latency tracker holds.
#[verifier::ext_equal]
pub struct LatencyView {
    /// The unanswered pings, with the times at which they were sent, the oldest first.
    pub pending: Seq<(u32, u64)>,
    pub next_ping_id: u32,
    pub stats: LatencyStats,
}

impl LatencyView {
    pub open spec fn new() -> LatencyView {
        LatencyView {
            pending: Seq::empty(),
            next_ping_id: 0,
            stats: LatencyStats::unmeasured(),
        }
    }

    /// No id is pending twice, no more pings are remembered than may be, and the statistics hold
    /// together.
    pub open spec fn wf(self) -> bool {
        &&& self.pending.len() <= MAX_PENDING_PINGS
        &&& distinct_ids(self.pending)
        &&& self.stats.wf()
    }

    /// The unanswered pings that are kept when another one is sent: all but the oldest if there
    /// are already as many as are remembered.
    pub open spec fn kept(self) -> Seq<(u32, u64)> {
        if self.pending.len() >= MAX_PENDING_PINGS {
            self.pending.remove(0)
        } else {
            self.pending
        }
    }

    /// The tracker after a ping was sent at a time, in nanoseconds.
    pub open spec fn ping_sent(self, now_ns: u64) -> LatencyView {
        LatencyView {
            pending: without_ping(self.kept(), self.next_ping_id).push(
                (self.next_ping_id, now_ns),
            ),
            next_ping_id: if self.next_ping_id == u32::MAX {
                0
            } else {
                (self.next_ping_id + 1) as u32
            },
            ..self
        }
    }

    /// The round-trip time that an answer at a time gives, in microseconds.
    pub open spec fn rtt_us(self, ping_id: u32, now_ns: u64) -> Option<u64> {
        let at = ping_position(self.pending, ping_id);
        if at < self.pending.len() {
            let sent = self.pending[at as int].1;
            Some(
                if now_ns < sent {
                    0
                } else {
                    ((now_ns - sent) / 1000) as u64
                },
            )
        } else {
            None
        }
    }

    /// The tracker after an answer came. An answer to a ping that is not known changes nothing.
    pub open spec fn pong_received(self, ping_id: u32, now_ns: u64) -> LatencyView {
        match self.rtt_us(ping_id, now_ns) {
            Some(rtt) => LatencyView {
                pending: without_ping(self.pending, ping_id),
                stats: self.stats.with_sample(rtt),
                ..self
            },
            None => self,
        }
    }

    /// The tracker after it was told to forget.
    pub open spec fn reset(self) -> LatencyView {
        LatencyView { next_ping_id: self.next_ping_id, ..LatencyView::new() }
    }

    /// The tracker after pings were sent at some times, one after the other.
    pub open spec fn pings_sent(self, times: Seq<u64>) -> LatencyView
        decreases times.len(),
    {
        if times.len() == 0 {
            self
        } else {
            self.pings_sent(times.drop_last()).ping_sent(times.last())
        }
    }
}

proof fn lemma_without_ping(pending: Seq<(u32, u64)>, id: u32)
    requires
        distinct_ids(pending),
    ensures
        without_ping(pending, id).len() <= pending.len(),
        distinct_ids(without_ping(pending, id)),
        forall|i: int|
            0 <= i < without_ping(pending, id).len() ==> (#[trigger] without_ping(pending, id)[i]).0
                != id,
{
    let rest = without_ping(pending, id);
    let p = ping_position(pending, id) as int;
    find::lemma_first_index(pending, has_ping_id(id));
    if p < pending.len() {
        assert forall|i: int| 0 <= i < rest.len() implies (#[trigger] rest[i]).0 != id by {
            if i < p {
                assert(rest[i] == pending[i]);
            } else {
                assert(rest[i] == pending[i + 1]);
                assert(pending[p].0 != pending[i + 1].0);
            }
        }
        assert forall|i: int, j: int| 0 <= i < j < rest.len() implies (#[trigger] rest[i]).0 != (
        #[trigger] rest[j]).0 by {
            let a = if i < p {
                i
            } else {
                i + 1
            };
            let b = if j < p {
                j
            } else {
                j + 1
            };
            assert(rest[i] == pending[a]);
            assert(rest[j] == pending[b]);
        }
    }
}

proof fn lemma_kept(tracker: LatencyView)
    requires
        tracker.wf(),
    ensures
        tracker.kept().len() < MAX_PENDING_PINGS,
        distinct_ids(tracker.kept()),
{
    let kept = tracker.kept();
    if tracker.pending.len() >= MAX_PENDING_PINGS {
        assert forall|i: int, j: int| 0 <= i < j < kept.len() implies (#[trigger] kept[i]).0 != (
        #[trigger] kept[j]).0 by {
            assert(kept[i] == tracker.pending[i + 1]);
            assert(kept[j] == tracker.pending[j + 1]);
        }
    }
}

/// Whatever happens to a tracker, its invariant holds.
pub proof fn law_invariant_is_kept(tracker: LatencyView, ping_id: u32, now_ns: u64)
    requires
        tracker.wf(),
    ensures
        LatencyView::new().wf(),
        tracker.ping_sent(now_ns).wf(),
        tracker.pong_received(ping_id, now_ns).wf(),
{
    lemma_kept(tracker);
    lemma_without_ping(tracker.kept(), tracker.next_ping_id);
    lemma_without_ping(tracker.pending, ping_id);
    if tracker.rtt_us(ping_id, now_ns) is Some {
        law_average_between_extremes(tracker.stats, tracker.rtt_us(ping_id, now_ns)->0);
    }
}

/// After a ping was sent and a few more, the ping is still remembered, with its time.
#[verifier::spinoff_prover]
#[verifier::rlimit(40)]
proof fn lemma_ping_is_remembered(tracker: LatencyView, sent_ns: u64, later: Seq<u64>) -> (at: int)
    requires
        tracker.wf(),
        later.len() < MAX_PENDING_PINGS,
    ensures
        tracker.ping_sent(sent_ns).pings_sent(later).wf(),
        0 <= at < tracker.ping_sent(sent_ns).pings_sent(later).pending.len(),
        tracker.ping_sent(sent_ns).pings_sent(later).pending.len() <= at + later.len() + 1,
        tracker.ping_sent(sent_ns).pings_sent(later).pending[at] == (
            tracker.next_ping_id,
            sent_ns,
        ),
        tracker.ping_sent(sent_ns).pings_sent(later).next_ping_id == (tracker.next_ping_id
            + later.len() + 1) % 0x1_0000_0000,
    decreases later.len(),
{
    let id = tracker.next_ping_id;
    if later.len() == 0 {
        law_invariant_is_kept(tracker, 0, sent_ns);
        tracker.ping_sent(sent_ns).pending.len() - 1
    } else {
        let t = tracker.ping_sent(sent_ns).pings_sent(later.drop_last());
        let before = lemma_ping_is_remembered(tracker, sent_ns, later.drop_last());
        law_invariant_is_kept(t, 0, later.last());
        let u = t.ping_sent(later.last());
        let kept = t.kept();
        let p = ping_position(kept, t.next_ping_id) as int;
        find::lemma_first_index(kept, has_ping_id(t.next_ping_id));
        let shifted = if t.pending.len() >= MAX_PENDING_PINGS {
            before - 1
        } else {
            before
        };
        assert(kept[shifted] == (id, sent_ns));
        assert(t.next_ping_id != id);
        let at = if p < kept.len() && p < shifted {
            shifted - 1
        } else {
            shifted
        };
        assert(u.pending[at] == (id, sent_ns));
        at
    }
}

/// A ping is measured when its answer comes, even if up to fifteen more were sent meanwhile: the
/// round-trip time is the time that passed, in whole microseconds.
pub proof fn law_answered_ping_is_measured(
    tracker: LatencyView,
    sent_ns: u64,
    later: Seq<u64>,
    now_ns: u64,
)
    requires
        tracker.wf(),
        later.len() < MAX_PENDING_PINGS,
        sent_ns <= now_ns,
    ensures
        tracker.ping_sent(sent_ns).pings_sent(later).rtt_us(tracker.next_ping_id, now_ns) == Some(
            ((now_ns - sent_ns) / 1000) as u64,
        ),
{
    let at = lemma_ping_is_remembered(tracker, sent_ns, later);
    let pending = tracker.ping_sent(sent_ns).pings_sent(later).pending;
    assert forall|i: int| 0 <= i < at implies (#[trigger] pending[i]).0 != tracker.next_ping_id by {
        assert(pending[i].0 != pending[at].0);
    }
    find::lemma_first_index_is(pending, has_ping_id(tracker.next_ping_id), at);
}

/// An answer counts once: the same answer again is that of an unknown ping.
pub proof fn law_second_answer_is_unknown(tracker: LatencyView, ping_id: u32, now_ns: u64, again_ns: u64)
    requires
        tracker.wf(),
        tracker.rtt_us(ping_id, now_ns) is Some,
    ensures
        tracker.pong_received(ping_id, now_ns).rtt_us(ping_id, again_ns) is None,
{
    lemma_without_ping(tracker.pending, ping_id);
    let rest = without_ping(tracker.pending, ping_id);
    find::lemma_first_index_is(rest, has_ping_id(ping_id), rest.len() as int);
}

/// A tracker starts without pings and measurements, with the id 0.
pub proof fn law_new_tracker_is_empty()
    ensures
        LatencyView::new().pending.len() == 0,
        LatencyView::new().next_ping_id == 0,
        LatencyView::new().stats.sample_count == 0,
        LatencyView::new().stats.last_rtt_us == 0,
        LatencyView::new().stats.avg_rtt_us == 0,
        LatencyView::new().stats.max_rtt_us == 0,
        LatencyView::new().stats.jitter_us == 0,
        LatencyView::new().stats.min_rtt_us == u64::MAX,
{
}

/// What one more measurement does: it is the last one and counted, smallest and largest take it in,
/// and the average moves towards it by an eighth, rounded down.
pub proof fn law_measurement_is_taken_in(stats: LatencyStats, rtt: u64)
    ensures
        ({
            let after = stats.with_sample(rtt);
            &&& after.last_rtt_us == rtt
            &&& after.min_rtt_us <= rtt && after.min_rtt_us <= stats.min_rtt_us
            &&& after.min_rtt_us == rtt || after.min_rtt_us == stats.min_rtt_us
            &&& after.max_rtt_us >= rtt && after.max_rtt_us >= stats.max_rtt_us
            &&& after.max_rtt_us == rtt || after.max_rtt_us == stats.max_rtt_us
            &&& stats.sample_count < u64::MAX ==> after.sample_count == stats.sample_count + 1
            &&& stats.sample_count == 0 ==> after.avg_rtt_us == rtt
            &&& stats.sample_count > 0 ==> 8 * after.avg_rtt_us <= 7 * stats.avg_rtt_us + rtt < 8
                * after.avg_rtt_us + 8
        }),
{
}

/// The jitter is zero after the first measurement, and then moves by an eighth, rounded down,
/// towards how much a measurement differs from the one before.
pub proof fn law_jitter_follows_the_differences(stats: LatencyStats, rtt: u64)
    ensures
        ({
            let after = stats.with_sample(rtt).jitter_us;
            let apart = if rtt > stats.last_rtt_us {
                rtt - stats.last_rtt_us
            } else {
                stats.last_rtt_us - rtt
            };
            &&& stats.sample_count == 0 ==> after == 0
            &&& stats.sample_count > 0 ==> 8 * after <= 7 * stats.jitter_us + apart < 8 * after + 8
        }),
{
}

/// A ping that is sent is the last one that is pending, with the next id and its time. The others
/// stay, but for the oldest if there were sixteen, and ids go on by one.
pub proof fn law_ping_is_noted(tracker: LatencyView, now_ns: u64)
    requires
        tracker.wf(),
        forall|i: int|
            0 <= i < tracker.pending.len() ==> (#[trigger] tracker.pending[i]).0
                != tracker.next_ping_id,
    ensures
        ({
            let after = tracker.ping_sent(now_ns);
            &&& after.pending.len() > 0
            &&& after.pending.last() == (tracker.next_ping_id, now_ns)
            &&& tracker.pending.len() < 16 ==> after.pending.drop_last() == tracker.pending
            &&& tracker.pending.len() == 16 ==> after.pending.drop_last() == tracker.pending.skip(
                1,
            )
            &&& after.next_ping_id == (tracker.next_ping_id + 1) % 0x1_0000_0000
            &&& after.stats == tracker.stats
        }),
{
    let kept = tracker.kept();
    assert forall|i: int| 0 <= i < kept.len() implies (#[trigger] kept[i]).0
        != tracker.next_ping_id by {
        if tracker.pending.len() >= 16 {
            assert(kept[i] == tracker.pending[i + 1]);
        } else {
            assert(kept[i] == tracker.pending[i]);
        }
    }
    find::lemma_first_index_is(kept, has_ping_id(tracker.next_ping_id), kept.len() as int);
    let after = tracker.ping_sent(now_ns);
    assert(after.pending.drop_last() =~= kept);
    if tracker.pending.len() == 16 {
        assert(kept =~= tracker.pending.skip(1));
    }
}

/// The answer to a pending ping is measured: the time since it was sent, in whole microseconds, is
/// the last round-trip time, and the ping is no longer pending. The other pings still are.
pub proof fn law_answer_is_measured(tracker: LatencyView, i: int, now_ns: u64)
    requires
        tracker.wf(),
        0 <= i < tracker.pending.len(),
        tracker.pending[i].1 <= now_ns,
    ensures
        ({
            let (id, sent_ns) = tracker.pending[i];
            let after = tracker.pong_received(id, now_ns);
            &&& tracker.rtt_us(id, now_ns) == Some(((now_ns - sent_ns) / 1000) as u64)
            &&& after.stats.last_rtt_us == (now_ns - sent_ns) / 1000
            &&& after.stats == tracker.stats.with_sample(((now_ns - sent_ns) / 1000) as u64)
            &&& after.pending == tracker.pending.remove(i)
            &&& after.next_ping_id == tracker.next_ping_id
        }),
{
    let id = tracker.pending[i].0;
    assert forall|j: int| 0 <= j < i implies (#[trigger] tracker.pending[j]).0 != id by {
        assert(tracker.pending[j].0 != tracker.pending[i].0);
    }
    find::lemma_first_index_is(tracker.pending, has_ping_id(id), i);
}

/// The answer to a ping that is not pending is not measured and changes nothing.
pub proof fn law_unknown_answer_changes_nothing(tracker: LatencyView, ping_id: u32, now_ns: u64)
    requires
        forall|i: int|
            0 <= i < tracker.pending.len() ==> (#[trigger] tracker.pending[i]).0 != ping_id,
    ensures
        tracker.rtt_us(ping_id, now_ns) is None,
        tracker.pong_received(ping_id, now_ns) == tracker,
{
    find::lemma_first_index_is(
        tracker.pending,
        has_ping_id(ping_id),
        tracker.pending.len() as int,
    );
}

/// After it was told to forget, a tracker knows no ping and has no measurement, and the next ping has
/// the id that it would have had, so that no answer to an earlier one is taken for its own.
pub proof fn law_forgetting_uses_no_id_again(tracker: LatencyView, ping_id: u32, now_ns: u64)
    ensures
        tracker.reset().pending.len() == 0,
        tracker.reset().next_ping_id == tracker.next_ping_id,
        tracker.reset().stats.sample_count == 0,
        tracker.reset().rtt_us(ping_id, now_ns) is None,
{
}

/// The payload of a ping is its id in four bytes, the most significant first.
pub proof fn law_ping_bytes(ping: PingPayload)
    ensures
        ping.spec_to_bytes().len() == 4,
        ping.ping_id == ping.spec_to_bytes()[0] * 0x100_0000 + ping.spec_to_bytes()[1] * 0x1_0000
            + ping.spec_to_bytes()[2] * 0x100 + ping.spec_to_bytes()[3],
{
    bytes::lemma_be_bytes_4(ping.ping_id as nat);
}

/// Measures the round-trip times of one peer.
pub struct LatencyTracker {
    pending: Vec<(u32, u64)>,
    next_ping_id: u32,
    stats: LatencyStats,
}

impl View for LatencyTracker {
    type V = LatencyView;

    closed spec fn view(&self) -> LatencyView {
        LatencyView {
            pending: self.pending@,
            next_ping_id: self.next_ping_id,
            stats: self.stats,
        }
    }
}

/// Where the ping with an id stands; the number of pings if it is not there.
fn find_ping(pending: &Vec<(u32, u64)>, id: u32) -> (at: usize)
    ensures
        at == ping_position(pending@, id),
        at <= pending@.len(),
{
    let mut at: usize = 0;
    while at < pending.len() && pending[at].0 != id
        invariant
            at <= pending@.len(),
            forall|i: int| 0 <= i < at ==> (#[trigger] pending@[i]).0 != id,
        decreases pending@.len() - at,
    {
        at = at + 1;
    }
    proof {
        find::lemma_first_index_is(pending@, has_ping_id(id), at as int);
    }
    at
}

/// The average of seven parts of the old value and one part of the new one, rounded down.
fn smooth(old_value: u64, new_value: u64) -> (value: u64)
    ensures
        value == smoothed(old_value, new_value),
{
    ((7 * old_value as u128 + new_value as u128) / 8) as u64
}

impl Default for LatencyTracker {
    fn default() -> (tracker: Self)
        ensures
            tracker@ == LatencyView::new(),
            tracker@.wf(),
    {
        LatencyTracker::new()
    }
}

impl LatencyTracker {
    /// A tracker without measurements.
    pub fn new() -> (tracker: Self)
        ensures
            tracker@ == LatencyView::new(),
            tracker@.wf(),
    {
        LatencyTracker {
            pending: Vec::new(),
            next_ping_id: 0,
            stats: LatencyStats {
                last_rtt_us: 0,
                min_rtt_us: u64::MAX,
                avg_rtt_us: 0,
                max_rtt_us: 0,
                jitter_us: 0,
                sample_count: 0,
            },
        }
    }

    /// Records that a ping is sent at a time, in nanoseconds, and gives the id that it carries.
    pub fn ping_sent(&mut self, now_ns: u64) -> (id: u32)
        ensures
            id == old(self)@.next_ping_id,
            final(self)@ == old(self)@.ping_sent(now_ns),
            old(self)@.wf() ==> final(self)@.wf(),
    {
        proof {
            if self@.wf() {
                law_invariant_is_kept(self@, 0, now_ns);
            }
        }
        let id: u32 = self.next_ping_id;
        self.next_ping_id = if id == u32::MAX {
            0
        } else {
            id + 1
        };
        if self.pending.len() >= MAX_PENDING_PINGS {
            self.pending.remove(0);
        }
        let at: usize = find_ping(&self.pending, id);
        if at < self.pending.len() {
            self.pending.remove(at);
        }
        self.pending.push((id, now_ns));
        id
    }

    /// Records that the answer to a ping came at a time, and gives the round-trip time in
    /// microseconds if the ping is known.
    pub fn pong_received(&mut self, ping_id: u32, now_ns: u64) -> (rtt: Option<u64>)
        ensures
            rtt == old(self)@.rtt_us(ping_id, now_ns),
            final(self)@ == old(self)@.pong_received(ping_id, now_ns),
            old(self)@.wf() ==> final(self)@.wf(),
    {
        proof {
            if self@.wf() {
                law_invariant_is_kept(self@, ping_id, now_ns);
            }
        }
        let at: usize = find_ping(&self.pending, ping_id);
        if at >= self.pending.len() {
            return None;
        }
        let sent: u64 = self.pending[at].1;
        self.pending.remove(at);
        let rtt: u64 = if now_ns < sent {
            0
        } else {
            (now_ns - sent) / 1000
        };
        let last: u64 = self.stats.last_rtt_us;
        let first: bool = self.stats.sample_count == 0;
        self.stats.last_rtt_us = rtt;
        if self.stats.sample_count < u64::MAX {
            self.stats.sample_count = self.stats.sample_count + 1;
        }
        if rtt < self.stats.min_rtt_us {
            self.stats.min_rtt_us = rtt;
        }
        if rtt > self.stats.max_rtt_us {
            self.stats.max_rtt_us = rtt;
        }
        if first {
            self.stats.avg_rtt_us = rtt;
            self.stats.jitter_us = 0;
        } else {
            self.stats.avg_rtt_us = smooth(self.stats.avg_rtt_us, rtt);
            let deviation: u64 = if rtt < last {
                last - rtt
            } else {
                rtt - last
            };
            self.stats.jitter_us = smooth(self.stats.jitter_us, deviation);
        }
        Some(rtt)
    }

    /// The statistics.
    pub fn stats(&self) -> (stats: &LatencyStats)
        ensures
            *stats == self@.stats,
    {
        &self.stats
    }

    /// Forgets all pings and measurements. Ids are not used again.
    pub fn reset(&mut self)
        ensures
            final(self)@ == old(self)@.reset(),
            final(self)@ == (LatencyView {
                next_ping_id: old(self)@.next_ping_id,
                ..LatencyView::new()
            }),
            final(self)@.wf(),
    {
        self.pending.clear();
        self.stats = LatencyStats {
            last_rtt_us: 0,
            min_rtt_us: u64::MAX,
            avg_rtt_us: 0,
            max_rtt_us: 0,
            jitter_us: 0,
            sample_count: 0,
        };
    }
}

/// The payload of PING and PONG packets.
#[derive(Clone, Copy, Debug, PartialEq, Eq, Structural)]
pub struct PingPayload {
    pub ping_id: u32,
}

impl PingPayload {
    pub open spec fn spec_to_bytes(self) -> Seq<u8> {
        bytes::be_bytes(self.ping_id as nat, 4)
    }

    pub open spec fn spec_from_bytes(data: Seq<u8>) -> Result<PingPayload, VoiceError> {
        if data.len() < 4 {
            Err(VoiceError::PingTooShort)
        } else {
            Ok(PingPayload { ping_id: bytes::be_value(data.subrange(0, 4)) as u32 })
        }
    }

    /// The id, big-endian.
    pub fn to_bytes(&self) -> (buf: Vec<u8>)
        ensures
            buf@ == self.spec_to_bytes(),
    {
        let mut buf: Vec<u8> = Vec::new();
        bytes::push_be(&mut buf, self.ping_id as u128, 4);
        assert(buf@ =~= self.spec_to_bytes());
        buf
    }

    /// Reads the id in the first four bytes.
    pub fn from_bytes(data: &[u8]) -> (res: Result<Self, VoiceError>)
        ensures
            res == PingPayload::spec_from_bytes(data@),
    {
        if data.len() < 4 {
            return Err(VoiceError::PingTooShort);
        }
        proof {
            bytes::lemma_byte_limits();
        }
        let id: u128 = bytes::read_be(data, 0, 4);
        Ok(PingPayload { ping_id: id as u32 })
    }
}

/// Reading the bytes of a PING payload gives the payload back.
pub proof fn law_ping_roundtrip(ping: PingPayload)
    ensures
        PingPayload::spec_from_bytes(ping.spec_to_bytes()) == Ok::<PingPayload, VoiceError>(ping),
{
    let b = ping.spec_to_bytes();
    bytes::lemma_be_bytes_len(ping.ping_id as nat, 4);
    bytes::lemma_byte_limits();
    bytes::lemma_be_value_of_bytes(ping.ping_id as nat, 4);
    assert(b.subrange(0, 4) =~= b);
}

} // verus!
