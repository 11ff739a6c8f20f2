//! The adaptive jitter buffer: received frames wait here until they are played in order.
use vstd::prelude::*;

use crate::find;

verus! {

/// The largest target depth, in frames.
pub const MAX_DEPTH: usize = 4;

/// The target depth at the start, in frames.
pub const INITIAL_DEPTH: usize = 1;

/// The most frames that are held.
pub const CAPACITY: usize = 8;

/// Packets that must have come before the depth is adapted.
pub const ADAPT_AFTER_PACKETS: u64 = 100;

/// The depth grows when more than one packet in this many is late.
pub const INCREASE_ONE_IN: u64 = 50;

/// The depth shrinks when less than one packet in this many is late.
pub const DECREASE_ONE_IN: u64 = 1000;

/// How long hardly any packet must have been late before the depth shrinks.
pub const DECREASE_HOLDOFF_NS: u64 = 5_000_000_000;

/// Half of the sequence number space. A distance above it counts as negative.
pub const HALF_RANGE: u16 = 32767;

/// How far the sequence number `a` lies after `b`, going round.
pub open spec fn distance(a: u16, b: u16) -> int {
    (a - b) % 0x1_0000
}

/// Whether the sequence number `a` counts as coming after `b`.
pub open spec fn comes_after(a: u16, b: u16) -> bool {
    0 < distance(a, b) < HALF_RANGE
}

/// The sequence number after `s`.
pub open spec fn next_seq(s: u16) -> u16 {
    if s == u16::MAX {
        0
    } else {
        (s + 1) as u16
    }
}

/// A frame: its sequence number and its samples.
pub type FrameView = (u16, Seq<i16>);

/// What a jitter buffer holds.
#[verifier::ext_equal]
pub struct JitterView {
    /// The waiting frames, in playing order.
    pub frames: Seq<FrameView>,
    /// Frames that must wait before one is played.
    pub target_depth: usize,
    /// The sequence number to be played next, once playing has begun.
    pub next: Option<u16>,
    /// Packets received, and packets that came too late, since the depth last changed.
    pub total: u64,
    pub late: u64,
    /// How long hardly any packet has been late, at most since the depth last changed.
    pub low_loss_ns: u64,
}

/// That a frame comes after `seq`.
pub open spec fn is_after(seq: u16) -> spec_fn(FrameView) -> bool {
    |f: FrameView| comes_after(f.0, seq)
}

/// That a frame has the number `seq`.
pub open spec fn has_seq(seq: u16) -> spec_fn(FrameView) -> bool {
    |f: FrameView| f.0 == seq
}

/// How many frames at the front do not come after `seq`.
pub open spec fn insert_position(frames: Seq<FrameView>, seq: u16) -> nat {
    find::first_index(frames, is_after(seq))
}

/// Where the first frame with the number `seq` stands; the number of frames if there is none.
pub open spec fn position(frames: Seq<FrameView>, seq: u16) -> nat {
    find::first_index(frames, has_seq(seq))
}

pub open spec fn saturating_inc(x: u64) -> u64 {
    if x == u64::MAX {
        x
    } else {
        (x + 1) as u64
    }
}

impl JitterView {
    pub open spec fn new() -> JitterView {
        JitterView {
            frames: Seq::empty(),
            target_depth: INITIAL_DEPTH,
            next: None,
            total: 0,
            late: 0,
            low_loss_ns: 0,
        }
    }

    /// No two frames have the same number, no more frames wait than the buffer may hold, the
    /// target depth is in range, and no more packets were late than came.
    pub open spec fn wf(self) -> bool {
        &&& self.frames.len() <= CAPACITY
        &&& forall|i: int, j: int|
            0 <= i < j < self.frames.len() ==> (#[trigger] self.frames[i]).0 != (
            #[trigger] self.frames[j]).0
        &&& 1 <= self.target_depth <= MAX_DEPTH
        &&& self.late <= self.total
    }

    /// Whether a frame comes after its turn to be played.
    pub open spec fn is_late(self, seq: u16) -> bool {
        self.next matches Some(next) && distance(seq, next) > HALF_RANGE
    }

    /// Whether a frame is taken in: it is not late, not there yet, and there is room.
    pub open spec fn takes(self, seq: u16) -> bool {
        &&& !self.is_late(seq)
        &&& position(self.frames, seq) == self.frames.len()
        &&& self.frames.len() < CAPACITY
    }

    /// The buffer after a frame came.
    pub open spec fn push(self, seq: u16, pcm: Seq<i16>) -> JitterView {
        JitterView {
            frames: if self.takes(seq) {
                self.frames.insert(insert_position(self.frames, seq) as int, (seq, pcm))
            } else {
                self.frames
            },
            total: saturating_inc(self.total),
            late: if self.is_late(seq) {
                saturating_inc(self.late)
            } else {
                self.late
            },
            ..self
        }
    }

    /// The number that is to be played now, if as many frames wait as the target depth says: once
    /// playing has begun, the next one; before, that of the first frame.
    pub open spec fn due(self) -> Option<u16> {
        if self.frames.len() == 0 || self.frames.len() < self.target_depth {
            None
        } else {
            match self.next {
                Some(next) => Some(next),
                None => Some(self.frames[0].0),
            }
        }
    }

    /// The buffer after a frame was asked for, and the frame. If the number that is due is not
    /// there it is skipped.
    pub open spec fn pop(self) -> (JitterView, Option<Seq<i16>>) {
        match self.due() {
            None => (self, None),
            Some(seq) => {
                let at = position(self.frames, seq);
                if at < self.frames.len() {
                    (
                        JitterView {
                            frames: self.frames.remove(at as int),
                            next: Some(next_seq(seq)),
                            ..self
                        },
                        Some(self.frames[at as int].1),
                    )
                } else {
                    (JitterView { next: Some(next_seq(seq)), ..self }, None)
                }
            },
        }
    }

    /// Whether enough packets came to tell how many are late, and too many of them were for the
    /// loss to be called low.
    pub open spec fn loss_is_not_low(self) -> bool {
        self.total >= ADAPT_AFTER_PACKETS && self.late * DECREASE_ONE_IN >= self.total
    }

    /// How long hardly any packet has been late after some more time.
    pub open spec fn low_loss_after(self, elapsed_ns: u64) -> u64 {
        if self.loss_is_not_low() {
            0
        } else if self.low_loss_ns + elapsed_ns > u64::MAX {
            u64::MAX
        } else {
            (self.low_loss_ns + elapsed_ns) as u64
        }
    }

    /// The buffer after some time has passed: with enough packets, the target depth grows where
    /// too many were late, and shrinks where hardly any has been for long enough. The time of low
    /// loss and the counting then start again.
    pub open spec fn adapt(self, elapsed_ns: u64) -> JitterView {
        let low_loss_ns = self.low_loss_after(elapsed_ns);
        if self.total < ADAPT_AFTER_PACKETS {
            JitterView { low_loss_ns, ..self }
        } else if self.late * INCREASE_ONE_IN > self.total && self.target_depth < MAX_DEPTH {
            JitterView {
                target_depth: (self.target_depth + 1) as usize,
                low_loss_ns: 0,
                total: 0,
                late: 0,
                ..self
            }
        } else if self.late * DECREASE_ONE_IN < self.total && self.target_depth > 1 && low_loss_ns
            >= DECREASE_HOLDOFF_NS {
            JitterView {
                target_depth: (self.target_depth - 1) as usize,
                low_loss_ns: 0,
                total: 0,
                late: 0,
                ..self
            }
        } else {
            JitterView { low_loss_ns, ..self }
        }
    }

    /// The buffer after it was asked for `n` frames.
    pub open spec fn pops(self, n: nat) -> JitterView
        decreases n,
    {
        if n == 0 {
            self
        } else {
            self.pop().0.pops((n - 1) as nat)
        }
    }

    /// Every frame lies less than half the number space after `base`, in rising order.
    pub open spec fn ordered_from(self, base: u16) -> bool {
        &&& forall|i: int, j: int|
            0 <= i < j < self.frames.len() ==> distance((#[trigger] self.frames[i]).0, base)
                < distance((#[trigger] self.frames[j]).0, base)
        &&& forall|i: int|
            0 <= i < self.frames.len() ==> distance((#[trigger] self.frames[i]).0, base)
                < HALF_RANGE
    }
}

/// Whatever happens to a buffer, its invariant holds.
pub proof fn law_invariant_is_kept(buffer: JitterView, seq: u16, pcm: Seq<i16>, elapsed_ns: u64)
    requires
        buffer.wf(),
    ensures
        JitterView::new().wf(),
        buffer.push(seq, pcm).wf(),
        buffer.pop().0.wf(),
        buffer.adapt(elapsed_ns).wf(),
{
    let pushed = buffer.push(seq, pcm);
    find::lemma_first_index(buffer.frames, has_seq(seq));
    find::lemma_first_index(buffer.frames, is_after(seq));
    if buffer.takes(seq) {
        let at = insert_position(buffer.frames, seq) as int;
        assert forall|i: int, j: int| 0 <= i < j < pushed.frames.len() implies (
        #[trigger] pushed.frames[i]).0 != (#[trigger] pushed.frames[j]).0 by {
            let a = if i < at {
                i
            } else {
                i - 1
            };
            let b = if j < at {
                j
            } else {
                j - 1
            };
            if i != at {
                assert(pushed.frames[i] == buffer.frames[a]);
            }
            if j != at {
                assert(pushed.frames[j] == buffer.frames[b]);
            }
        }
    }
    if buffer.due() is Some {
        let popped = buffer.pop().0;
        let at = position(buffer.frames, buffer.due()->0) as int;
        find::lemma_first_index(buffer.frames, has_seq(buffer.due()->0));
        if at < buffer.frames.len() {
            assert forall|i: int, j: int| 0 <= i < j < popped.frames.len() implies (
            #[trigger] popped.frames[i]).0 != (#[trigger] popped.frames[j]).0 by {
                let a = if i < at {
                    i
                } else {
                    i + 1
                };
                let b = if j < at {
                    j
                } else {
                    j + 1
                };
                assert(popped.frames[i] == buffer.frames[a]);
                assert(popped.frames[j] == buffer.frames[b]);
            }
        }
    }
}

/// Among numbers less than half the number space after `base`, coming after is lying further from
/// `base`.
proof fn lemma_after_is_further(a: u16, b: u16, base: u16)
    requires
        distance(a, base) < HALF_RANGE,
        distance(b, base) < HALF_RANGE,
    ensures
        comes_after(a, b) == (distance(b, base) < distance(a, base)),
        distance(a, base) == distance(b, base) ==> a == b,
{
}

/// Inserting a number between smaller and larger ones keeps rising numbers rising.
proof fn lemma_insert_rising(numbers: Seq<int>, at: int, x: int)
    requires
        0 <= at <= numbers.len(),
        forall|i: int, j: int|
            0 <= i < j < numbers.len() ==> (#[trigger] numbers[i]) < (#[trigger] numbers[j]),
        forall|i: int| 0 <= i < at ==> #[trigger] numbers[i] < x,
        forall|i: int| at <= i < numbers.len() ==> x < #[trigger] numbers[i],
    ensures
        forall|i: int, j: int|
            0 <= i < j < numbers.insert(at, x).len() ==> (#[trigger] numbers.insert(at, x)[i]) < (
            #[trigger] numbers.insert(at, x)[j]),
{
}

/// The frames stay in order, counted from `base`, whatever frame comes in between, unless it is
/// taken in though it lies half the number space or more after `base`.
pub proof fn law_push_keeps_order(buffer: JitterView, base: u16, seq: u16, pcm: Seq<i16>)
    requires
        buffer.ordered_from(base),
        buffer.takes(seq) ==> distance(seq, base) < HALF_RANGE,
    ensures
        buffer.push(seq, pcm).ordered_from(base),
{
    if buffer.takes(seq) {
        let frames = buffer.frames;
        let pushed = buffer.push(seq, pcm).frames;
        let at = insert_position(frames, seq) as int;
        find::lemma_first_index(frames, is_after(seq));
        find::lemma_first_index(frames, has_seq(seq));
        let numbers = frames.map_values(|f: FrameView| distance(f.0, base));
        let x = distance(seq, base);
        assert forall|i: int| 0 <= i < at implies #[trigger] numbers[i] < x by {
            lemma_after_is_further(frames[i].0, seq, base);
            assert(!comes_after(frames[i].0, seq));
            assert(frames[i].0 != seq);
        }
        assert forall|i: int| at <= i < numbers.len() implies x < #[trigger] numbers[i] by {
            lemma_after_is_further(frames[at].0, seq, base);
            assert(at < i ==> distance(frames[at].0, base) < distance(frames[i].0, base));
        }
        assert forall|i: int, j: int| 0 <= i < j < numbers.len() implies (#[trigger] numbers[i]) < (
        #[trigger] numbers[j]) by {
            assert(distance(frames[i].0, base) < distance(frames[j].0, base));
        }
        lemma_insert_rising(numbers, at, x);
        let all = numbers.insert(at, x);
        assert(pushed.map_values(|f: FrameView| distance(f.0, base)) =~= all);
        assert forall|i: int, j: int| 0 <= i < j < pushed.len() implies distance(
            (#[trigger] pushed[i]).0,
            base,
        ) < distance((#[trigger] pushed[j]).0, base) by {
            assert(all[i] == distance(pushed[i].0, base));
            assert(all[j] == distance(pushed[j].0, base));
        }
        assert forall|i: int| 0 <= i < pushed.len() implies distance((#[trigger] pushed[i]).0, base)
            < HALF_RANGE by {
            if i < at {
                assert(pushed[i] == frames[i]);
            } else if i > at {
                assert(pushed[i] == frames[i - 1]);
            }
        }
    }
}

/// Playing goes on in order: frames that are in order from the number that is due are, after it
/// was played or skipped, in order from the next one.
pub proof fn law_pop_keeps_order(buffer: JitterView)
    requires
        buffer.due() matches Some(seq) && buffer.ordered_from(seq),
    ensures
        buffer.pop().0.next == Some(next_seq(buffer.due()->0)),
        buffer.pop().0.ordered_from(next_seq(buffer.due()->0)),
{
    let seq = buffer.due()->0;
    let frames = buffer.frames;
    let popped = buffer.pop().0.frames;
    let at = position(frames, seq) as int;
    find::lemma_first_index(frames, has_seq(seq));
    if at < frames.len() {
        assert forall|i: int| 0 <= i < popped.len() implies popped[i].0 != seq && distance(
            (#[trigger] popped[i]).0,
            next_seq(seq),
        ) == distance(popped[i].0, seq) - 1 by {
            if i < at {
                assert(popped[i] == frames[i]);
                assert(frames[i].0 != seq);
            } else {
                assert(popped[i] == frames[i + 1]);
                assert(distance(frames[at].0, seq) < distance(frames[i + 1].0, seq));
            }
        }
        assert forall|i: int, j: int| 0 <= i < j < popped.len() implies distance(
            (#[trigger] popped[i]).0,
            next_seq(seq),
        ) < distance((#[trigger] popped[j]).0, next_seq(seq)) by {
            let a = if i < at {
                i
            } else {
                i + 1
            };
            let b = if j < at {
                j
            } else {
                j + 1
            };
            assert(popped[i] == frames[a]);
            assert(popped[j] == frames[b]);
        }
        assert forall|i: int| 0 <= i < popped.len() implies distance(
            (#[trigger] popped[i]).0,
            next_seq(seq),
        ) < HALF_RANGE by {
            let a = if i < at {
                i
            } else {
                i + 1
            };
            assert(popped[i] == frames[a]);
        }
    } else {
        assert forall|i: int| 0 <= i < frames.len() implies distance(
            (#[trigger] frames[i]).0,
            next_seq(seq),
        ) == distance(frames[i].0, seq) - 1 by {
            assert(frames[i].0 != seq);
        }
    }
}

/// Frames that are in order from any number are in order from that of the first one, with which
/// playing begins.
pub proof fn law_playing_begins_in_order(buffer: JitterView, base: u16)
    requires
        buffer.ordered_from(base),
        buffer.frames.len() > 0,
    ensures
        buffer.ordered_from(buffer.frames[0].0),
{
    let first = buffer.frames[0].0;
    assert forall|i: int| 0 <= i < buffer.frames.len() implies distance(
        (#[trigger] buffer.frames[i]).0,
        first,
    ) == distance(buffer.frames[i].0, base) - distance(first, base) by {
        if i > 0 {
            assert(distance(buffer.frames[0].0, base) < distance(buffer.frames[i].0, base));
        }
    }
}

/// Nothing is played, and nothing changes, as long as fewer frames wait than the target depth says,
/// whether playing has begun or not.
pub proof fn law_nothing_is_played_below_the_target_depth(buffer: JitterView)
    requires
        buffer.frames.len() < buffer.target_depth,
    ensures
        buffer.pop() == (buffer, None::<Seq<i16>>),
{
}

/// Once playing has begun, a frame that waits is played when its turn comes: after as many
/// requests as its number lies ahead, the next request gives its samples, if at each request as
/// many frames waited as the target depth says.
pub proof fn law_waiting_frame_is_played_in_turn(buffer: JitterView, i: int)
    requires
        buffer.wf(),
        0 <= i < buffer.frames.len(),
        buffer.next is Some,
        forall|n: nat|
            n <= distance(buffer.frames[i].0, buffer.next->0) ==> (#[trigger] buffer.pops(
                n,
            )).frames.len() >= buffer.target_depth,
    ensures
        buffer.pops(distance(buffer.frames[i].0, buffer.next->0) as nat).pop().1 == Some(
            buffer.frames[i].1,
        ),
    decreases distance(buffer.frames[i].0, buffer.next->0),
{
    let next = buffer.next->0;
    let (seq, pcm) = buffer.frames[i];
    let at = position(buffer.frames, next) as int;
    find::lemma_first_index(buffer.frames, has_seq(next));
    assert(buffer.pops(0) == buffer);
    if seq == next {
        find::lemma_first_index_is(buffer.frames, has_seq(next), i);
    } else {
        let popped = buffer.pop().0;
        law_invariant_is_kept(buffer, 0, Seq::empty(), 0);
        assert(distance(seq, next_seq(next)) == distance(seq, next) - 1);
        assert forall|n: nat| n <= distance(seq, next_seq(next)) implies (#[trigger] popped.pops(
            n,
        )).frames.len() >= popped.target_depth by {
            assert(buffer.pops(n + 1) == popped.pops(n));
        }
        if at < buffer.frames.len() {
            let k = if i < at {
                i
            } else {
                i - 1
            };
            assert(popped.frames[k] == (seq, pcm));
            law_waiting_frame_is_played_in_turn(popped, k);
        } else {
            law_waiting_frame_is_played_in_turn(popped, i);
        }
    }
}

/// While the frames before one are played in order, enough frames wait, if those from it on are
/// enough.
proof fn lemma_enough_wait(buffer: JitterView, i: int, n: nat)
    requires
        buffer.wf(),
        0 <= i < buffer.frames.len(),
        buffer.next is Some,
        buffer.ordered_from(buffer.next->0),
        i + buffer.target_depth <= buffer.frames.len(),
        n <= distance(buffer.frames[i].0, buffer.next->0),
    ensures
        buffer.pops(n).frames.len() >= buffer.target_depth,
    decreases n,
{
    if n > 0 {
        let next = buffer.next->0;
        let popped = buffer.pop().0;
        let at = position(buffer.frames, next) as int;
        find::lemma_first_index(buffer.frames, has_seq(next));
        law_invariant_is_kept(buffer, 0, Seq::empty(), 0);
        law_pop_keeps_order(buffer);
        assert(distance(buffer.frames[i].0, next_seq(next)) == distance(buffer.frames[i].0, next)
            - 1);
        if at < buffer.frames.len() {
            if at > 0 {
                assert(distance(buffer.frames[0].0, next) < distance(buffer.frames[at].0, next));
            }
            assert(popped.frames[i - 1] == buffer.frames[i]);
            lemma_enough_wait(popped, i - 1, (n - 1) as nat);
        } else {
            lemma_enough_wait(popped, i, (n - 1) as nat);
        }
    }
}

/// Once playing has begun and the frames are in order, a frame with which and behind which as many
/// frames wait as the target depth says is played when its turn comes.
pub proof fn law_frame_with_enough_behind_it_is_played(buffer: JitterView, i: int)
    requires
        buffer.wf(),
        0 <= i < buffer.frames.len(),
        buffer.next is Some,
        buffer.ordered_from(buffer.next->0),
        i + buffer.target_depth <= buffer.frames.len(),
    ensures
        buffer.pops(distance(buffer.frames[i].0, buffer.next->0) as nat).pop().1 == Some(
            buffer.frames[i].1,
        ),
{
    assert forall|n: nat|
        n <= distance(buffer.frames[i].0, buffer.next->0) implies (#[trigger] buffer.pops(
        n,
    )).frames.len() >= buffer.target_depth by {
        lemma_enough_wait(buffer, i, n);
    }
    law_waiting_frame_is_played_in_turn(buffer, i);
}

/// The depth shrinks only after hardly any packet was late for five seconds: whenever it grows, or
/// with enough packets too many were late, that time starts again, and it never grows by more than
/// the time that has passed.
pub proof fn law_depth_shrinks_after_low_loss(buffer: JitterView, elapsed_ns: u64)
    ensures
        buffer.adapt(elapsed_ns).target_depth < buffer.target_depth ==> buffer.low_loss_ns
            + elapsed_ns >= DECREASE_HOLDOFF_NS && !buffer.loss_is_not_low(),
        buffer.adapt(elapsed_ns).target_depth != buffer.target_depth ==> buffer.adapt(
            elapsed_ns,
        ).low_loss_ns == 0,
        buffer.loss_is_not_low() ==> buffer.adapt(elapsed_ns).low_loss_ns == 0,
        buffer.adapt(elapsed_ns).low_loss_ns <= buffer.low_loss_ns + elapsed_ns,
{
}

/// A frame that comes in time into a buffer with room is among the waiting frames, once.
pub proof fn law_timely_frame_waits(buffer: JitterView, seq: u16, pcm: Seq<i16>)
    requires
        buffer.takes(seq),
    ensures
        buffer.push(seq, pcm).frames.contains((seq, pcm)),
        buffer.push(seq, pcm).frames.len() == buffer.frames.len() + 1,
{
    find::lemma_first_index(buffer.frames, is_after(seq));
    assert(buffer.push(seq, pcm).frames[insert_position(buffer.frames, seq) as int] == (seq, pcm));
}

/// A frame that is no more than three ahead of the one to be played next is taken in, in whatever
/// order frames come, if it is not there yet and there is room; one that is behind is discarded.
pub proof fn law_only_frames_behind_are_late(buffer: JitterView, seq: u16)
    requires
        buffer.next is Some,
        buffer.frames.len() < CAPACITY,
        position(buffer.frames, seq) == buffer.frames.len(),
    ensures
        distance(seq, buffer.next->0) <= 3 ==> buffer.takes(seq),
        0 < distance(buffer.next->0, seq) <= HALF_RANGE ==> !buffer.takes(seq),
{
}

/// A buffer starts empty, at a depth of one frame, with nothing counted and playing not begun.
pub proof fn law_new_buffer_is_empty()
    ensures
        JitterView::new().frames.len() == 0,
        JitterView::new().target_depth == 1,
        JitterView::new().next is None,
        JitterView::new().total == 0,
        JitterView::new().late == 0,
        JitterView::new().low_loss_ns == 0,
{
}

/// The number after 65535 is 0, and otherwise the next number is one larger.
pub proof fn law_numbers_go_round(s: u16)
    ensures
        next_seq(s) == (s + 1) % 0x1_0000,
{
}

/// A frame is taken in if it is not there yet, fewer than eight wait, and, once playing has begun,
/// it lies less than half the number space ahead of the next number, however many before it are
/// missing. The other frames stay, in their order.
pub proof fn law_every_frame_ahead_is_taken_in(buffer: JitterView, seq: u16, pcm: Seq<i16>)
    requires
        buffer.frames.len() < 8,
        forall|i: int| 0 <= i < buffer.frames.len() ==> (#[trigger] buffer.frames[i]).0 != seq,
        buffer.next matches Some(next) ==> (seq - next) % 0x1_0000 < 0x8000,
    ensures
        exists|at: int|
            0 <= at <= buffer.frames.len() && buffer.push(seq, pcm).frames
                == #[trigger] buffer.frames.insert(at, (seq, pcm)),
        buffer.push(seq, pcm).late == buffer.late,
{
    find::lemma_first_index(buffer.frames, has_seq(seq));
    find::lemma_first_index(buffer.frames, is_after(seq));
    let at = insert_position(buffer.frames, seq) as int;
    assert(buffer.push(seq, pcm).frames == buffer.frames.insert(at, (seq, pcm)));
}

/// A frame that is there already, that finds eight others, or that lies behind the next number is
/// not taken in, and the waiting frames stay as they are.
pub proof fn law_other_frames_are_not_taken_in(buffer: JitterView, seq: u16, pcm: Seq<i16>)
    requires
        buffer.frames.len() >= 8 || (exists|i: int|
            0 <= i < buffer.frames.len() && (#[trigger] buffer.frames[i]).0 == seq) || (
        buffer.next matches Some(next) && (seq - next) % 0x1_0000 >= 0x8000),
    ensures
        buffer.push(seq, pcm).frames == buffer.frames,
{
    find::lemma_first_index(buffer.frames, has_seq(seq));
    if exists|i: int| 0 <= i < buffer.frames.len() && (#[trigger] buffer.frames[i]).0 == seq {
        let i = choose|i: int| 0 <= i < buffer.frames.len() && (#[trigger] buffer.frames[i]).0
            == seq;
        assert(has_seq(seq)(buffer.frames[i]));
    }
}

/// Every packet that comes counts, and counts as late exactly if playing has begun and the packet
/// lies behind the next number. Nothing else is changed by one.
pub proof fn law_packets_are_counted(buffer: JitterView, seq: u16, pcm: Seq<i16>)
    requires
        buffer.total < u64::MAX,
        buffer.late < u64::MAX,
    ensures
        buffer.push(seq, pcm).total == buffer.total + 1,
        buffer.push(seq, pcm).late == buffer.late + (if buffer.next is Some && (seq
            - buffer.next->0) % 0x1_0000 >= 0x8000 {
            1int
        } else {
            0
        }),
        buffer.push(seq, pcm).next == buffer.next,
        buffer.push(seq, pcm).target_depth == buffer.target_depth,
        buffer.push(seq, pcm).low_loss_ns == buffer.low_loss_ns,
{
}

/// What is played is a frame that waited, with the number that was next, or before playing has
/// begun the first one. It no longer waits, and the others do.
pub proof fn law_played_frame_waited(buffer: JitterView)
    requires
        buffer.pop().1 is Some,
    ensures
        exists|i: int|
            {
                &&& 0 <= i < buffer.frames.len()
                &&& (#[trigger] buffer.frames[i]).1 == buffer.pop().1->0
                &&& buffer.frames[i].0 == (match buffer.next {
                    Some(next) => next,
                    None => buffer.frames[0].0,
                })
                &&& buffer.pop().0.frames == buffer.frames.remove(i)
            },
        buffer.frames.len() >= buffer.target_depth,
{
    let seq = buffer.due()->0;
    find::lemma_first_index(buffer.frames, has_seq(seq));
    let at = position(buffer.frames, seq) as int;
    assert(buffer.frames[at].1 == buffer.pop().1->0);
}

/// With as many frames waiting as the target depth says, a request gives something exactly if the
/// next number is among them, or if playing has not begun yet; in any case the next number goes on
/// by one, and no frame is lost but the one that is played.
pub proof fn law_every_request_goes_on(buffer: JitterView)
    requires
        buffer.frames.len() >= buffer.target_depth,
        buffer.frames.len() > 0,
    ensures
        ({
            let expected = match buffer.next {
                Some(next) => next,
                None => buffer.frames[0].0,
            };
            let (after, played) = buffer.pop();
            &&& after.next matches Some(next) && next == (expected + 1) % 0x1_0000
            &&& played is Some == (exists|i: int|
                0 <= i < buffer.frames.len() && (#[trigger] buffer.frames[i]).0 == expected)
            &&& played is None ==> after.frames == buffer.frames
            &&& after.target_depth == buffer.target_depth
            &&& after.total == buffer.total
            &&& after.late == buffer.late
            &&& after.low_loss_ns == buffer.low_loss_ns
        }),
{
    let seq = buffer.due()->0;
    find::lemma_first_index(buffer.frames, has_seq(seq));
    let at = position(buffer.frames, seq) as int;
    if at < buffer.frames.len() {
        assert(buffer.frames[at].0 == seq);
    }
    assert forall|i: int|
        0 <= i < buffer.frames.len() && (#[trigger] buffer.frames[i]).0 == seq implies at
        < buffer.frames.len() by {
        assert(has_seq(seq)(buffer.frames[i]));
    }
}

/// After frames were lost on the way, playing goes on: the next frame that comes, however far ahead
/// it lies below half the number space, is played after one request without a frame for each that
/// is missing.
pub proof fn law_playing_goes_on_after_a_loss(buffer: JitterView, seq: u16, pcm: Seq<i16>, n: nat)
    requires
        buffer.frames.len() == 0,
        buffer.target_depth == 1,
        buffer.next matches Some(next) && (seq - next) % 0x1_0000 < 0x8000 && n <= (seq - next)
            % 0x1_0000,
    ensures
        buffer.push(seq, pcm).pops(n).pop().1 == (if n == (seq - buffer.next->0) % 0x1_0000 {
            Some(pcm)
        } else {
            None
        }),
{
    find::lemma_first_index(buffer.frames, has_seq(seq));
    find::lemma_first_index(buffer.frames, is_after(seq));
    let pushed = buffer.push(seq, pcm);
    assert(pushed.frames =~= seq![(seq, pcm)]);
    lemma_one_frame_waits(pushed, n);
}

proof fn lemma_one_frame_waits(buffer: JitterView, n: nat)
    requires
        buffer.frames.len() == 1,
        buffer.target_depth == 1,
        buffer.next matches Some(next) && n <= (buffer.frames[0].0 - next) % 0x1_0000,
    ensures
        buffer.pops(n).pop().1 == (if n == (buffer.frames[0].0 - buffer.next->0) % 0x1_0000 {
            Some(buffer.frames[0].1)
        } else {
            None
        }),
    decreases n,
{
    let next = buffer.next->0;
    find::lemma_first_index(buffer.frames, has_seq(next));
    if buffer.frames[0].0 == next {
        find::lemma_first_index_is(buffer.frames, has_seq(next), 0);
    } else {
        find::lemma_first_index_is(buffer.frames, has_seq(next), 1);
        if n > 0 {
            lemma_one_frame_waits(buffer.pop().0, (n - 1) as nat);
        }
    }
}

/// The frames that are played when frames with consecutive numbers from `start` on come and are
/// asked for in turn.
pub open spec fn played_in_turn(
    buffer: JitterView,
    start: u16,
    pcms: Seq<Seq<i16>>,
) -> Seq<Option<Seq<i16>>>
    decreases pcms.len(),
{
    if pcms.len() == 0 {
        Seq::empty()
    } else {
        let (after, played) = buffer.push(start, pcms[0]).pop();
        seq![played] + played_in_turn(
            after,
            ((start + 1) % 0x1_0000) as u16,
            pcms.drop_first(),
        )
    }
}

/// Frames with consecutive numbers that come in order are all played, in order, however many there
/// are, whether they are the first ones or playing has begun.
pub proof fn law_consecutive_frames_are_all_played(
    buffer: JitterView,
    start: u16,
    pcms: Seq<Seq<i16>>,
)
    requires
        buffer.frames.len() == 0,
        buffer.target_depth == 1,
        buffer.next matches Some(next) ==> next == start,
    ensures
        played_in_turn(buffer, start, pcms) == pcms.map_values(|pcm: Seq<i16>| Some(pcm)),
    decreases pcms.len(),
{
    let all = pcms.map_values(|pcm: Seq<i16>| Some(pcm));
    if pcms.len() == 0 {
        assert(played_in_turn(buffer, start, pcms) =~= all);
    } else {
        let pcm = pcms[0];
        find::lemma_first_index(buffer.frames, has_seq(start));
        find::lemma_first_index(buffer.frames, is_after(start));
        let pushed = buffer.push(start, pcm);
        assert(pushed.frames =~= seq![(start, pcm)]);
        find::lemma_first_index_is(pushed.frames, has_seq(start), 0);
        let after = pushed.pop().0;
        assert(after.frames.len() == 0);
        law_consecutive_frames_are_all_played(
            after,
            ((start + 1) % 0x1_0000) as u16,
            pcms.drop_first(),
        );
        assert(pcms.drop_first().map_values(|pcm: Seq<i16>| Some(pcm)) =~= all.drop_first());
        assert(seq![Some(pcm)] + all.drop_first() =~= all);
    }
}

/// With at least a hundred packets the depth grows, if it is below four, exactly when more than one
/// in fifty of the packets that came were late, and then by one frame; with fewer packets it does
/// not change.
pub proof fn law_depth_grows_with_the_share_of_late_packets(buffer: JitterView, elapsed_ns: u64)
    requires
        1 <= buffer.target_depth <= 4,
    ensures
        buffer.adapt(elapsed_ns).target_depth > buffer.target_depth <==> buffer.total >= 100
            && buffer.target_depth < 4 && 50 * buffer.late > buffer.total,
        buffer.adapt(elapsed_ns).target_depth <= buffer.target_depth + 1,
        buffer.total < 100 ==> buffer.adapt(elapsed_ns).target_depth == buffer.target_depth,
{
}

/// With at least a hundred packets the depth shrinks, if it is above one, exactly when less than
/// one in a thousand of the packets that came was late and with the time that has passed loss has
/// been low for five seconds, and then by one frame.
pub proof fn law_depth_shrinks_with_the_share_of_late_packets(buffer: JitterView, elapsed_ns: u64)
    requires
        1 <= buffer.target_depth <= 4,
    ensures
        buffer.adapt(elapsed_ns).target_depth < buffer.target_depth <==> buffer.total >= 100
            && buffer.target_depth > 1 && 1000 * buffer.late < buffer.total && buffer.low_loss_ns
            + elapsed_ns >= 5_000_000_000,
        buffer.adapt(elapsed_ns).target_depth >= buffer.target_depth - 1,
{
}

/// Adapting touches no frame. Counting starts again exactly when the depth has changed, and the time
/// of low loss goes on with the time that passes unless the depth has changed or, with at least a
/// hundred packets, one in a thousand or more was late.
pub proof fn law_adapting_touches_no_frame(buffer: JitterView, elapsed_ns: u64)
    requires
        buffer.low_loss_ns + elapsed_ns <= u64::MAX,
    ensures
        ({
            let after = buffer.adapt(elapsed_ns);
            let changed = after.target_depth != buffer.target_depth;
            &&& after.frames == buffer.frames
            &&& after.next == buffer.next
            &&& changed ==> after.total == 0 && after.late == 0
            &&& !changed ==> after.total == buffer.total && after.late == buffer.late
            &&& after.low_loss_ns == (if changed || (buffer.total >= 100 && 1000 * buffer.late
                >= buffer.total) {
                0
            } else {
                buffer.low_loss_ns + elapsed_ns
            })
        }),
{
}

/// A frame in the buffer.
struct JitterFrame {
    seq_num: u16,
    pcm: Vec<i16>,
}

spec fn frames_view(frames: Seq<JitterFrame>) -> Seq<FrameView> {
    frames.map_values(|f: JitterFrame| (f.seq_num, f.pcm@))
}

/// The jitter buffer of one peer.
pub struct JitterBuffer {
    frames: Vec<JitterFrame>,
    target_depth: usize,
    next_playout_seq: Option<u16>,
    total_packets: u64,
    late_packets: u64,
    low_loss_ns: u64,
}

impl View for JitterBuffer {
    type V = JitterView;

    closed spec fn view(&self) -> JitterView {
        JitterView {
            frames: frames_view(self.frames@),
            target_depth: self.target_depth,
            next: self.next_playout_seq,
            total: self.total_packets,
            late: self.late_packets,
            low_loss_ns: self.low_loss_ns,
        }
    }
}

fn inc(x: u64) -> (y: u64)
    ensures
        y == saturating_inc(x),
{
    if x == u64::MAX {
        x
    } else {
        x + 1
    }
}

fn product(x: u64, y: u64) -> (z: u128)
    ensures
        z == x * y,
{
    assert(x * y <= 0xffff_ffff_ffff_ffff * 0xffff_ffff_ffff_ffff) by (nonlinear_arith)
        requires
            x <= 0xffff_ffff_ffff_ffff,
            y <= 0xffff_ffff_ffff_ffff,
    ;
    assert(0 <= x * y) by (nonlinear_arith);
    x as u128 * y as u128
}

impl Default for JitterBuffer {
    fn default() -> (buffer: Self)
        ensures
            buffer@ == JitterView::new(),
            buffer@.wf(),
    {
        JitterBuffer::new()
    }
}

impl JitterBuffer {
    /// An empty buffer.
    pub fn new() -> (buffer: Self)
        ensures
            buffer@ == JitterView::new(),
            buffer@.wf(),
    {
        let buffer = JitterBuffer {
            frames: Vec::new(),
            target_depth: INITIAL_DEPTH,
            next_playout_seq: None,
            total_packets: 0,
            late_packets: 0,
            low_loss_ns: 0,
        };
        assert(buffer@ =~= JitterView::new());
        buffer
    }

    /// The target depth, in frames.
    pub fn target_depth(&self) -> (depth: usize)
        ensures
            depth == self@.target_depth,
    {
        self.target_depth
    }

    /// The number of frames that wait.
    pub fn buffered_frames(&self) -> (n: usize)
        ensures
            n == self@.frames.len(),
    {
        self.frames.len()
    }

    /// Takes in a decoded frame, unless it is late, a duplicate, or one too many.
    pub fn push(&mut self, seq_num: u16, pcm: Vec<i16>)
        ensures
            final(self)@ == old(self)@.push(seq_num, pcm@),
            old(self)@.wf() ==> final(self)@.wf(),
    {
        let ghost before = self@;
        proof {
            if before.wf() {
                law_invariant_is_kept(before, seq_num, pcm@, 0);
            }
        }
        self.total_packets = inc(self.total_packets);
        if let Some(next) = self.next_playout_seq {
            let diff: u16 = seq_num.wrapping_sub(next);
            if diff > HALF_RANGE {
                self.late_packets = inc(self.late_packets);
                return;
            }
        }
        let n: usize = self.frames.len();
        let mut pos: usize = n;
        let mut found: bool = false;
        let mut duplicate: bool = false;
        let mut i: usize = 0;
        while i < n
            invariant
                i <= n == self.frames@.len(),
                before.frames == frames_view(self.frames@),
                found ==> pos < i && comes_after(before.frames[pos as int].0, seq_num) && (forall|
                    j: int,
                |
                    0 <= j < pos ==> !comes_after((#[trigger] before.frames[j]).0, seq_num)),
                !found ==> pos == n && (forall|j: int|
                    0 <= j < i ==> !comes_after((#[trigger] before.frames[j]).0, seq_num)),
                duplicate ==> position(before.frames, seq_num) < n,
                !duplicate ==> (forall|j: int|
                    0 <= j < i ==> (#[trigger] before.frames[j]).0 != seq_num),
            decreases n - i,
        {
            let other: u16 = self.frames[i].seq_num;
            assert(before.frames[i as int].0 == other);
            let diff: u16 = other.wrapping_sub(seq_num);
            if !found && diff > 0 && diff < HALF_RANGE {
                found = true;
                pos = i;
            }
            if other == seq_num {
                proof {
                    find::lemma_first_index(before.frames, has_seq(seq_num));
                }
                duplicate = true;
            }
            i = i + 1;
        }
        proof {
            find::lemma_first_index_is(before.frames, is_after(seq_num), pos as int);
            if !duplicate {
                find::lemma_first_index_is(before.frames, has_seq(seq_num), n as int);
            }
        }
        if duplicate || n >= CAPACITY {
            return;
        }
        let frame = JitterFrame { seq_num, pcm };
        self.frames.insert(pos, frame);
        assert(frames_view(self.frames@) =~= before.frames.insert(pos as int, (seq_num, pcm@)));
    }

    /// Gives the frame that is due. Where it gives none, fewer frames wait than the target depth
    /// says, or the frame that is due is missing and must be concealed.
    pub fn pop(&mut self) -> (frame: Option<Vec<i16>>)
        ensures
            final(self)@ == old(self)@.pop().0,
            match old(self)@.pop().1 {
                Some(pcm) => frame is Some && frame->0@ == pcm,
                None => frame is None,
            },
            old(self)@.wf() ==> final(self)@.wf(),
    {
        let ghost before = self@;
        proof {
            if before.wf() {
                law_invariant_is_kept(before, 0, Seq::empty(), 0);
            }
        }
        let n: usize = self.frames.len();
        if n == 0 || n < self.target_depth {
            return None;
        }
        let expected: u16 = match self.next_playout_seq {
            Some(next) => next,
            None => self.frames[0].seq_num,
        };
        assert(before.frames[0].0 == self.frames@[0].seq_num);
        let mut at: usize = 0;
        while at < n && self.frames[at].seq_num != expected
            invariant
                at <= n == self.frames@.len(),
                before.frames == frames_view(self.frames@),
                forall|j: int| 0 <= j < at ==> (#[trigger] before.frames[j]).0 != expected,
            decreases n - at,
        {
            assert(before.frames[at as int].0 == self.frames@[at as int].seq_num);
            at = at + 1;
        }
        self.next_playout_seq = Some(if expected == u16::MAX {
            0
        } else {
            expected + 1
        });
        if at < n {
            assert(before.frames[at as int].0 == self.frames@[at as int].seq_num);
            proof {
                find::lemma_first_index_is(before.frames, has_seq(expected), at as int);
            }
            let frame = self.frames.remove(at);
            assert(frames_view(self.frames@) =~= before.frames.remove(at as int));
            assert(self@ =~= before.pop().0);
            Some(frame.pcm)
        } else {
            proof {
                find::lemma_first_index_is(before.frames, has_seq(expected), at as int);
            }
            assert(self@ =~= before.pop().0);
            None
        }
    }

    /// Adapts the target depth to how many packets were late; to be called now and then.
    pub fn adapt(&mut self, elapsed_ns: u64)
        ensures
            final(self)@ == old(self)@.adapt(elapsed_ns),
            old(self)@.wf() ==> final(self)@.wf(),
    {
        let ghost before = self@;
        proof {
            if before.wf() {
                law_invariant_is_kept(before, 0, Seq::empty(), elapsed_ns);
            }
        }
        self.low_loss_ns = self.low_loss_ns.saturating_add(elapsed_ns);
        if self.total_packets < ADAPT_AFTER_PACKETS {
            return;
        }
        let total: u128 = self.total_packets as u128;
        let low_loss: bool = product(self.late_packets, DECREASE_ONE_IN) < total;
        if !low_loss {
            self.low_loss_ns = 0;
        }
        if product(self.late_packets, INCREASE_ONE_IN) > total && self.target_depth < MAX_DEPTH {
            self.target_depth = self.target_depth + 1;
            self.low_loss_ns = 0;
            self.reset_stats();
        } else if low_loss && self.target_depth > 1 && self.low_loss_ns >= DECREASE_HOLDOFF_NS {
            self.target_depth = self.target_depth - 1;
            self.low_loss_ns = 0;
            self.reset_stats();
        }
    }

    fn reset_stats(&mut self)
        ensures
            final(self)@ == (JitterView { total: 0, late: 0, ..old(self)@ }),
            final(self).frames == old(self).frames,
    {
        self.total_packets = 0;
        self.late_packets = 0;
    }

    /// Empties the buffer and starts anew, as when a peer reconnects.
    pub fn reset(&mut self)
        ensures
            final(self)@ == JitterView::new(),
            final(self)@.wf(),
    {
        self.frames.clear();
        self.next_playout_seq = None;
        self.target_depth = INITIAL_DEPTH;
        self.reset_stats();
        self.low_loss_ns = 0;
        assert(self@ =~= JitterView::new());
    }
}

} // verus!
