//! Cutting a stream of samples into frames, and into the blocks of the noise suppressor.
use vstd::prelude::*;

use crate::bytes;
use crate::codec::FRAME_SAMPLES;

verus! {

/// Samples of a block of the noise suppressor, 10 ms.
pub const DENOISE_FRAME_SIZE: usize = 480;

/// Splits off the first `n` samples.
fn split_front<T: Copy>(samples: &mut Vec<T>, n: usize) -> (front: Vec<T>)
    requires
        n <= old(samples)@.len(),
    ensures
        front@ == old(samples)@.take(n as int),
        final(samples)@ == old(samples)@.skip(n as int),
{
    let ghost all = samples@;
    let mut rest: Vec<T> = samples.split_off(n);
    assert(samples@ =~= all.take(n as int));
    assert(rest@ =~= all.skip(n as int));
    std::mem::swap(samples, &mut rest);
    rest
}

/// Cuts a stream of samples into frames.
pub struct Framer<T> {
    accum: Vec<T>,
}

impl<T> View for Framer<T> {
    type V = Seq<T>;

    /// The samples that have not been given out yet.
    closed spec fn view(&self) -> Seq<T> {
        self.accum@
    }
}

/// What is left of a stream after a frame was asked for, and the frame.
pub open spec fn cut<T>(samples: Seq<T>) -> (Seq<T>, Option<Seq<T>>) {
    if samples.len() < FRAME_SAMPLES {
        (samples, None)
    } else {
        (samples.skip(FRAME_SAMPLES as int), Some(samples.take(FRAME_SAMPLES as int)))
    }
}

/// A frame of 120 samples is cut off exactly when there are that many: the frame and what is left
/// are the stream.
pub proof fn law_frames_are_cut_off_in_order<T>(samples: Seq<T>)
    ensures
        ({
            let (rest, frame) = cut(samples);
            &&& frame is Some == (samples.len() >= 120)
            &&& frame is None ==> rest == samples
            &&& frame matches Some(frame) ==> frame.len() == 120 && frame + rest == samples
        }),
{
    if samples.len() >= 120 {
        assert(samples.take(120) + samples.skip(120) =~= samples);
    }
}

impl<T: Copy> Framer<T> {
    pub fn new() -> (framer: Self)
        ensures
            framer@ == Seq::<T>::empty(),
    {
        Framer { accum: Vec::new() }
    }

    /// Takes in samples.
    pub fn push(&mut self, samples: &[T])
        ensures
            final(self)@ == old(self)@ + samples@,
    {
        bytes::extend_from(&mut self.accum, samples);
    }

    /// Gives out the next frame, as soon as there are enough samples.
    pub fn next_frame(&mut self) -> (frame: Option<Vec<T>>)
        ensures
            final(self)@ == cut(old(self)@).0,
            frame is Some == cut(old(self)@).1 is Some,
            frame matches Some(frame) ==> frame@ == cut(old(self)@).1->0,
            match frame {
                Some(frame) => {
                    &&& old(self)@.len() >= FRAME_SAMPLES
                    &&& frame@ == old(self)@.take(FRAME_SAMPLES as int)
                    &&& final(self)@ == old(self)@.skip(FRAME_SAMPLES as int)
                },
                None => old(self)@.len() < FRAME_SAMPLES && final(self)@ == old(self)@,
            },
    {
        if self.accum.len() < FRAME_SAMPLES {
            return None;
        }
        Some(split_front(&mut self.accum, FRAME_SAMPLES))
    }
}

/// The whole frames of some samples. A rest that makes no frame is dropped.
pub open spec fn spec_frames_of<T>(samples: Seq<T>) -> Seq<Seq<T>> {
    Seq::new(
        samples.len() / (FRAME_SAMPLES as nat),
        |i: int| samples.subrange(FRAME_SAMPLES * i, FRAME_SAMPLES * i + FRAME_SAMPLES),
    )
}

pub open spec fn views<T>(frames: Seq<Vec<T>>) -> Seq<Seq<T>> {
    frames.map_values(|f: Vec<T>| f@)
}

/// Cuts samples into whole frames.
pub fn frames_of<T: Copy>(samples: &[T]) -> (frames: Vec<Vec<T>>)
    ensures
        views(frames@) == spec_frames_of(samples@),
{
    let mut frames: Vec<Vec<T>> = Vec::new();
    let len: usize = samples.len();
    let mut at: usize = 0;
    while len - at >= FRAME_SAMPLES
        invariant
            at <= len == samples@.len(),
            at == FRAME_SAMPLES * frames@.len(),
            forall|i: int|
                0 <= i < frames@.len() ==> (#[trigger] frames@[i])@ == samples@.subrange(
                    FRAME_SAMPLES * i,
                    FRAME_SAMPLES * i + FRAME_SAMPLES,
                ),
        decreases len - at,
    {
        let frame = vstd::slice::slice_subrange(samples, at, at + FRAME_SAMPLES);
        frames.push(bytes::copy_of(frame));
        at = at + FRAME_SAMPLES;
    }
    assert(views(frames@) =~= spec_frames_of(samples@));
    frames
}

/// What a noise suppressor holds: the samples that make no whole block yet, and whether it is on.
#[verifier::ext_equal]
pub struct SuppressorView<T> {
    pub accum: Seq<T>,
    pub enabled: bool,
}

impl<T> SuppressorView<T> {
    /// The suppressor after a frame, and what comes out: off, the frame itself; on, the next block
    /// if there are enough samples for one.
    pub open spec fn process(self, frame: Seq<T>) -> (SuppressorView<T>, Option<Seq<T>>) {
        let all = self.accum + frame;
        if !self.enabled {
            (self, Some(frame))
        } else if all.len() >= DENOISE_FRAME_SIZE {
            (
                SuppressorView { accum: all.skip(DENOISE_FRAME_SIZE as int), ..self },
                Some(all.take(DENOISE_FRAME_SIZE as int)),
            )
        } else {
            (SuppressorView { accum: all, ..self }, None)
        }
    }

    /// The suppressor after some frames, and everything that came out.
    pub open spec fn process_all(self, frames: Seq<Seq<T>>) -> (SuppressorView<T>, Seq<T>)
        decreases frames.len(),
    {
        if frames.len() == 0 {
            (self, Seq::empty())
        } else {
            let (before, out) = self.process_all(frames.drop_last());
            let (after, more) = before.process(frames.last());
            (
                after,
                match more {
                    Some(more) => out + more,
                    None => out,
                },
            )
        }
    }
}

/// All samples of some frames, one after the other.
pub open spec fn joined<T>(frames: Seq<Seq<T>>) -> Seq<T>
    decreases frames.len(),
{
    if frames.len() == 0 {
        Seq::empty()
    } else {
        joined(frames.drop_last()) + frames.last()
    }
}

/// While the suppressor is on no sample is lost, repeated or moved: what came out, followed by
/// what is held back, is what was held back at first, followed by what went in.
pub proof fn law_samples_are_conserved<T>(s: SuppressorView<T>, frames: Seq<Seq<T>>)
    requires
        s.enabled,
    ensures
        s.process_all(frames).0.enabled,
        s.process_all(frames).1 + s.process_all(frames).0.accum == s.accum + joined(frames),
    decreases frames.len(),
{
    if frames.len() == 0 {
        assert(s.process_all(frames).1 + s.accum =~= s.accum + joined(frames));
    } else {
        law_samples_are_conserved(s, frames.drop_last());
        let (before, out) = s.process_all(frames.drop_last());
        let all = before.accum + frames.last();
        let last = frames.last();
        assert(out + all =~= (out + before.accum) + last);
        assert((s.accum + joined(frames.drop_last())) + last =~= s.accum + joined(frames));
        if all.len() >= DENOISE_FRAME_SIZE {
            let n = DENOISE_FRAME_SIZE as int;
            assert((out + all.take(n)) + all.skip(n) =~= out + all);
        }
    }
}

/// No more than what makes a whole block is ever held back, as long as no frame is longer than a
/// block.
pub proof fn law_less_than_a_block_is_held_back<T>(s: SuppressorView<T>, frame: Seq<T>)
    requires
        s.accum.len() < DENOISE_FRAME_SIZE,
        frame.len() <= DENOISE_FRAME_SIZE,
    ensures
        s.process(frame).0.accum.len() < DENOISE_FRAME_SIZE,
{
}

/// While it is off, a frame comes out as it went in, and what is held back stays.
pub proof fn law_off_is_transparent<T>(s: SuppressorView<T>, frame: Seq<T>)
    requires
        !s.enabled,
    ensures
        s.process(frame) == (s, Some(frame)),
{
}

/// While it is on, a block of 480 samples comes out exactly when there are that many: the oldest
/// ones, in order. The rest is held back.
pub proof fn law_blocks_come_out_when_full<T>(s: SuppressorView<T>, frame: Seq<T>)
    requires
        s.enabled,
    ensures
        ({
            let (after, out) = s.process(frame);
            let all = s.accum + frame;
            &&& after.enabled
            &&& out is Some == (s.accum.len() + frame.len() >= 480)
            &&& out matches Some(block) ==> block.len() == 480 && block + after.accum == all
            &&& out is None ==> after.accum == all
        }),
{
    let all = s.accum + frame;
    if all.len() >= 480 {
        assert(all.take(480) + all.skip(480) =~= all);
    }
}

/// Samples are cut into as many frames of 120 as they make, without gap or overlap: the sample at a
/// place of a frame is the one at that place of the samples from the frame on.
pub proof fn law_frames_have_every_sample<T>(samples: Seq<T>, i: int, j: int)
    requires
        0 <= i < samples.len() / 120,
        0 <= j < 120,
    ensures
        spec_frames_of(samples).len() == samples.len() / 120,
        spec_frames_of(samples)[i].len() == 120,
        spec_frames_of(samples)[i][j] == samples[120 * i + j],
{
}

/// A frame has 120 samples, and a block of the noise suppressor four frames.
pub proof fn law_frame_and_block_sizes()
    ensures
        FRAME_SAMPLES == 120,
        DENOISE_FRAME_SIZE == 480,
{
}

/// Collects samples into the blocks on which noise suppression works.
pub struct NoiseSuppressor<T> {
    accum: Vec<T>,
    enabled: bool,
}

impl<T> View for NoiseSuppressor<T> {
    type V = SuppressorView<T>;

    closed spec fn view(&self) -> SuppressorView<T> {
        SuppressorView { accum: self.accum@, enabled: self.enabled }
    }
}

impl<T: Copy> Default for NoiseSuppressor<T> {
    fn default() -> (ns: Self)
        ensures
            ns@ == (SuppressorView { accum: Seq::<T>::empty(), enabled: true }),
    {
        NoiseSuppressor::new()
    }
}

impl<T: Copy> NoiseSuppressor<T> {
    /// A suppressor that is on.
    pub fn new() -> (ns: Self)
        ensures
            ns@ == (SuppressorView { accum: Seq::<T>::empty(), enabled: true }),
    {
        NoiseSuppressor { accum: Vec::new(), enabled: true }
    }

    /// Turns the suppressor on or off.
    pub fn set_enabled(&mut self, enabled: bool)
        ensures
            final(self)@ == (SuppressorView { enabled, ..old(self)@ }),
    {
        self.enabled = enabled;
    }

    pub fn is_enabled(&self) -> (enabled: bool)
        ensures
            enabled == self@.enabled,
    {
        self.enabled
    }

    /// Takes in a frame. While the suppressor is off the frame comes out at once; while it is on, a
    /// block comes out when there are enough samples for one, and is then to be denoised.
    pub fn process(&mut self, frame: &[T]) -> (out: Option<Vec<T>>)
        ensures
            final(self)@ == old(self)@.process(frame@).0,
            match old(self)@.process(frame@).1 {
                Some(samples) => out is Some && out->0@ == samples,
                None => out is None,
            },
    {
        if !self.enabled {
            return Some(bytes::copy_of(frame));
        }
        bytes::extend_from(&mut self.accum, frame);
        if self.accum.len() < DENOISE_FRAME_SIZE {
            return None;
        }
        Some(split_front(&mut self.accum, DENOISE_FRAME_SIZE))
    }
}

} // verus!
