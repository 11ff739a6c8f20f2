//! Voice activity: when voice begins and, after a hold time, ends.
use vstd::prelude::*;

verus! {

/// How voice activity is decided.
#[derive(Clone, Copy, Debug, PartialEq, Eq, Structural)]
pub struct VadConfig {
    /// Frames for which voice goes on after the last frame with voice, so that the ends of words
    /// are not cut off.
    pub hold_frames: u32,
}

impl Default for VadConfig {
    /// Twenty frames, that is 50 ms.
    fn default() -> (config: Self)
        ensures
            config == (VadConfig { hold_frames: 20 }),
    {
        VadConfig { hold_frames: 20 }
    }
}

/// Whether a frame has voice: it is loud enough, and where the noise suppressor gives its opinion
/// that is for voice.
pub open spec fn has_voice(loud: bool, opinion: Option<bool>) -> bool {
    loud && (opinion matches Some(voice) ==> voice)
}

/// What a detector holds.
pub struct VadView {
    pub hold_frames: u32,
    /// Frames for which voice still goes on.
    pub hold_left: u32,
    pub active: bool,
}

impl VadView {
    pub open spec fn new(config: VadConfig) -> VadView {
        VadView { hold_frames: config.hold_frames, hold_left: 0, active: false }
    }

    /// The detector after a frame. Voice ends with the first frame without voice after the hold
    /// time.
    pub open spec fn detect(self, voice: bool) -> VadView {
        if voice {
            VadView { hold_left: self.hold_frames, active: true, ..self }
        } else if self.hold_left > 0 {
            VadView { hold_left: (self.hold_left - 1) as u32, ..self }
        } else {
            VadView { active: false, ..self }
        }
    }

    /// The detector after some frames without voice.
    pub open spec fn silence(self, frames: nat) -> VadView
        decreases frames,
    {
        if frames == 0 {
            self
        } else {
            self.silence((frames - 1) as nat).detect(false)
        }
    }
}

proof fn lemma_hold_counts_down(vad: VadView, frames: nat)
    requires
        frames <= vad.hold_left,
    ensures
        vad.silence(frames) == (VadView { hold_left: (vad.hold_left - frames) as u32, ..vad }),
    decreases frames,
{
    if frames > 0 {
        lemma_hold_counts_down(vad, (frames - 1) as nat);
    }
}

/// After a frame with voice, voice goes on for exactly as many frames without voice as the hold
/// time says.
pub proof fn law_hold_time(vad: VadView, frames: nat)
    ensures
        vad.detect(true).silence(frames).active == (frames <= vad.hold_frames),
    decreases frames,
{
    let after = vad.detect(true);
    if frames <= vad.hold_frames {
        lemma_hold_counts_down(after, frames);
    } else {
        law_hold_time(vad, (frames - 1) as nat);
        if frames == vad.hold_frames + 1 {
            lemma_hold_counts_down(after, vad.hold_frames as nat);
        } else {
            lemma_silence_after_hold(vad, (frames - 1) as nat);
        }
    }
}

proof fn lemma_silence_after_hold(vad: VadView, frames: nat)
    requires
        frames > vad.hold_frames,
    ensures
        vad.detect(true).silence(frames).hold_left == 0,
    decreases frames,
{
    if frames == vad.hold_frames + 1 {
        lemma_hold_counts_down(vad.detect(true), vad.hold_frames as nat);
    } else {
        lemma_silence_after_hold(vad, (frames - 1) as nat);
    }
}

/// A frame has voice exactly if it is loud and the noise suppressor, where it has an opinion, takes
/// it for voice.
pub proof fn law_loud_and_taken_for_voice(loud: bool, opinion: bool)
    ensures
        has_voice(loud, None) == loud,
        has_voice(loud, Some(opinion)) == (loud && opinion),
{
}

/// Without a frame with voice a new detector never becomes active, and one frame with voice makes
/// any detector active.
pub proof fn law_only_voice_activates(config: VadConfig, vad: VadView, frames: nat)
    ensures
        !VadView::new(config).silence(frames).active,
        VadView::new(config).hold_frames == config.hold_frames,
        vad.detect(true).active,
        vad.detect(true).hold_frames == vad.hold_frames,
        vad.detect(false).hold_frames == vad.hold_frames,
        vad.detect(false).active ==> vad.active,
    decreases frames,
{
    if frames > 0 {
        law_only_voice_activates(config, vad, (frames - 1) as nat);
        lemma_silence_of_a_new_one(config, (frames - 1) as nat);
    }
}

proof fn lemma_silence_of_a_new_one(config: VadConfig, frames: nat)
    ensures
        VadView::new(config).silence(frames) == VadView::new(config),
    decreases frames,
{
    if frames > 0 {
        lemma_silence_of_a_new_one(config, (frames - 1) as nat);
    }
}

/// Decides from frame to frame whether there is voice.
pub struct VoiceActivityDetector {
    config: VadConfig,
    hold_counter: u32,
    is_active: bool,
}

impl View for VoiceActivityDetector {
    type V = VadView;

    closed spec fn view(&self) -> VadView {
        VadView {
            hold_frames: self.config.hold_frames,
            hold_left: self.hold_counter,
            active: self.is_active,
        }
    }
}

impl VoiceActivityDetector {
    pub fn new(config: VadConfig) -> (vad: Self)
        ensures
            vad@ == VadView::new(config),
    {
        VoiceActivityDetector { config, hold_counter: 0, is_active: false }
    }

    /// Whether there is voice, with one more frame: `loud` says whether its energy is above the
    /// threshold, and `opinion` whether the noise suppressor takes it for voice, if it is on.
    pub fn detect(&mut self, loud: bool, opinion: Option<bool>) -> (active: bool)
        ensures
            final(self)@ == old(self)@.detect(has_voice(loud, opinion)),
            active == final(self)@.active,
    {
        let voice: bool = match opinion {
            Some(opinion) => loud && opinion,
            None => loud,
        };
        if voice {
            self.hold_counter = self.config.hold_frames;
            self.is_active = true;
        } else if self.hold_counter > 0 {
            self.hold_counter = self.hold_counter - 1;
        } else {
            self.is_active = false;
        }
        self.is_active
    }

    pub fn is_active(&self) -> (active: bool)
        ensures
            active == self@.active,
    {
        self.is_active
    }

    pub fn set_config(&mut self, config: VadConfig)
        ensures
            final(self)@ == (VadView { hold_frames: config.hold_frames, ..old(self)@ }),
    {
        self.config = config;
    }
}

} // verus!
