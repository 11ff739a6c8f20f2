//! When the microphone is heard by others.
use std::sync::atomic::AtomicBool;
use std::sync::Arc;

use vstd::prelude::*;

verus! {

/// When to transmit.
#[derive(Clone, Copy, Debug, PartialEq, Eq, Structural)]
pub enum InputMode {
    /// Always.
    AlwaysOn,
    /// While the push-to-talk key is held.
    PushToTalk,
    /// While there is voice.
    VoiceActivation,
}

impl InputMode {
    pub open spec fn spec_from_index(index: usize) -> InputMode {
        if index == 1 {
            InputMode::PushToTalk
        } else if index == 2 {
            InputMode::VoiceActivation
        } else {
            InputMode::AlwaysOn
        }
    }

    pub open spec fn spec_index(self) -> usize {
        match self {
            InputMode::AlwaysOn => 0,
            InputMode::PushToTalk => 1,
            InputMode::VoiceActivation => 2,
        }
    }

    /// The mode at a place in a list of choices.
    pub fn from_index(index: usize) -> (mode: InputMode)
        ensures
            mode == InputMode::spec_from_index(index),
    {
        if index == 1 {
            InputMode::PushToTalk
        } else if index == 2 {
            InputMode::VoiceActivation
        } else {
            InputMode::AlwaysOn
        }
    }

    /// The place of the mode in a list of choices.
    pub fn index(&self) -> (index: usize)
        ensures
            index == self.spec_index(),
    {
        match self {
            InputMode::AlwaysOn => 0,
            InputMode::PushToTalk => 1,
            InputMode::VoiceActivation => 2,
        }
    }
}

/// The mode at the place of a mode is that mode.
pub proof fn law_index_roundtrip(mode: InputMode)
    ensures
        InputMode::spec_from_index(mode.spec_index()) == mode,
{
}

/// The first choice is to transmit always, the second push-to-talk, the third voice activation, and
/// any other place stands for the first.
pub proof fn law_choices_in_order(index: usize)
    ensures
        InputMode::AlwaysOn.spec_index() == 0,
        InputMode::PushToTalk.spec_index() == 1,
        InputMode::VoiceActivation.spec_index() == 2,
        InputMode::spec_from_index(index) == InputMode::PushToTalk <==> index == 1,
        InputMode::spec_from_index(index) == InputMode::VoiceActivation <==> index == 2,
{
}

/// Whether to transmit, given the mode, the push-to-talk key and whether there is voice.
pub open spec fn transmits(mode: InputMode, ptt: bool, voice: bool) -> bool {
    match mode {
        InputMode::AlwaysOn => true,
        InputMode::PushToTalk => ptt,
        InputMode::VoiceActivation => voice,
    }
}

/// `std::sync::Arc::clone`.
///
/// Trusted: what comes out points to the same flag.
#[verifier::external_body]
fn share(flag: &Arc<AtomicBool>) -> (shared: Arc<AtomicBool>)
    ensures
        shared == *flag,
{
    flag.clone()
}

/// Whether a relaxed load of the flag can give this value.
pub open spec fn read_from(flag: Arc<AtomicBool>, value: bool) -> bool {
    call_ensures(AtomicBool::load, (&*flag, std::sync::atomic::Ordering::Relaxed), value)
}

/// Lets audio through or not.
///
/// The push-to-talk flag is shared with other threads, so that a read can give either value; what
/// is read decides.
pub struct InputGate {
    mode: InputMode,
    ptt_active: Arc<AtomicBool>,
    vad_active: bool,
    is_transmitting: bool,
}

impl InputGate {
    pub closed spec fn spec_mode(self) -> InputMode {
        self.mode
    }

    /// The push-to-talk flag.
    pub closed spec fn spec_flag(self) -> Arc<AtomicBool> {
        self.ptt_active
    }

    /// Whether there is voice.
    pub closed spec fn spec_voice(self) -> bool {
        self.vad_active
    }

    /// What was last decided.
    pub closed spec fn spec_transmitting(self) -> bool {
        self.is_transmitting
    }

    /// A gate with the key released and without voice.
    pub fn new(mode: InputMode) -> (gate: Self)
        ensures
            gate.spec_mode() == mode,
            call_ensures(AtomicBool::new, (false,), *gate.spec_flag()),
            !gate.spec_voice(),
            !gate.spec_transmitting(),
    {
        InputGate {
            mode,
            ptt_active: Arc::new(AtomicBool::new(false)),
            vad_active: false,
            is_transmitting: false,
        }
    }

    /// The push-to-talk flag, for another thread.
    pub fn ptt_flag(&self) -> (flag: Arc<AtomicBool>)
        ensures
            flag == self.spec_flag(),
    {
        share(&self.ptt_active)
    }

    pub fn set_mode(&mut self, mode: InputMode)
        ensures
            final(self).spec_mode() == mode,
            final(self).spec_flag() == old(self).spec_flag(),
            final(self).spec_voice() == old(self).spec_voice(),
            final(self).spec_transmitting() == old(self).spec_transmitting(),
    {
        self.mode = mode;
    }

    pub fn mode(&self) -> (mode: &InputMode)
        ensures
            *mode == self.spec_mode(),
    {
        &self.mode
    }

    /// Says whether there is voice.
    pub fn set_vad_active(&mut self, active: bool)
        ensures
            final(self).spec_voice() == active,
            final(self).spec_mode() == old(self).spec_mode(),
            final(self).spec_flag() == old(self).spec_flag(),
            final(self).spec_transmitting() == old(self).spec_transmitting(),
    {
        self.vad_active = active;
    }

    /// Presses or releases the push-to-talk key, by storing into the shared flag.
    pub fn set_ptt(&self, pressed: bool)
        ensures
            call_ensures(
                AtomicBool::store,
                (&*self.spec_flag(), pressed, std::sync::atomic::Ordering::Relaxed),
                (),
            ),
    {
        self.ptt_active.store(pressed, std::sync::atomic::Ordering::Relaxed);
    }

    /// Reads the shared push-to-talk flag: what comes back is what a relaxed load of this gate's own
    /// flag gave. Which of the two values that is depends on what other threads stored.
    pub fn ptt_pressed(&self) -> (pressed: bool)
        ensures
            read_from(self.spec_flag(), pressed),
    {
        self.ptt_active.load(std::sync::atomic::Ordering::Relaxed)
    }

    /// Decides, given what was read of the push-to-talk flag.
    pub fn decide(&mut self, ptt: bool) -> (transmit: bool)
        ensures
            transmit == transmits(old(self).spec_mode(), ptt, old(self).spec_voice()),
            final(self).spec_transmitting() == transmit,
            final(self).spec_mode() == old(self).spec_mode(),
            final(self).spec_flag() == old(self).spec_flag(),
            final(self).spec_voice() == old(self).spec_voice(),
    {
        self.is_transmitting = match self.mode {
            InputMode::AlwaysOn => true,
            InputMode::PushToTalk => ptt,
            InputMode::VoiceActivation => self.vad_active,
        };
        self.is_transmitting
    }

    /// Whether the current frame is to be transmitted. In push-to-talk mode that is what the shared
    /// flag held when it was read.
    pub fn should_transmit(&mut self) -> (transmit: bool)
        ensures
            exists|ptt: bool|
                read_from(old(self).spec_flag(), ptt) && transmit == #[trigger] transmits(
                    old(self).spec_mode(),
                    ptt,
                    old(self).spec_voice(),
                ),
            final(self).spec_transmitting() == transmit,
            final(self).spec_mode() == old(self).spec_mode(),
            final(self).spec_flag() == old(self).spec_flag(),
            final(self).spec_voice() == old(self).spec_voice(),
    {
        let ptt: bool = self.ptt_pressed();
        self.decide(ptt)
    }

    /// What was last decided.
    pub fn is_transmitting(&self) -> (b: bool)
        ensures
            b == self.spec_transmitting(),
    {
        self.is_transmitting
    }
}

/// The key matters in push-to-talk mode only, and voice in voice activation mode only.
pub proof fn law_mode_decides(ptt: bool, voice: bool)
    ensures
        transmits(InputMode::AlwaysOn, ptt, voice),
        transmits(InputMode::PushToTalk, ptt, voice) == ptt,
        transmits(InputMode::VoiceActivation, ptt, voice) == voice,
{
}

} // verus!
