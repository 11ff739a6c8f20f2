use std::sync::atomic::Ordering;

use voicechat::input::{InputGate, InputMode};

#[test]
fn test_always_on() {
    let mut gate = InputGate::new(InputMode::AlwaysOn);
    assert!(gate.should_transmit());
}

#[test]
fn test_ptt() {
    let mut gate = InputGate::new(InputMode::PushToTalk);
    assert!(!gate.should_transmit());
    gate.set_ptt(true);
    assert!(gate.should_transmit());
    gate.set_ptt(false);
    assert!(!gate.should_transmit());
}

#[test]
fn test_ptt_flag_shared() {
    let gate = InputGate::new(InputMode::PushToTalk);
    let flag = gate.ptt_flag();
    flag.store(true, Ordering::Relaxed);
    assert!(gate.ptt_pressed());
}

#[test]
fn test_voice_activation() {
    let mut gate = InputGate::new(InputMode::VoiceActivation);
    assert!(!gate.should_transmit());
    gate.set_vad_active(true);
    assert!(gate.should_transmit());
    gate.set_vad_active(false);
    assert!(!gate.should_transmit());
}

#[test]
fn the_mode_decides_what_counts() {
    let mut gate = InputGate::new(InputMode::AlwaysOn);
    assert!(!gate.is_transmitting());
    assert!(gate.decide(false));
    assert!(gate.is_transmitting());
    gate.set_mode(InputMode::PushToTalk);
    assert_eq!(*gate.mode(), InputMode::PushToTalk);
    gate.set_vad_active(true);
    assert!(!gate.decide(false));
    assert!(!gate.is_transmitting());
    assert!(gate.decide(true));
    gate.set_mode(InputMode::VoiceActivation);
    assert!(gate.decide(false));
    gate.set_vad_active(false);
    assert!(!gate.decide(true));
}

#[test]
fn modes_and_their_places() {
    for mode in [InputMode::AlwaysOn, InputMode::PushToTalk, InputMode::VoiceActivation] {
        assert_eq!(InputMode::from_index(mode.index()), mode);
    }
    assert_eq!(InputMode::from_index(1), InputMode::PushToTalk);
    assert_eq!(InputMode::from_index(2), InputMode::VoiceActivation);
    assert_eq!(InputMode::from_index(7), InputMode::AlwaysOn);
}
