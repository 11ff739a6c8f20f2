use voicechat::codec::FRAME_SAMPLES;
use voicechat::vad::{VadConfig, VoiceActivityDetector};

/// Whether the energy of a frame is above -40 dB of full scale.
fn loud(pcm: &[f32]) -> bool {
    let rms = (pcm.iter().map(|&s| s * s).sum::<f32>() / pcm.len() as f32).sqrt();
    rms >= 1e-10 && 20.0 * rms.log10() > -40.0
}

fn opinion(probability: f32) -> Option<bool> {
    Some(probability > 0.5)
}

#[test]
fn test_silence_not_detected() {
    let mut vad = VoiceActivityDetector::new(VadConfig::default());
    let silence = vec![0.0f32; FRAME_SAMPLES];
    assert!(!vad.detect(loud(&silence), None));
}

#[test]
fn test_loud_signal_detected() {
    let mut vad = VoiceActivityDetector::new(VadConfig::default());
    let signal: Vec<f32> = (0..FRAME_SAMPLES)
        .map(|i| (i as f32 * 0.1).sin() * 0.5)
        .collect();
    assert!(vad.detect(loud(&signal), None));
}

#[test]
fn test_hold_time() {
    let mut vad = VoiceActivityDetector::new(VadConfig { hold_frames: 2 });

    let signal = vec![0.5f32; FRAME_SAMPLES];
    let silence = vec![0.0f32; FRAME_SAMPLES];

    assert!(vad.detect(loud(&signal), None));
    assert!(vad.detect(loud(&silence), None)); // hold 1
    assert!(vad.detect(loud(&silence), None)); // hold 2
    assert!(!vad.detect(loud(&silence), None)); // expired
}

#[test]
fn test_rnnoise_vad_gate() {
    let mut vad = VoiceActivityDetector::new(VadConfig::default());
    let signal = vec![0.5f32; FRAME_SAMPLES];

    // High energy but low RNNoise confidence: no detection
    assert!(!vad.detect(loud(&signal), opinion(0.1)));
    // High energy and high RNNoise confidence: detected
    assert!(vad.detect(loud(&signal), opinion(0.9)));
}

#[test]
fn hold_time_is_twenty_frames_unless_set() {
    let mut vad = VoiceActivityDetector::new(VadConfig::default());
    assert!(!vad.is_active());
    vad.detect(true, None);
    for _ in 0..20 {
        assert!(vad.detect(false, Some(true)));
    }
    assert!(!vad.detect(false, None));
    assert!(!vad.is_active());
    vad.set_config(VadConfig { hold_frames: 0 });
    assert!(vad.detect(true, Some(true)));
    assert!(!vad.detect(true, Some(false)));
}
