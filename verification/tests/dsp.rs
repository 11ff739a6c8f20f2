use voicechat::codec::{check_frame_len, FRAME_SAMPLES};
use voicechat::dsp::{frames_of, Framer, NoiseSuppressor, DENOISE_FRAME_SIZE};
use voicechat::error::VoiceError;

#[test]
fn test_noise_suppressor_accumulates() {
    let mut ns = NoiseSuppressor::new();
    let frame = vec![0.0f32; FRAME_SAMPLES]; // 120 samples

    // First 3 frames: accumulating, no output
    assert!(ns.process(&frame).is_none());
    assert!(ns.process(&frame).is_none());
    assert!(ns.process(&frame).is_none());

    // 4th frame: 480 samples accumulated, should produce output
    let output = ns.process(&frame);
    assert!(output.is_some());
    assert_eq!(output.unwrap().len(), DENOISE_FRAME_SIZE);
}

#[test]
fn test_noise_suppressor_disabled_passthrough() {
    let mut ns = NoiseSuppressor::new();
    ns.set_enabled(false);

    let frame = vec![0.5f32; FRAME_SAMPLES];
    let output = ns.process(&frame).unwrap();
    assert_eq!(output.len(), FRAME_SAMPLES);
    assert_eq!(output[0], 0.5);
}

#[test]
fn blocks_keep_the_samples_in_order() {
    let mut ns: NoiseSuppressor<usize> = NoiseSuppressor::default();
    assert!(ns.is_enabled());
    let mut out = Vec::new();
    for n in 0..10 {
        let frame: Vec<usize> = (n * 100..n * 100 + 100).collect();
        if let Some(block) = ns.process(&frame) {
            assert_eq!(block.len(), 480);
            out.extend(block);
        }
    }
    assert_eq!(out, (0..960).collect::<Vec<usize>>());
    // Off, frames pass by what is held back.
    ns.set_enabled(false);
    assert_eq!(ns.process(&[7]), Some(vec![7]));
    ns.set_enabled(true);
    let rest = ns.process(&(1000..1440).collect::<Vec<usize>>()).unwrap();
    assert_eq!(rest, (960..1440).collect::<Vec<usize>>());
}

#[test]
fn one_block_comes_out_at_a_time() {
    let mut ns = NoiseSuppressor::new();
    assert_eq!(ns.process(&[1u8; 1000]).unwrap().len(), 480);
    assert_eq!(ns.process(&[]).unwrap().len(), 480);
    assert!(ns.process(&[]).is_none());
}

#[test]
fn framer_cuts_frames() {
    let mut framer = Framer::new();
    assert!(framer.next_frame().is_none());
    framer.push(&(0..100).collect::<Vec<u32>>());
    assert!(framer.next_frame().is_none());
    framer.push(&(100..250).collect::<Vec<u32>>());
    assert_eq!(framer.next_frame().unwrap(), (0..120).collect::<Vec<u32>>());
    assert_eq!(framer.next_frame().unwrap(), (120..240).collect::<Vec<u32>>());
    assert!(framer.next_frame().is_none());
    framer.push(&(250..360).collect::<Vec<u32>>());
    assert_eq!(framer.next_frame().unwrap(), (240..360).collect::<Vec<u32>>());
}

#[test]
fn whole_frames_of_a_block() {
    let block: Vec<u16> = (0..480).collect();
    let frames = frames_of(&block);
    assert_eq!(frames.len(), 4);
    assert_eq!(frames.concat(), block);
    assert_eq!(frames_of(&block[..359]).len(), 2);
    assert!(frames_of::<u8>(&[]).is_empty());
}

#[test]
fn only_whole_frames_are_encoded() {
    assert_eq!(check_frame_len(120), Ok(()));
    assert_eq!(check_frame_len(119), Err(VoiceError::WrongFrameLen { len: 119 }));
}
