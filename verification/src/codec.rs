//! The audio format.
use vstd::prelude::*;

use crate::error::VoiceError;

verus! {

/// Samples per second.
pub const SAMPLE_RATE: u32 = 48000;

/// Samples of a frame of 2.5 ms.
pub const FRAME_SAMPLES: usize = 120;

/// The length of a frame in microseconds.
pub const FRAME_DURATION_US: u64 = 2500;

/// The most bytes to which a frame is encoded.
pub const MAX_ENCODED_SIZE: usize = 256;

/// At 48000 samples a second a frame of 2.5 ms has 120 samples, and is encoded to at most 256 bytes.
pub proof fn law_audio_format()
    ensures
        SAMPLE_RATE == 48000,
        FRAME_SAMPLES == 120,
        FRAME_DURATION_US == 2500,
        FRAME_SAMPLES * 1_000_000 == SAMPLE_RATE * FRAME_DURATION_US,
        MAX_ENCODED_SIZE == 256,
{
}

/// Whether a number of samples makes a frame that can be encoded.
pub fn check_frame_len(len: usize) -> (res: Result<(), VoiceError>)
    ensures
        len == FRAME_SAMPLES ==> res == Ok::<(), VoiceError>(()),
        len != FRAME_SAMPLES ==> res == Err::<(), VoiceError>(VoiceError::WrongFrameLen { len }),
{
    if len != FRAME_SAMPLES {
        return Err(VoiceError::WrongFrameLen { len });
    }
    Ok(())
}

/// Exactly 120 samples make a frame that can be encoded.
pub proof fn law_only_whole_frames(len: usize, res: Result<(), VoiceError>)
    requires
        call_ensures(check_frame_len, (len,), res),
    ensures
        res is Ok == (len == 120),
        res matches Err(e) ==> e == (VoiceError::WrongFrameLen { len }),
{
}

} // verus!
