use voicechat::codec::FRAME_SAMPLES;
use voicechat::jitter::JitterBuffer;

fn make_frame(seq: u16) -> Vec<i16> {
    vec![seq as i16; FRAME_SAMPLES]
}

#[test]
fn test_basic_push_pop() {
    let mut jb = JitterBuffer::new();
    jb.push(0, make_frame(0));
    let frame = jb.pop().unwrap();
    assert_eq!(frame.len(), FRAME_SAMPLES);
    assert_eq!(frame[0], 0);
}

#[test]
fn test_out_of_order() {
    let mut jb = JitterBuffer::new();
    jb.push(1, make_frame(1));
    jb.push(0, make_frame(0));

    let f0 = jb.pop().unwrap();
    assert_eq!(f0[0], 0);
    let f1 = jb.pop().unwrap();
    assert_eq!(f1[0], 1);
}

#[test]
fn test_missing_frame_returns_none() {
    let mut jb = JitterBuffer::new();
    jb.push(0, make_frame(0));
    let _ = jb.pop(); // seq 0

    // seq 1 is missing, push seq 2
    jb.push(2, make_frame(2));

    // Should return None for missing seq 1 (PLC signal)
    let result = jb.pop();
    assert!(result.is_none());

    // Now seq 2 should be available
    let f2 = jb.pop().unwrap();
    assert_eq!(f2[0], 2);
}

#[test]
fn test_duplicate_ignored() {
    let mut jb = JitterBuffer::new();
    jb.push(0, make_frame(0));
    jb.push(0, make_frame(0)); // duplicate
    assert_eq!(jb.buffered_frames(), 1);
}

#[test]
fn empty_buffer_gives_nothing() {
    let mut jb = JitterBuffer::default();
    assert!(jb.pop().is_none());
    assert_eq!(jb.buffered_frames(), 0);
    assert_eq!(jb.target_depth(), 1);
}

#[test]
fn late_frame_is_discarded() {
    let mut jb = JitterBuffer::new();
    jb.push(10, make_frame(10));
    assert!(jb.pop().is_some());
    jb.push(10, make_frame(10)); // its turn is over
    jb.push(9, make_frame(9));
    assert_eq!(jb.buffered_frames(), 0);
    jb.push(11, make_frame(11));
    assert_eq!(jb.pop().unwrap()[0], 11);
}

#[test]
fn sequence_numbers_go_round() {
    let mut jb = JitterBuffer::new();
    for seq in [65534u16, 0, 65535, 1] {
        jb.push(seq, vec![seq as i16]);
    }
    let played: Vec<i16> = (0..4).map(|_| jb.pop().unwrap()[0]).collect();
    assert_eq!(played, vec![-2, -1, 0, 1]);
}

#[test]
fn no_more_than_eight_frames_wait() {
    let mut jb = JitterBuffer::new();
    for seq in 0..12 {
        jb.push(seq, make_frame(seq));
    }
    assert_eq!(jb.buffered_frames(), 8);
    for seq in 0..8 {
        assert_eq!(jb.pop().unwrap()[0], seq);
    }
    assert!(jb.pop().is_none());
}

#[test]
fn waiting_frame_is_played_in_its_turn() {
    let mut jb = JitterBuffer::new();
    jb.push(100, make_frame(100));
    assert!(jb.pop().is_some());
    jb.push(104, make_frame(104));
    for _ in 101..104 {
        assert!(jb.pop().is_none());
    }
    assert_eq!(jb.pop().unwrap()[0], 104);
}

/// Plays one frame and then offers many that are late.
fn with_late_frames(late: usize, total: usize) -> JitterBuffer {
    let mut jb = JitterBuffer::new();
    jb.push(1000, make_frame(1000));
    assert!(jb.pop().is_some());
    for _ in 0..late {
        jb.push(999, make_frame(999));
    }
    for _ in late + 1..total {
        jb.push(2000, make_frame(2000));
    }
    jb
}

#[test]
fn depth_grows_when_more_than_two_percent_are_late() {
    let mut jb = with_late_frames(2, 100);
    jb.adapt(500_000_000);
    assert_eq!(jb.target_depth(), 1);
    let mut jb = with_late_frames(3, 100);
    jb.adapt(500_000_000);
    assert_eq!(jb.target_depth(), 2);
    // Counting starts again.
    jb.adapt(500_000_000);
    assert_eq!(jb.target_depth(), 2);
    let mut jb = with_late_frames(98, 99);
    jb.adapt(500_000_000);
    assert_eq!(jb.target_depth(), 1);
}

#[test]
fn depth_stops_at_four_and_shrinks_after_five_seconds() {
    let mut jb = with_late_frames(50, 100);
    for expected in [2, 3, 4, 4] {
        jb.adapt(1_000_000);
        assert_eq!(jb.target_depth(), expected);
        for _ in 0..100 {
            jb.push(999, make_frame(999));
        }
    }
    jb.reset();
    assert_eq!(jb.target_depth(), 1);
    let mut jb = with_late_frames(50, 100);
    jb.adapt(0);
    assert_eq!(jb.target_depth(), 2);
    for _ in 0..100 {
        jb.push(2000, make_frame(2000));
    }
    jb.adapt(4_999_999_999);
    assert_eq!(jb.target_depth(), 2);
    jb.adapt(1);
    assert_eq!(jb.target_depth(), 1);
}

/// A buffer that has played the frame 0 and then grew to a depth of two.
fn of_depth_two() -> JitterBuffer {
    let mut jb = JitterBuffer::new();
    jb.push(0, make_frame(0));
    assert!(jb.pop().is_some());
    for _ in 0..100 {
        jb.push(0, make_frame(0));
    }
    jb.adapt(500_000_000);
    assert_eq!(jb.target_depth(), 2);
    assert_eq!(jb.buffered_frames(), 0);
    jb
}

#[test]
fn nothing_is_played_below_the_target_depth() {
    let mut jb = of_depth_two();
    jb.push(1, make_frame(1));
    assert!(jb.pop().is_none());
    assert_eq!(jb.buffered_frames(), 1);
    jb.push(2, make_frame(2));
    assert_eq!(jb.pop().unwrap()[0], 1);
    assert!(jb.pop().is_none());
    assert_eq!(jb.buffered_frames(), 1);
    jb.push(3, make_frame(3));
    assert_eq!(jb.pop().unwrap()[0], 2);
    // A missing frame is skipped only when enough others wait.
    jb.push(5, make_frame(5));
    assert_eq!(jb.pop().unwrap()[0], 3);
    assert!(jb.pop().is_none());
    jb.push(6, make_frame(6));
    assert!(jb.pop().is_none()); // frame 4
    assert_eq!(jb.buffered_frames(), 2);
    assert_eq!(jb.pop().unwrap()[0], 5);
    jb.reset();
    jb.push(5, make_frame(5));
    assert_eq!(jb.pop().unwrap()[0], 5);
}

#[test]
fn depth_shrinks_only_after_five_seconds_of_low_loss() {
    let mut jb = JitterBuffer::new();
    jb.adapt(5_000_000_000);
    jb.push(0, make_frame(0));
    assert!(jb.pop().is_some());
    for _ in 0..100 {
        jb.push(0, make_frame(0));
    }
    jb.adapt(0);
    assert_eq!(jb.target_depth(), 2);
    // The time before the high loss does not count.
    for _ in 0..100 {
        jb.push(1, make_frame(1));
    }
    jb.adapt(0);
    assert_eq!(jb.target_depth(), 2);
    jb.adapt(4_000_000_000);
    assert_eq!(jb.target_depth(), 2);
    // One late packet in a hundred is not low loss, though the depth does not grow.
    jb.push(0, make_frame(0));
    jb.adapt(4_000_000_000);
    assert_eq!(jb.target_depth(), 2);
    for _ in 0..1000 {
        jb.push(1, make_frame(1));
    }
    jb.adapt(4_999_999_999);
    assert_eq!(jb.target_depth(), 2);
    jb.adapt(1);
    assert_eq!(jb.target_depth(), 1);
}
