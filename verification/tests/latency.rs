use voicechat::error::VoiceError;
use voicechat::latency::{LatencyStats, LatencyTracker, PingPayload};

const MS: u64 = 1_000_000;

#[test]
fn test_ping_pong_rtt() {
    let mut tracker = LatencyTracker::new();
    let id = tracker.ping_sent(7 * MS);
    let rtt = tracker.pong_received(id, 8 * MS);
    assert!(rtt.is_some());
    assert!(rtt.unwrap() >= 500); // at least ~0.5ms
    assert_eq!(tracker.stats().sample_count, 1);
    assert_eq!(rtt, Some(1000));
}

#[test]
fn test_unknown_pong() {
    let mut tracker = LatencyTracker::new();
    assert!(tracker.pong_received(999, MS).is_none());
}

#[test]
fn test_ping_payload_roundtrip() {
    let payload = PingPayload { ping_id: 42 };
    let bytes = payload.to_bytes();
    let parsed = PingPayload::from_bytes(&bytes).unwrap();
    assert_eq!(parsed.ping_id, 42);
}

#[test]
fn test_stats_update() {
    let mut tracker = LatencyTracker::new();
    for i in 0..5 {
        let id = tracker.ping_sent(i * 10 * MS);
        tracker.pong_received(id, i * 11 * MS + 3000);
    }
    assert_eq!(tracker.stats().sample_count, 5);
    assert!(tracker.stats().min_rtt_us <= tracker.stats().avg_rtt_us);
    assert!(tracker.stats().avg_rtt_us <= tracker.stats().max_rtt_us);
}

#[test]
fn ping_payload_bytes() {
    assert_eq!(PingPayload { ping_id: 0x0102_0304 }.to_bytes(), vec![1, 2, 3, 4]);
    assert_eq!(PingPayload::from_bytes(&[1, 2, 3]), Err(VoiceError::PingTooShort));
    assert_eq!(
        PingPayload::from_bytes(&[0, 0, 0, 9, 1]),
        Ok(PingPayload { ping_id: 9 })
    );
}

#[test]
fn averages_are_moving_eighths() {
    let mut tracker = LatencyTracker::default();
    let mut stats = Vec::new();
    for rtt_us in [800u64, 1600, 0] {
        let id = tracker.ping_sent(0);
        assert_eq!(tracker.pong_received(id, rtt_us * 1000 + 999), Some(rtt_us));
        stats.push(*tracker.stats());
    }
    assert_eq!(
        stats[0],
        LatencyStats {
            last_rtt_us: 800,
            min_rtt_us: 800,
            avg_rtt_us: 800,
            max_rtt_us: 800,
            jitter_us: 0,
            sample_count: 1,
        }
    );
    assert_eq!(stats[1].avg_rtt_us, 900);
    assert_eq!(stats[1].jitter_us, 100);
    assert_eq!(stats[2].avg_rtt_us, 787); // 787.5
    assert_eq!(stats[2].jitter_us, 287); // 287.5
    assert_eq!(stats[2].min_rtt_us, 0);
    assert_eq!(stats[2].max_rtt_us, 1600);
    assert_eq!(stats[2].sample_count, 3);
}

#[test]
fn a_pong_counts_once() {
    let mut tracker = LatencyTracker::new();
    let id = tracker.ping_sent(0);
    assert_eq!(tracker.pong_received(id, 5 * MS), Some(5000));
    assert_eq!(tracker.pong_received(id, 6 * MS), None);
    assert_eq!(tracker.stats().sample_count, 1);
}

#[test]
fn the_oldest_of_sixteen_pings_is_forgotten() {
    let mut tracker = LatencyTracker::new();
    for i in 0..17 {
        assert_eq!(tracker.ping_sent(i as u64 * MS), i);
    }
    assert_eq!(tracker.pong_received(0, 20 * MS), None);
    assert_eq!(tracker.pong_received(1, 20 * MS), Some(19_000));
    assert_eq!(tracker.pong_received(16, 20 * MS), Some(4_000));
}

#[test]
fn reset_forgets_pings_but_not_ids() {
    let mut tracker = LatencyTracker::new();
    let id = tracker.ping_sent(0);
    tracker.pong_received(id, MS);
    let pending = tracker.ping_sent(MS);
    tracker.reset();
    assert_eq!(tracker.pong_received(pending, 2 * MS), None);
    assert_eq!(tracker.stats().sample_count, 0);
    assert_eq!(tracker.stats().min_rtt_us, u64::MAX);
    assert_eq!(tracker.ping_sent(0), 2);
}

#[test]
fn a_clock_that_goes_back_gives_zero() {
    let mut tracker = LatencyTracker::new();
    let id = tracker.ping_sent(10 * MS);
    assert_eq!(tracker.pong_received(id, MS), Some(0));
    assert_eq!(LatencyStats::default().min_rtt_us, 0);
}
