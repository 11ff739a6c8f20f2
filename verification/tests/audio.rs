use voicechat::addr::{mapping_addr, reachable_addr, PeerAddr, PeerIp};
use voicechat::audio::{
    candidate_configs, fill_silence, find_device, upmix, BufferSize, OverflowMeter, StreamConfig,
};

fn config(channels: u16, buffer_size: BufferSize) -> StreamConfig {
    StreamConfig { channels, sample_rate: 48000, buffer_size }
}

#[test]
fn mono_is_tried_first() {
    let mono = vec![config(1, BufferSize::Fixed(96)), config(1, BufferSize::Default)];
    assert_eq!(candidate_configs(None), mono);
    assert_eq!(candidate_configs(Some(1)), mono);
    let mut stereo = mono.clone();
    stereo.push(config(2, BufferSize::Fixed(96)));
    stereo.push(config(2, BufferSize::Default));
    assert_eq!(candidate_configs(Some(2)), stereo);
}

#[test]
fn devices_are_found_by_name() {
    let names = vec![None, Some("Mic".to_string()), Some("USB".to_string()), Some("Mic".to_string())];
    assert_eq!(find_device(&names, &"Mic".to_string()), Some(1));
    assert_eq!(find_device(&names, &"USB".to_string()), Some(2));
    assert_eq!(find_device(&names, &"usb".to_string()), None);
}

#[test]
fn overflow_is_reported_every_two_seconds() {
    let mut meter = OverflowMeter::new();
    assert_eq!(meter.record(100, 100, 0), None);
    assert_eq!(meter.record(100, 60, 1), Some(40));
    assert_eq!(meter.record(100, 70, 2_000_000_000), None);
    assert_eq!(meter.record(10, 0, 2_000_000_001), Some(40));
    assert_eq!(meter.record(10, 0, 2_000_000_002), None);
    assert_eq!(meter.dropped, 10);
}

#[test]
fn missing_samples_are_silent() {
    let mut data = [1.0f32, 2.0, 3.0, 4.0];
    fill_silence(&mut data, 2, 0.0);
    assert_eq!(data, [1.0, 2.0, 0.0, 0.0]);
    fill_silence(&mut data, 9, 5.0);
    assert_eq!(data, [1.0, 2.0, 0.0, 0.0]);
}

#[test]
fn mono_samples_go_to_all_channels() {
    let mut data = [9u8; 7];
    upmix(&[1, 2, 3], 2, 2, 0, &mut data);
    assert_eq!(data, [1, 1, 2, 2, 0, 0, 9]);
    let mut data = [9u8; 3];
    upmix(&[4, 5, 6], 3, 1, 0, &mut data);
    assert_eq!(data, [4, 5, 6]);
}

#[test]
fn wildcard_address_is_replaced() {
    let bound = PeerAddr::V4 { ip: 0x0a00_0001, port: 4567 };
    let any = PeerAddr::V4 { ip: 0, port: 4567 };
    let any6 = PeerAddr::V6 { ip: 0, port: 4567, flowinfo: 1, scope_id: 2 };
    let lan = Some(PeerIp::V4 { ip: 0xc0a8_0102 });
    assert_eq!(reachable_addr(bound, lan), Some(bound));
    assert_eq!(reachable_addr(bound, None), Some(bound));
    let reached = PeerAddr::V4 { ip: 0xc0a8_0102, port: 4567 };
    assert_eq!(reachable_addr(any, lan), Some(reached));
    assert_eq!(reachable_addr(any6, lan), Some(reached));
    assert_eq!(
        reachable_addr(any, Some(PeerIp::V6 { ip: 7 })),
        Some(PeerAddr::V6 { ip: 7, port: 4567, flowinfo: 0, scope_id: 0 })
    );
    assert_eq!(reachable_addr(any, None), None);
    assert_eq!(mapping_addr(any, lan), reached);
    assert_eq!(mapping_addr(any, None), any);
    assert_eq!(
        mapping_addr(any6, None),
        PeerAddr::V6 { ip: 0, port: 4567, flowinfo: 0, scope_id: 0 }
    );
    assert_eq!(mapping_addr(bound, None), bound);
}
