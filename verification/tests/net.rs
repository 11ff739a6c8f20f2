use voicechat::addr::PeerAddr;
use voicechat::error::VoiceError;
use voicechat::net::{
    build_wire_packet, parse_wire_packet, JoinPayload, PacketHeader, PeerListPayload, HEADER_LEN,
    MAX_PACKET_LEN, PKT_AUDIO, PKT_KEY_EXCHANGE,
};

fn v4(octets: [u8; 4], port: u16) -> PeerAddr {
    PeerAddr::V4 { ip: u32::from_be_bytes(octets), port }
}

#[test]
fn test_header_roundtrip() {
    let hdr = PacketHeader::new(PKT_AUDIO, 2, 1234, 56789);
    let bytes = hdr.to_bytes();
    let parsed = PacketHeader::from_bytes(&bytes).unwrap();
    assert_eq!(parsed.pkt_type, PKT_AUDIO);
    assert_eq!(parsed.peer_id, 2);
    assert_eq!(parsed.seq_num, 1234);
    assert_eq!(parsed.counter, 56789);
}

#[test]
fn header_bytes_are_big_endian() {
    let hdr = PacketHeader::new(PKT_KEY_EXCHANGE, 4, 0x1234, 0x89ab_cdef);
    assert_eq!(hdr.to_bytes(), [9, 4, 0x12, 0x34, 0x89, 0xab, 0xcd, 0xef]);
    let last = PacketHeader::new(255, 255, 65535, u32::MAX);
    assert_eq!(last.to_bytes(), [255; HEADER_LEN]);
    assert_eq!(PacketHeader::from_bytes(&[255; 9]).unwrap(), last);
}

#[test]
fn short_header_is_refused() {
    assert_eq!(PacketHeader::from_bytes(&[1; 7]), Err(VoiceError::HeaderTooShort { len: 7 }));
    assert_eq!(PacketHeader::from_bytes(&[]), Err(VoiceError::HeaderTooShort { len: 0 }));
}

#[test]
fn wire_packet_splits_as_it_was_built() {
    let header = PacketHeader::new(PKT_AUDIO, 1, 2, 3).to_bytes();
    let wire = build_wire_packet(&header, &[10, 20, 30]);
    assert_eq!(wire, vec![1, 1, 0, 2, 0, 0, 0, 3, 10, 20, 30]);
    let (h, payload) = parse_wire_packet(&wire).unwrap();
    assert_eq!(h, header);
    assert_eq!(payload, &[10, 20, 30]);
    let (_, empty) = parse_wire_packet(&wire[..8]).unwrap();
    assert!(empty.is_empty());
    assert_eq!(
        parse_wire_packet(&wire[..5]).map(|_| ()),
        Err(VoiceError::PacketTooShort { len: 5 })
    );
    assert_eq!(MAX_PACKET_LEN, 1200);
}

#[test]
fn join_payload_roundtrip() {
    let join = JoinPayload { listen_port: 4568 };
    assert_eq!(join.to_bytes(), vec![0x11, 0xd8]);
    assert_eq!(JoinPayload::from_bytes(&[0x11, 0xd8, 7]).unwrap(), join);
    assert_eq!(JoinPayload::from_bytes(&[1]), Err(VoiceError::JoinTooShort));
}

#[test]
fn test_peer_list_roundtrip() {
    let payload = PeerListPayload {
        session_id: [0xAA; 8],
        peers: vec![(0, v4([192, 168, 1, 1], 5000)), (1, v4([10, 0, 0, 2], 6000))],
    };
    let bytes = payload.to_bytes();
    let parsed = PeerListPayload::from_bytes(&bytes).unwrap();
    assert_eq!(parsed.session_id, [0xAA; 8]);
    assert_eq!(parsed.peers.len(), 2);
    assert_eq!(parsed.peers[0].0, 0);
    assert_eq!(parsed.peers[1].0, 1);
    assert_eq!(parsed.peers, payload.peers);
}

#[test]
fn peer_list_bytes() {
    let payload = PeerListPayload {
        session_id: [1, 2, 3, 4, 5, 6, 7, 8],
        peers: vec![
            (0, v4([192, 168, 1, 1], 5000)),
            (3, PeerAddr::V6 { ip: 1, port: 6000, flowinfo: 0, scope_id: 0 }),
        ],
    };
    let bytes = payload.to_bytes();
    let mut expected = vec![1, 2, 3, 4, 5, 6, 7, 8, 2, 0, 4, 192, 168, 1, 1, 0x13, 0x88, 3, 6];
    expected.extend_from_slice(&[0; 15]);
    expected.extend_from_slice(&[1, 0x17, 0x70]);
    assert_eq!(bytes, expected);
    let mut with_rest = bytes.clone();
    with_rest.push(99);
    assert_eq!(PeerListPayload::from_bytes(&with_rest).unwrap().peers, payload.peers);
}

#[test]
fn ipv6_flow_info_and_scope_are_not_sent() {
    let payload = PeerListPayload {
        session_id: [0; 8],
        peers: vec![(7, PeerAddr::V6 { ip: 5, port: 1, flowinfo: 9, scope_id: 8 })],
    };
    let parsed = PeerListPayload::from_bytes(&payload.to_bytes()).unwrap();
    assert_eq!(
        parsed.peers,
        vec![(7, PeerAddr::V6 { ip: 5, port: 1, flowinfo: 0, scope_id: 0 })]
    );
}

#[test]
fn truncated_peer_lists_are_refused() {
    let refused = |data: &[u8]| PeerListPayload::from_bytes(data).map(|_| ()).unwrap_err();
    assert_eq!(refused(&[0; 8]), VoiceError::PeerListTooShort);
    assert_eq!(refused(&[0, 0, 0, 0, 0, 0, 0, 0, 1]), VoiceError::PeerListTruncated);
    assert_eq!(refused(&[0, 0, 0, 0, 0, 0, 0, 0, 1, 5]), VoiceError::PeerListTruncated);
    assert_eq!(
        refused(&[0, 0, 0, 0, 0, 0, 0, 0, 1, 5, 4, 1, 2, 3, 4, 5]),
        VoiceError::PeerListTruncatedV4
    );
    assert_eq!(
        refused(&[0, 0, 0, 0, 0, 0, 0, 0, 1, 5, 6, 1, 2, 3, 4, 5]),
        VoiceError::PeerListTruncatedV6
    );
    assert_eq!(
        refused(&[0, 0, 0, 0, 0, 0, 0, 0, 1, 5, 7]),
        VoiceError::UnknownIpVersion { marker: 7 }
    );
    assert!(PeerListPayload::from_bytes(&[0; 9]).unwrap().peers.is_empty());
}

#[test]
fn peer_list_count_wraps_at_256() {
    let peers = vec![(1, v4([1, 2, 3, 4], 5)); 257];
    let payload = PeerListPayload { session_id: [0; 8], peers };
    let bytes = payload.to_bytes();
    assert_eq!(bytes[8], 1);
    assert_eq!(PeerListPayload::from_bytes(&bytes).unwrap().peers.len(), 1);
}
