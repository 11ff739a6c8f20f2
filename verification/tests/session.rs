use voicechat::addr::{PeerAddr, PeerIp};
use voicechat::crypto::CryptoContext;
use voicechat::error::VoiceError;
use voicechat::key_exchange::KeyExchange;
use voicechat::net::{
    PacketHeader, PeerListPayload, PKT_AUDIO, PKT_HELLO, PKT_HELLO_ACK, PKT_JOIN, PKT_KEEPALIVE,
    PKT_KEY_EXCHANGE, PKT_PEER_LIST, PKT_PING, PKT_PONG,
};
use voicechat::outgoing::Timers;
use voicechat::packet::{open_packet, read_header, seal_packet};
use voicechat::peer::PeerState;
use voicechat::session::{Outgoing, Reaction, SessionState};

const KEY: [u8; 32] = [3; 32];
const SESSION: [u8; 8] = [0xAA, 0xBB, 0xCC, 0xDD, 0xEE, 0xFF, 0x11, 0x22];
const SECOND: u64 = 1_000_000_000;

fn at(last: u8, port: u16) -> PeerAddr {
    PeerAddr::V4 { ip: u32::from_be_bytes([10, 0, 0, last]), port }
}

fn host() -> SessionState {
    SessionState::start(KEY, true, SESSION, KeyExchange::from_secret([0x11; 32]))
}

fn joiner(secret: u8) -> SessionState {
    SessionState::start(KEY, false, [9; 8], KeyExchange::from_secret([secret; 32]))
}

fn reply(reaction: Reaction) -> Outgoing {
    match reaction {
        Reaction::Reply(out) => out,
        other => panic!("no reply: {other:?}"),
    }
}

/// Joins the host and greets everyone on the list; returns whom it greeted, with the greetings.
fn join(
    host: &mut SessionState,
    joiner: &mut SessionState,
    host_addr: PeerAddr,
    joiner_addr: PeerAddr,
) -> Vec<(u8, Outgoing)> {
    let wire = joiner.join_request(4568).unwrap();
    match host.handle_incoming(&wire, joiner_addr, 1).unwrap() {
        Reaction::Welcome { to } => assert_eq!(to, joiner_addr),
        other => panic!("not welcome: {other:?}"),
    }
    let list = host.welcome(joiner_addr, host_addr, None).unwrap();
    assert_eq!(list.to, joiner_addr);
    match joiner.handle_incoming(&list.wire, host_addr, 2).unwrap() {
        Reaction::Greet { peers } => peers
            .into_iter()
            .map(|(id, addr)| {
                let hello = joiner.greet(id, addr, 3).unwrap();
                joiner.hello_sent(id);
                assert_eq!(joiner.peer_mgr.get_peer(id).unwrap().state, PeerState::HelloSent);
                (id, hello)
            })
            .collect(),
        other => panic!("no one to greet: {other:?}"),
    }
}

/// A host and a joiner that are connected.
fn connected() -> (SessionState, SessionState, PeerAddr, PeerAddr) {
    let (host_addr, joiner_addr) = (at(1, 4567), at(2, 4568));
    let mut h = host();
    let mut j = joiner(0x22);
    let hellos = join(&mut h, &mut j, host_addr, joiner_addr);
    assert_eq!(hellos.len(), 1);
    assert_eq!(hellos[0].1.to, host_addr);
    let ack = reply(h.handle_incoming(&hellos[0].1.wire, joiner_addr, 4).unwrap());
    assert_eq!(ack.to, joiner_addr);
    assert!(matches!(
        j.handle_incoming(&ack.wire, host_addr, 5).unwrap(),
        Reaction::Quiet
    ));
    (h, j, host_addr, joiner_addr)
}

#[test]
fn handshake_connects_both_sides() {
    let (h, j, host_addr, joiner_addr) = connected();
    assert_eq!(j.peer_mgr.local_id, 1);
    assert_eq!(j.peer_mgr.session_id, SESSION);
    assert!(h.peer_mgr.get_peer(1).unwrap().is_connected());
    assert!(j.peer_mgr.get_peer(0).unwrap().is_connected());
    assert_eq!(h.peer_mgr.peer_by_addr(&joiner_addr), Some(1));
    assert_eq!(j.peer_mgr.peer_by_addr(&host_addr), Some(0));
    assert_eq!(h.peer_mgr.get_peer(1).unwrap().last_seen_ns, 4);
    assert_eq!(j.peer_mgr.get_peer(0).unwrap().last_seen_ns, 5);
}

#[test]
fn third_peer_meets_everyone() {
    let (mut h, mut j, host_addr, joiner_addr) = connected();
    let mut k = joiner(0x33);
    let k_addr = at(3, 4569);
    let hellos = join(&mut h, &mut k, host_addr, k_addr);
    assert_eq!(k.peer_mgr.local_id, 2);
    let targets: Vec<(u8, PeerAddr)> = hellos.iter().map(|(id, out)| (*id, out.to)).collect();
    assert_eq!(targets, vec![(0, host_addr), (1, joiner_addr)]);
    // The other joiner learns of the new peer from its HELLO.
    let ack = reply(j.handle_incoming(&hellos[1].1.wire, k_addr, 6).unwrap());
    assert_eq!(j.peer_mgr.get_peer(2).unwrap().addr, k_addr);
    assert!(j.peer_mgr.get_peer(2).unwrap().is_connected());
    k.handle_incoming(&ack.wire, joiner_addr, 7).unwrap();
    assert!(k.peer_mgr.get_peer(1).unwrap().is_connected());
    assert_eq!(k.peer_mgr.get_peer(0).unwrap().state, PeerState::HelloSent);
}

#[test]
fn audio_flows_and_is_not_replayed() {
    let (mut h, mut j, host_addr, _) = connected();
    let packets = h.send_audio(b"frame one");
    assert_eq!(packets.len(), 1);
    assert_eq!(packets[0].to, at(2, 4568));
    let header = read_header(&packets[0].wire).unwrap();
    // The list of peers and the answer to the greeting took the first two counters.
    assert_eq!(header, PacketHeader::new(PKT_AUDIO, 0, 0, 2));
    match j.handle_incoming(&packets[0].wire, host_addr, 9).unwrap() {
        Reaction::Decode { peer_id, seq_num, opus } => {
            assert_eq!((peer_id, seq_num), (0, 0));
            assert_eq!(opus, b"frame one");
            j.deliver(peer_id, seq_num, vec![5; 120]);
        }
        other => panic!("no audio: {other:?}"),
    }
    assert_eq!(j.peer_mgr.get_peer(0).unwrap().last_seen_ns, 9);
    assert_eq!(
        j.handle_incoming(&packets[0].wire, host_addr, 10).unwrap_err(),
        VoiceError::ReplayDetected { peer_id: 0 }
    );
    assert_eq!(j.peer_mgr.get_peer(0).unwrap().last_seen_ns, 10);
    let second = h.send_audio(b"frame two");
    let header = read_header(&second[0].wire).unwrap();
    assert_eq!(header, PacketHeader::new(PKT_AUDIO, 0, 1, 3));
    assert!(j.handle_incoming(&second[0].wire, host_addr, 11).is_ok());
    assert!(j.handle_incoming(&packets[0].wire, host_addr, 12).is_err());
    let frames = j.next_frames();
    assert_eq!(frames.len(), 1);
    assert_eq!(frames[0].peer_id, 0);
    assert_eq!(frames[0].pcm, Some(vec![5; 120]));
    assert_eq!(j.next_frames()[0].pcm, None);
}

#[test]
fn audio_of_a_stranger_is_ignored() {
    let (h, mut j, host_addr, _) = connected();
    let header = PacketHeader::new(PKT_AUDIO, 4, 0, 0);
    let wire = seal_packet(&h.crypto_ctx, header, b"opus").unwrap();
    assert!(matches!(
        j.handle_incoming(&wire, host_addr, 9).unwrap(),
        Reaction::Quiet
    ));
}

#[test]
fn key_exchange_upgrades_audio() {
    let (mut h, mut j, host_addr, joiner_addr) = connected();
    let offers = h.offer_keys();
    assert_eq!(offers.len(), 1);
    assert!(h.offer_keys().is_empty());
    let answer = reply(j.handle_incoming(&offers[0].wire, host_addr, 9).unwrap());
    assert_eq!(answer.to, host_addr);
    assert!(matches!(
        h.handle_incoming(&answer.wire, joiner_addr, 10).unwrap(),
        Reaction::Quiet
    ));
    assert!(h.peer_info()[0].key_exchange_done);
    assert!(j.peer_info()[0].key_exchange_done);
    // Counters start again under the key of the pair.
    h.keepalives(10);
    let packets = h.send_audio(b"secret");
    let header = read_header(&packets[0].wire).unwrap();
    assert_eq!((header.seq_num, header.counter), (0, 0));
    assert_eq!(
        open_packet(&h.crypto_ctx, &packets[0].wire),
        Err(VoiceError::DecryptFailed)
    );
    match j.handle_incoming(&packets[0].wire, host_addr, 11).unwrap() {
        Reaction::Decode { opus, .. } => assert_eq!(opus, b"secret"),
        other => panic!("no audio: {other:?}"),
    }
    assert_eq!(
        j.handle_incoming(&packets[0].wire, host_addr, 12).unwrap_err(),
        VoiceError::ReplayDetected { peer_id: 0 }
    );
    // Audio under the passphrase key is still understood, with its own counters.
    let header = PacketHeader::new(PKT_AUDIO, 0, 7, 0);
    let wire = seal_packet(&h.crypto_ctx, header, b"plain").unwrap();
    assert!(matches!(
        j.handle_incoming(&wire, host_addr, 13).unwrap(),
        Reaction::Decode { seq_num: 7, .. }
    ));
}

#[test]
fn ping_is_answered_and_measured() {
    let (mut h, mut j, host_addr, joiner_addr) = connected();
    let pings = h.pings(SECOND);
    assert_eq!(pings.len(), 1);
    assert_eq!(read_header(&pings[0].wire).unwrap().pkt_type, PKT_PING);
    let pong = reply(j.handle_incoming(&pings[0].wire, host_addr, 5).unwrap());
    assert_eq!(pong.to, host_addr);
    assert_eq!(
        read_header(&pong.wire).unwrap(),
        PacketHeader::new(PKT_PONG, 1, 0, 2)
    );
    assert!(matches!(
        h.handle_incoming(&pong.wire, joiner_addr, SECOND + 7_000_500).unwrap(),
        Reaction::Quiet
    ));
    assert_eq!(h.peer_info()[0].latency.last_rtt_us, 7000);
    assert_eq!(h.peer_info()[0].latency.sample_count, 1);
    // Again it is the answer to an unknown ping.
    h.handle_incoming(&pong.wire, joiner_addr, 3 * SECOND).unwrap();
    assert_eq!(h.peer_info()[0].latency.sample_count, 1);
}

#[test]
fn keepalive_must_be_authentic() {
    let (mut h, mut j, host_addr, _) = connected();
    let alive = h.keepalives(6);
    assert_eq!(read_header(&alive[0].wire).unwrap().pkt_type, PKT_KEEPALIVE);
    assert!(matches!(
        j.handle_incoming(&alive[0].wire, host_addr, 100).unwrap(),
        Reaction::Quiet
    ));
    assert_eq!(j.peer_mgr.get_peer(0).unwrap().last_seen_ns, 100);
    let mut forged = alive[0].wire.clone();
    forged[9] ^= 1;
    assert_eq!(
        j.handle_incoming(&forged, host_addr, 200).unwrap_err(),
        VoiceError::DecryptFailed
    );
    assert_eq!(j.peer_mgr.get_peer(0).unwrap().last_seen_ns, 100);
}

#[test]
fn forged_packets_change_nothing() {
    let (_, mut j, host_addr, _) = connected();
    for pkt_type in [
        PKT_AUDIO, PKT_HELLO, PKT_PEER_LIST, PKT_KEEPALIVE, PKT_HELLO_ACK, PKT_PING, PKT_PONG,
        PKT_KEY_EXCHANGE,
    ] {
        let stranger = CryptoContext::new(&[4; 32], SESSION);
        let header = PacketHeader::new(pkt_type, 0, 0, 50);
        let wire = seal_packet(&stranger, header, &[0; 40]).unwrap();
        assert_eq!(
            j.handle_incoming(&wire, host_addr, 1000).unwrap_err(),
            VoiceError::DecryptFailed
        );
    }
    assert_eq!(j.peer_mgr.get_peer(0).unwrap().last_seen_ns, 5);
    assert_eq!(j.peer_mgr.local_id, 1);
    assert_eq!(j.peer_mgr.peers.len(), 1);
}

#[test]
fn malformed_packets_are_refused() {
    let mut h = host();
    let src = at(2, 1);
    assert_eq!(
        h.handle_incoming(&[1, 2, 3], src, 0).unwrap_err(),
        VoiceError::PacketTooShort { len: 3 }
    );
    assert_eq!(
        h.handle_incoming(&[0; 8], src, 0).unwrap_err(),
        VoiceError::UnknownPacketType { pkt_type: 0 }
    );
    assert_eq!(
        h.handle_incoming(&[10; 30], src, 0).unwrap_err(),
        VoiceError::UnknownPacketType { pkt_type: 10 }
    );
    let mut j = joiner(1);
    let wire = j.join_request(1).unwrap();
    assert_eq!(
        j.handle_incoming(&wire, src, 0).unwrap_err(),
        VoiceError::NonHostJoin
    );
}

#[test]
fn bad_payloads_are_refused() {
    let mut h = host();
    let src = at(2, 1);
    let lobby = CryptoContext::new(&KEY, [0; 8]);
    let session = CryptoContext::new(&KEY, SESSION);
    let mut refused = |ctx: &CryptoContext, pkt_type: u8, payload: &[u8]| {
        let wire = seal_packet(ctx, PacketHeader::new(pkt_type, 3, 0, 0), payload).unwrap();
        h.handle_incoming(&wire, src, 0).unwrap_err()
    };
    assert_eq!(refused(&lobby, PKT_JOIN, &[1]), VoiceError::JoinTooShort);
    assert_eq!(refused(&lobby, PKT_PEER_LIST, &[0; 4]), VoiceError::PeerListTooShort);
    assert_eq!(refused(&lobby, PKT_PEER_LIST, &[0; 9]), VoiceError::EmptyPeerList);
    assert_eq!(refused(&session, PKT_PING, &[0; 3]), VoiceError::PingTooShort);
    assert_eq!(refused(&session, PKT_PONG, &[0; 3]), VoiceError::PingTooShort);
    assert_eq!(
        refused(&session, PKT_KEY_EXCHANGE, &[0; 31]),
        VoiceError::KeyExchangeTooShort { len: 31 }
    );
    assert_eq!(refused(&session, PKT_KEY_EXCHANGE, &[0; 32]), VoiceError::BadPublicKey);
}

#[test]
fn the_sixth_participant_is_not_let_in() {
    let mut h = host();
    for i in 0..4 {
        let mut j = joiner(i + 1);
        let hellos = join(&mut h, &mut j, at(1, 1), at(2, i as u16 + 10));
        assert_eq!(hellos.len(), i as usize + 1);
        assert_eq!(j.peer_mgr.local_id, i + 1);
    }
    let wire = joiner(9).join_request(1).unwrap();
    assert_eq!(
        h.handle_incoming(&wire, at(2, 99), 0).unwrap_err(),
        VoiceError::NoPeerIdLeft
    );
    // Someone with an id of its own finds no room either.
    let ctx = CryptoContext::new(&KEY, SESSION);
    let hello = seal_packet(&ctx, PacketHeader::new(PKT_HELLO, 77, 0, 0), &[]).unwrap();
    assert_eq!(
        h.handle_incoming(&hello, at(2, 99), 0).unwrap_err(),
        VoiceError::MaxPeersReached
    );
}

#[test]
fn a_host_that_does_not_know_its_address_cannot_answer() {
    let mut h = host();
    let wire = joiner(1).join_request(1).unwrap();
    h.handle_incoming(&wire, at(2, 1), 0).unwrap();
    let any = PeerAddr::V4 { ip: 0, port: 4567 };
    assert_eq!(
        h.welcome(at(2, 1), any, None).unwrap_err(),
        VoiceError::NoLocalAddress
    );
    let list = h.welcome(at(2, 1), any, Some(PeerIp::V4 { ip: 7 })).unwrap();
    let lobby = CryptoContext::new(&KEY, [0; 8]);
    let payload = open_packet(&lobby, &list.wire).unwrap();
    let parsed = PeerListPayload::from_bytes(&payload).unwrap();
    assert_eq!(parsed.session_id, SESSION);
    assert_eq!(parsed.peers[0], (0, PeerAddr::V4 { ip: 7, port: 4567 }));
}

#[test]
fn hello_ack_is_sealed_for_the_session() {
    let (mut h, _, _, joiner_addr) = connected();
    let ctx = CryptoContext::new(&KEY, SESSION);
    let hello = seal_packet(&ctx, PacketHeader::new(PKT_HELLO, 1, 0, 0), &[]).unwrap();
    let ack = reply(h.handle_incoming(&hello, joiner_addr, 8).unwrap());
    assert_eq!(
        read_header(&ack.wire).unwrap(),
        PacketHeader::new(PKT_HELLO_ACK, 0, 0, 2)
    );
    assert_eq!(open_packet(&ctx, &ack.wire).unwrap(), Vec::<u8>::new());
}

#[test]
fn housekeeping_is_done_when_it_is_due() {
    let (mut h, _, _, _) = connected();
    let mut timers = Timers::new(0);
    assert!(h.tick(&mut timers, SECOND / 2 - 1).is_empty());
    assert_eq!(timers, Timers::new(0));
    assert!(h.tick(&mut timers, SECOND / 2).is_empty());
    assert_eq!(timers.adapt.last_ns, SECOND / 2);
    let alive = h.tick(&mut timers, SECOND);
    assert_eq!(alive.len(), 1);
    assert_eq!(read_header(&alive[0].wire).unwrap().pkt_type, PKT_KEEPALIVE);
    let types: Vec<u8> = h
        .tick(&mut timers, 2 * SECOND)
        .iter()
        .map(|out| read_header(&out.wire).unwrap().pkt_type)
        .collect();
    assert_eq!(types, vec![PKT_KEEPALIVE, PKT_PING, PKT_KEY_EXCHANGE]);
    assert!(h.tick(&mut timers, 2 * SECOND + 1).is_empty());
    assert!(timers.display.is_due(2 * SECOND));
    timers.display.restart(2 * SECOND);
    assert!(!timers.display.is_due(2 * SECOND + 249_999_999));
    assert_eq!(timers.display.elapsed(2 * SECOND + 5), 5);
    // After ten silent seconds the peer is taken for gone, and gets nothing more.
    h.tick(&mut timers, 11 * SECOND);
    assert_eq!(h.peer_info()[0].state, PeerState::Disconnected);
    assert!(h.send_audio(b"anyone").is_empty());
    assert!(h.next_frames().is_empty());
}

#[test]
fn sessions_start_with_a_passphrase() {
    let h = SessionState::new("my-secret-passphrase", true).unwrap();
    let j = SessionState::new("my-secret-passphrase", false).unwrap();
    assert_eq!(h.key, j.key);
    assert!(h.peer_mgr.is_host && !j.peer_mgr.is_host);
    assert_eq!(j.peer_mgr.session_id, [0; 8]);
    let other = SessionState::new("my-secret-passphrase", true).unwrap();
    assert_ne!(h.peer_mgr.session_id, other.peer_mgr.session_id);
    assert_ne!(
        h.key_exchange.public_key_bytes(),
        other.key_exchange.public_key_bytes()
    );
}

#[test]
fn a_wrong_passphrase_is_not_let_in() {
    let mut h = host();
    let mut j = SessionState::start([5; 32], false, [0; 8], KeyExchange::new());
    let wire = j.join_request(4568).unwrap();
    assert_eq!(
        h.handle_incoming(&wire, at(2, 1), 0).unwrap_err(),
        VoiceError::DecryptFailed
    );
    assert!(h.peer_mgr.peers.is_empty());
}

/// The counters of some packets.
fn counters(wires: &[Vec<u8>]) -> Vec<u32> {
    wires.iter().map(|wire| read_header(wire).unwrap().counter).collect()
}

#[test]
fn no_counter_is_used_twice() {
    let (host_addr, joiner_addr) = (at(1, 4567), at(2, 4568));
    let mut h = host();
    let mut j = joiner(0x22);
    let mut sent: Vec<Vec<u8>> = Vec::new();
    let mut received: Vec<Vec<u8>> = Vec::new();
    // Two JOINs, each answered with a list of peers.
    for port in [4568, 4569] {
        let wire = j.join_request(port).unwrap();
        h.handle_incoming(&wire, joiner_addr, 1).unwrap();
        received.push(wire);
        let list = h.welcome(joiner_addr, host_addr, None).unwrap();
        sent.push(list.wire);
    }
    // Both lists, and the first one again, are of one session: the counters go on.
    for k in [0, 1, 0] {
        j.handle_incoming(&sent[k], host_addr, 2).unwrap();
        let hello = j.greet(0, host_addr, 3).unwrap();
        sent.push(reply(h.handle_incoming(&hello.wire, joiner_addr, 4).unwrap()).wire);
        received.push(hello.wire);
    }
    sent.extend(h.keepalives(5).into_iter().map(|out| out.wire));
    sent.extend(h.pings(5).into_iter().map(|out| out.wire));
    sent.extend(h.offer_keys().into_iter().map(|out| out.wire));
    sent.extend(h.send_audio(b"frame").into_iter().map(|out| out.wire));
    assert_eq!(counters(&sent), (0..sent.len() as u32).collect::<Vec<u32>>());
    assert_eq!(counters(&received), (0..received.len() as u32).collect::<Vec<u32>>());
}

#[test]
fn a_public_key_that_comes_again_does_not_reset_the_pair() {
    let (mut h, mut j, host_addr, joiner_addr) = connected();
    let offer = h.offer_keys().remove(0).wire;
    let answer = reply(j.handle_incoming(&offer, host_addr, 9).unwrap()).wire;
    h.handle_incoming(&answer, joiner_addr, 10).unwrap();
    let mut audio = Vec::new();
    for _ in 0..3 {
        audio.push(h.send_audio(b"secret").remove(0).wire);
    }
    h.handle_incoming(&answer, joiner_addr, 11).unwrap();
    audio.push(h.send_audio(b"secret").remove(0).wire);
    assert_eq!(counters(&audio), vec![0, 1, 2, 3]);
    for wire in &audio {
        assert!(matches!(
            j.handle_incoming(wire, host_addr, 12).unwrap(),
            Reaction::Decode { .. }
        ));
    }
}
