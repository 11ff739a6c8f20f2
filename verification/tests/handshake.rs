//! The JOIN, PEER_LIST, HELLO, HELLO_ACK handshake between two nodes, over a network in memory.
use voicechat::addr::PeerAddr;
use voicechat::crypto::{derive_key_from_passphrase, CryptoContext};
use voicechat::net::{
    build_wire_packet, parse_wire_packet, JoinPayload, PacketHeader, PeerListPayload, HEADER_LEN,
    MAX_PACKET_LEN, PKT_AUDIO, PKT_HELLO, PKT_HELLO_ACK, PKT_JOIN, PKT_PEER_LIST,
};
use voicechat::peer::{PeerManager, PeerState};

/// Datagrams on their way: from, to, and the bytes.
struct Network {
    datagrams: Vec<(PeerAddr, PeerAddr, Vec<u8>)>,
}

impl Network {
    fn send(&mut self, from: PeerAddr, to: PeerAddr, wire: &[u8]) {
        assert!(wire.len() <= MAX_PACKET_LEN);
        self.datagrams.push((from, to, wire.to_vec()));
    }

    fn recv(&mut self, at: PeerAddr) -> (Vec<u8>, PeerAddr) {
        let i = self.datagrams.iter().position(|d| d.1 == at).expect("recv timed out");
        let (from, _, wire) = self.datagrams.remove(i);
        (wire, from)
    }
}

#[test]
fn full_handshake_psk() {
    let passphrase = "secret-passphrase-for-test";
    let key = derive_key_from_passphrase(passphrase).unwrap();
    let host_session_id: [u8; 8] = [0xAA, 0xBB, 0xCC, 0xDD, 0xEE, 0xFF, 0x11, 0x22];

    let localhost = u32::from_be_bytes([127, 0, 0, 1]);
    let host_addr = PeerAddr::V4 { ip: localhost, port: 40001 };
    let joiner_addr = PeerAddr::V4 { ip: localhost, port: 40002 };
    let mut net = Network { datagrams: Vec::new() };

    let mut host_pm = PeerManager::new_host(host_session_id);
    let mut joiner_pm = PeerManager::new_joiner();

    // Joiner sends JOIN
    {
        let join = JoinPayload {
            listen_port: joiner_addr.port(),
        };
        let header = PacketHeader::new(PKT_JOIN, 0, 0, 0);
        let header_bytes = header.to_bytes();
        let psk_ctx = CryptoContext::new(&key, [0; 8]);
        let encrypted = psk_ctx
            .encrypt(&header_bytes, &join.to_bytes(), 0, 0, 0)
            .expect("JOIN encrypt");
        let wire = build_wire_packet(&header_bytes, &encrypted);
        net.send(joiner_addr, host_addr, &wire);
    }

    // Host receives JOIN, adds peer, sends PEER_LIST
    {
        let (buf, src_addr) = net.recv(host_addr);
        assert_eq!(src_addr, joiner_addr, "JOIN src should be joiner");

        let (header_bytes, ciphertext) = parse_wire_packet(&buf).unwrap();
        let header = PacketHeader::from_bytes(&header_bytes).unwrap();
        assert_eq!(header.pkt_type, PKT_JOIN);

        // Host decrypts JOIN
        let psk_ctx = CryptoContext::new(&key, [0; 8]);
        let plaintext = psk_ctx
            .decrypt(
                &header_bytes,
                ciphertext,
                header.peer_id,
                header.seq_num,
                header.counter,
            )
            .expect("host decrypt JOIN");
        let _join = JoinPayload::from_bytes(&plaintext).unwrap();

        // Host registers the peer
        let new_id = host_pm.allocate_peer_id().unwrap();
        assert_eq!(new_id, 1, "joiner gets ID 1");
        host_pm.add_peer(new_id, src_addr, 0).unwrap();
        if let Some(peer) = host_pm.get_peer_mut(new_id) {
            peer.state = PeerState::Connected;
            peer.touch(0);
        }

        // Host sends PEER_LIST
        let pl = host_pm.build_peer_list(host_addr);
        let pl_bytes = pl.to_bytes();
        let hdr = PacketHeader::new(PKT_PEER_LIST, host_pm.local_id, 0, 0);
        let hdr_bytes = hdr.to_bytes();
        let psk_ctx = CryptoContext::new(&key, [0; 8]);
        let encrypted = psk_ctx
            .encrypt(&hdr_bytes, &pl_bytes, host_pm.local_id, 0, 0)
            .expect("PEER_LIST encrypt");
        let wire = build_wire_packet(&hdr_bytes, &encrypted);
        net.send(host_addr, src_addr, &wire);
    }

    // Joiner receives PEER_LIST, sets identity, sends HELLO
    let joiner_hello_target: PeerAddr;
    {
        let (buf, src_addr) = net.recv(joiner_addr);
        assert_eq!(src_addr, host_addr);

        let (header_bytes, ciphertext) = parse_wire_packet(&buf).unwrap();
        let header = PacketHeader::from_bytes(&header_bytes).unwrap();
        assert_eq!(header.pkt_type, PKT_PEER_LIST);

        let psk_ctx = CryptoContext::new(&key, [0; 8]);
        let plaintext = psk_ctx
            .decrypt(
                &header_bytes,
                ciphertext,
                header.peer_id,
                header.seq_num,
                header.counter,
            )
            .expect("joiner decrypt PEER_LIST");
        let pl = PeerListPayload::from_bytes(&plaintext).unwrap();
        assert_eq!(pl.session_id, host_session_id);

        let my_id = pl.peers.iter().map(|(id, _)| *id).max().unwrap();
        joiner_pm.set_identity(my_id, pl.session_id);
        assert_eq!(joiner_pm.local_id, 1);
        assert_eq!(joiner_pm.session_id, host_session_id);

        // Send HELLO to host
        let peer_addr = if header.peer_id == 0 {
            src_addr // use actual source, not listed LAN IP
        } else {
            pl.peers
                .iter()
                .find(|(id, _)| *id == header.peer_id)
                .unwrap()
                .1
        };
        joiner_pm.add_peer(0, peer_addr, 0).unwrap();

        let hdr = PacketHeader::new(PKT_HELLO, my_id, 0, 0);
        let hdr_bytes = hdr.to_bytes();
        let psk_ctx = CryptoContext::new(&key, pl.session_id);
        let encrypted = psk_ctx
            .encrypt(&hdr_bytes, &[], my_id, 0, 0)
            .expect("HELLO encrypt");
        let wire = build_wire_packet(&hdr_bytes, &encrypted);
        net.send(joiner_addr, peer_addr, &wire);

        if let Some(peer) = joiner_pm.get_peer_mut(0) {
            peer.state = PeerState::HelloSent;
        }
        joiner_hello_target = peer_addr;
    }
    assert_eq!(joiner_hello_target, host_addr);

    // Host receives HELLO, sends HELLO_ACK
    {
        let (buf, src_addr) = net.recv(host_addr);
        assert_eq!(src_addr, joiner_addr);

        let (header_bytes, ciphertext) = parse_wire_packet(&buf).unwrap();
        let header = PacketHeader::from_bytes(&header_bytes).unwrap();
        assert_eq!(header.pkt_type, PKT_HELLO);

        let psk_ctx = CryptoContext::new(&key, host_pm.session_id);
        psk_ctx
            .decrypt(
                &header_bytes,
                ciphertext,
                header.peer_id,
                header.seq_num,
                header.counter,
            )
            .expect("host decrypt HELLO");

        if let Some(peer) = host_pm.get_peer_mut(header.peer_id) {
            peer.state = PeerState::Connected;
            peer.touch(0);
        }

        // Send HELLO_ACK
        let hdr = PacketHeader::new(PKT_HELLO_ACK, host_pm.local_id, 0, 0);
        let hdr_bytes = hdr.to_bytes();
        let psk_ctx = CryptoContext::new(&key, host_pm.session_id);
        let encrypted = psk_ctx
            .encrypt(&hdr_bytes, &[], host_pm.local_id, 0, 0)
            .expect("HELLO_ACK encrypt");
        let wire = build_wire_packet(&hdr_bytes, &encrypted);
        net.send(host_addr, src_addr, &wire);
    }

    // Joiner receives HELLO_ACK, and the peer is Connected
    {
        let (buf, src_addr) = net.recv(joiner_addr);
        assert_eq!(src_addr, host_addr);

        let (header_bytes, ciphertext) = parse_wire_packet(&buf).unwrap();
        let header = PacketHeader::from_bytes(&header_bytes).unwrap();
        assert_eq!(header.pkt_type, PKT_HELLO_ACK);

        let psk_ctx = CryptoContext::new(&key, joiner_pm.session_id);
        psk_ctx
            .decrypt(
                &header_bytes,
                ciphertext,
                header.peer_id,
                header.seq_num,
                header.counter,
            )
            .expect("joiner decrypt HELLO_ACK");

        if let Some(peer) = joiner_pm.get_peer_mut(header.peer_id) {
            peer.state = PeerState::Connected;
        }
    }

    // Both sides should be Connected
    assert!(host_pm.get_peer(1).unwrap().is_connected(), "host→joiner");
    assert!(joiner_pm.get_peer(0).unwrap().is_connected(), "joiner→host");

    // Header length sanity
    assert_eq!(HEADER_LEN, 8);

    // Audio after the handshake: keepalives use up counters first, and the receiver decrypts with
    // the counter of the header.
    let host_session_id_actual = host_pm.session_id;
    let mut host_crypto = CryptoContext::new(&key, host_session_id_actual);
    let joiner_crypto = CryptoContext::new(&key, joiner_pm.session_id);

    for _ in 0..3 {
        let _ = host_crypto.next_counter().unwrap();
    }

    // Host sends a synthetic audio packet (plaintext stand-in for Opus data)
    let fake_opus = b"fake opus frame";
    let counter = host_crypto.next_counter().unwrap();
    assert_eq!(counter, 3, "expected 4th reservation");
    let audio_header = PacketHeader::new(PKT_AUDIO, host_pm.local_id, 42, counter);
    let audio_header_bytes = audio_header.to_bytes();
    let encrypted = host_crypto
        .encrypt(
            &audio_header_bytes,
            fake_opus,
            host_pm.local_id,
            42,
            counter,
        )
        .expect("audio encrypt");
    let wire = build_wire_packet(&audio_header_bytes, &encrypted);
    net.send(host_addr, joiner_addr, &wire);

    // Joiner receives and decrypts using header.counter
    let (buf, src_addr) = net.recv(joiner_addr);
    assert_eq!(src_addr, host_addr);
    let (header_bytes, ciphertext) = parse_wire_packet(&buf).unwrap();
    let header = PacketHeader::from_bytes(&header_bytes).unwrap();
    assert_eq!(header.pkt_type, PKT_AUDIO);
    assert_eq!(header.counter, 3, "counter must survive the wire");
    let plaintext = joiner_crypto
        .decrypt(
            &header_bytes,
            ciphertext,
            header.peer_id,
            header.seq_num,
            header.counter,
        )
        .expect("joiner decrypt audio");
    assert_eq!(plaintext, fake_opus);
}
