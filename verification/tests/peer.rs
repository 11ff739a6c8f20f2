use voicechat::addr::PeerAddr;
use voicechat::error::VoiceError;
use voicechat::peer::{PeerManager, PeerState, RemotePeer, MAX_PEERS};

fn local(port: u16) -> PeerAddr {
    PeerAddr::V4 { ip: u32::from_be_bytes([127, 0, 0, 1]), port }
}

#[test]
fn test_peer_manager_host() {
    let mut pm = PeerManager::new_host([0xAA; 8]);
    assert_eq!(pm.local_id, 0);
    assert!(pm.is_host);

    let id1 = pm.allocate_peer_id().unwrap();
    assert_eq!(id1, 1);

    pm.add_peer(id1, local(5001), 0).unwrap();
    assert_eq!(pm.peers.len(), 1);
    assert_eq!(pm.peer_by_addr(&local(5001)), Some(1));
}

#[test]
fn test_max_peers() {
    let mut pm = PeerManager::new_host([0; 8]);
    for i in 1..5u8 {
        pm.add_peer(i, local(5000 + i as u16), 0).unwrap();
    }
    // 5th peer should fail (we already have 4 remotes + ourself = 5)
    assert!(pm.add_peer(5, local(5005), 0).is_err());
}

#[test]
fn ids_are_given_out_once() {
    let mut pm = PeerManager::new_host([0; 8]);
    let ids: Vec<u8> = (0..4).map(|_| pm.allocate_peer_id().unwrap()).collect();
    assert_eq!(ids, vec![1, 2, 3, 4]);
    assert_eq!(pm.allocate_peer_id(), Err(VoiceError::NoPeerIdLeft));
    assert_eq!(
        PeerManager::new_joiner().allocate_peer_id(),
        Err(VoiceError::OnlyHostAllocates)
    );
    assert_eq!(MAX_PEERS, 5);
}

#[test]
fn own_id_is_no_peer() {
    let mut pm = PeerManager::new_host([0; 8]);
    assert_eq!(pm.add_peer(0, local(1), 0), Ok(()));
    assert!(pm.peers.is_empty());
    pm.set_identity(3, [9; 8]);
    assert_eq!(pm.add_peer(3, local(1), 0), Ok(()));
    assert!(pm.peers.is_empty());
    assert_eq!(pm.session_id, [9; 8]);
}

#[test]
fn address_changes() {
    let mut pm = PeerManager::new_host([0; 8]);
    pm.add_peer(1, local(5001), 0).unwrap();
    pm.add_peer(1, local(5002), 0).unwrap();
    assert_eq!(pm.peers.len(), 1);
    assert_eq!(pm.peer_by_addr(&local(5001)), None);
    assert_eq!(pm.peer_by_addr(&local(5002)), Some(1));
    assert_eq!(pm.get_peer(1).unwrap().addr, local(5002));
    pm.add_peer(2, local(5002), 0).unwrap();
    assert_eq!(pm.peer_by_addr(&local(5002)), Some(2));
}

#[test]
fn a_known_peer_is_updated_in_a_full_session() {
    let mut pm = PeerManager::new_host([0; 8]);
    for i in 1..5 {
        pm.add_peer(i, local(5000 + i as u16), 0).unwrap();
    }
    assert_eq!(pm.add_peer(1, local(6001), 0), Ok(()));
    assert_eq!(pm.get_peer(1).unwrap().addr, local(6001));
    assert_eq!(pm.peer_by_addr(&local(6001)), Some(1));
    assert_eq!(pm.peer_by_addr(&local(5001)), None);
    assert_eq!(pm.peers.len(), 4);
    assert_eq!(pm.add_peer(0, local(1), 0), Ok(()));
    assert_eq!(pm.add_peer(5, local(5005), 0), Err(VoiceError::MaxPeersReached));
    assert_eq!(pm.peers.len(), 4);
}

#[test]
fn peers_are_found_and_changed_by_id() {
    let mut pm = PeerManager::new_host([0; 8]);
    pm.add_peer(1, local(5001), 7).unwrap();
    pm.add_peer(2, local(5002), 8).unwrap();
    assert!(pm.get_peer(3).is_none());
    assert!(pm.get_peer_mut(3).is_none());
    pm.get_peer_mut(2).unwrap().state = PeerState::Connected;
    assert_eq!(pm.get_peer(1).unwrap().state, PeerState::Discovered);
    assert!(pm.get_peer(2).unwrap().is_connected());
    assert_eq!(pm.get_peer(2).unwrap().last_seen_ns, 8);
    assert_eq!(pm.connected_peers(), vec![(2, local(5002))]);
    assert_eq!(pm.all_peer_addrs(), vec![(1, local(5001)), (2, local(5002))]);
    let list = pm.build_peer_list(local(4567));
    assert_eq!(list.session_id, [0; 8]);
    assert_eq!(
        list.peers,
        vec![(0, local(4567)), (1, local(5001)), (2, local(5002))]
    );
}

#[test]
fn silent_peers_are_disconnected() {
    let mut pm = PeerManager::new_host([0; 8]);
    for i in 1..4 {
        pm.add_peer(i, local(i as u16), 0).unwrap();
    }
    pm.get_peer_mut(1).unwrap().state = PeerState::Connected;
    pm.get_peer_mut(2).unwrap().state = PeerState::Connected;
    pm.get_peer_mut(2).unwrap().touch(1);
    pm.get_peer_mut(3).unwrap().state = PeerState::HelloSent;
    pm.check_timeouts(10_000_000_000);
    assert!(pm.get_peer(1).unwrap().is_connected());
    pm.check_timeouts(10_000_000_001);
    assert_eq!(pm.get_peer(1).unwrap().state, PeerState::Disconnected);
    assert!(pm.get_peer(2).unwrap().is_connected());
    assert_eq!(pm.get_peer(3).unwrap().state, PeerState::HelloSent);
}

#[test]
fn sequence_numbers_and_timestamps_go_round() {
    let mut peer = RemotePeer::new(1, local(1), 0);
    assert_eq!(peer.next_seq(), 0);
    assert_eq!(peer.next_seq(), 1);
    peer.send_seq = u16::MAX;
    assert_eq!(peer.next_seq(), u16::MAX);
    assert_eq!(peer.next_seq(), 0);
    assert_eq!(peer.advance_timestamp(), 0);
    assert_eq!(peer.advance_timestamp(), 120);
    peer.send_timestamp = u32::MAX;
    peer.advance_timestamp();
    assert_eq!(peer.send_timestamp, 119);
    assert!(!peer.is_timed_out(10_000_000_000));
    assert!(peer.is_timed_out(10_000_000_001));
}
