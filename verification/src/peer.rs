//! The peers of a session, as one node knows them.
use vstd::prelude::*;

use crate::addr::PeerAddr;
use crate::codec::FRAME_SAMPLES;
use crate::crypto::{CryptoContext, CryptoView, ReplayFilter, ReplayView};
use crate::error::VoiceError;
use crate::find;
use crate::jitter::{JitterBuffer, JitterView};
use crate::latency::{LatencyTracker, LatencyView};
use crate::net::{PeerListPayload, PeerListView};

verus! {

/// The most participants of a session, ourselves counted.
pub const MAX_PEERS: usize = 5;

/// A connected peer that was silent for longer than this is taken for gone.
pub const PEER_TIMEOUT_NS: u64 = 10_000_000_000;

/// How far the connection to a peer has got.
#[derive(Clone, Copy, Debug, PartialEq, Eq, Structural)]
pub enum PeerState {
    /// The peer is known, but no HELLO was exchanged yet.
    Discovered,
    /// A HELLO was sent, and its answer has not come yet.
    HelloSent,
    /// Packets go both ways.
    Connected,
    /// The peer was silent for too long.
    Disconnected,
}

impl PeerState {
    pub open spec fn spec_label(self) -> Seq<char> {
        match self {
            PeerState::Connected => "Connected"@,
            PeerState::HelloSent => "Connecting..."@,
            PeerState::Discovered => "Discovered"@,
            PeerState::Disconnected => "Disconnected"@,
        }
    }

    /// The state in words.
    pub fn label(&self) -> (label: &'static str)
        ensures
            label@ == self.spec_label(),
    {
        match self {
            PeerState::Connected => "Connected",
            PeerState::HelloSent => "Connecting...",
            PeerState::Discovered => "Discovered",
            PeerState::Disconnected => "Disconnected",
        }
    }
}

/// What is known of a remote peer.
pub struct RemotePeer {
    pub id: u8,
    pub addr: PeerAddr,
    pub state: PeerState,
    pub jitter_buffer: JitterBuffer,
    /// Replay protection for audio under the passphrase key.
    pub replay_filter: ReplayFilter,
    /// Replay protection for audio under the key of the pair. Its counters start again at zero.
    pub peer_replay_filter: ReplayFilter,
    /// When the last packet came.
    pub last_seen_ns: u64,
    /// The sequence number of the next audio packet to the peer.
    pub send_seq: u16,
    /// The sample clock of the audio to the peer.
    pub send_timestamp: u32,
    pub latency_tracker: LatencyTracker,
    /// The key of the pair, once the peer's public key has come.
    pub peer_crypto: Option<CryptoContext>,
    /// Whether our public key was sent.
    pub kx_sent: bool,
    /// Whether the peer's public key has come.
    pub kx_received: bool,
}

/// What is known of a remote peer.
#[verifier::ext_equal]
pub struct PeerView {
    pub id: u8,
    pub addr: PeerAddr,
    pub state: PeerState,
    pub jitter: JitterView,
    pub replay: ReplayView,
    pub peer_replay: ReplayView,
    pub last_seen_ns: u64,
    pub send_seq: u16,
    pub send_timestamp: u32,
    pub latency: LatencyView,
    pub peer_crypto: Option<CryptoView>,
    pub kx_sent: bool,
    pub kx_received: bool,
}

pub open spec fn option_view<T: View>(x: Option<T>) -> Option<T::V> {
    match x {
        Some(x) => Some(x@),
        None => None,
    }
}

impl View for RemotePeer {
    type V = PeerView;

    open spec fn view(&self) -> PeerView {
        PeerView {
            id: self.id,
            addr: self.addr,
            state: self.state,
            jitter: self.jitter_buffer@,
            replay: self.replay_filter@,
            peer_replay: self.peer_replay_filter@,
            last_seen_ns: self.last_seen_ns,
            send_seq: self.send_seq,
            send_timestamp: self.send_timestamp,
            latency: self.latency_tracker@,
            peer_crypto: option_view(self.peer_crypto),
            kx_sent: self.kx_sent,
            kx_received: self.kx_received,
        }
    }
}

impl PeerView {
    /// A peer of which nothing has come yet.
    pub open spec fn new(id: u8, addr: PeerAddr, now_ns: u64) -> PeerView {
        PeerView {
            id,
            addr,
            state: PeerState::Discovered,
            jitter: JitterView::new(),
            replay: ReplayView::new(),
            peer_replay: ReplayView::new(),
            last_seen_ns: now_ns,
            send_seq: 0,
            send_timestamp: 0,
            latency: LatencyView::new(),
            peer_crypto: None,
            kx_sent: false,
            kx_received: false,
        }
    }

    /// The buffer and the tracker hold together, and the key of the pair is there exactly when
    /// the peer's public key has come.
    pub open spec fn wf(self) -> bool {
        &&& self.jitter.wf()
        &&& self.latency.wf()
        &&& self.kx_received == (self.peer_crypto is Some)
    }

    pub open spec fn touch(self, now_ns: u64) -> PeerView {
        PeerView { last_seen_ns: now_ns, ..self }
    }

    pub open spec fn connect(self, now_ns: u64) -> PeerView {
        PeerView { state: PeerState::Connected, last_seen_ns: now_ns, ..self }
    }

    pub open spec fn timed_out(self, now_ns: u64) -> bool {
        now_ns - self.last_seen_ns > PEER_TIMEOUT_NS
    }

    /// The peer after the clock was looked at: a connected one that timed out is disconnected.
    pub open spec fn after_timeout(self, now_ns: u64) -> PeerView {
        if self.state == PeerState::Connected && self.timed_out(now_ns) {
            PeerView { state: PeerState::Disconnected, ..self }
        } else {
            self
        }
    }
}

impl RemotePeer {
    pub fn new(id: u8, addr: PeerAddr, now_ns: u64) -> (peer: Self)
        ensures
            peer@ == PeerView::new(id, addr, now_ns),
            peer@.wf(),
    {
        RemotePeer {
            id,
            addr,
            state: PeerState::Discovered,
            jitter_buffer: JitterBuffer::new(),
            replay_filter: ReplayFilter::new(),
            peer_replay_filter: ReplayFilter::new(),
            last_seen_ns: now_ns,
            send_seq: 0,
            send_timestamp: 0,
            latency_tracker: LatencyTracker::new(),
            peer_crypto: None,
            kx_sent: false,
            kx_received: false,
        }
    }

    pub fn is_connected(&self) -> (b: bool)
        ensures
            b == (self.state == PeerState::Connected),
    {
        self.state == PeerState::Connected
    }

    /// Whether nothing came for longer than the time limit.
    pub fn is_timed_out(&self, now_ns: u64) -> (b: bool)
        ensures
            b == self@.timed_out(now_ns),
    {
        now_ns > self.last_seen_ns && now_ns - self.last_seen_ns > PEER_TIMEOUT_NS
    }

    /// Notes that something came just now.
    pub fn touch(&mut self, now_ns: u64)
        ensures
            final(self)@ == old(self)@.touch(now_ns),
    {
        self.last_seen_ns = now_ns;
    }

    /// The sequence number of the next audio packet; they go round.
    pub fn next_seq(&mut self) -> (seq: u16)
        ensures
            seq == old(self).send_seq,
            final(self)@ == (PeerView {
                send_seq: crate::jitter::next_seq(old(self).send_seq),
                ..old(self)@
            }),
    {
        let seq: u16 = self.send_seq;
        self.send_seq = if seq == u16::MAX {
            0
        } else {
            seq + 1
        };
        seq
    }

    /// The sample clock of the next frame; it goes round.
    pub fn advance_timestamp(&mut self) -> (ts: u32)
        ensures
            ts == old(self).send_timestamp,
            final(self)@ == (PeerView {
                send_timestamp: ((old(self).send_timestamp + FRAME_SAMPLES)
                    % 0x1_0000_0000) as u32,
                ..old(self)@
            }),
    {
        let ts: u32 = self.send_timestamp;
        self.send_timestamp = ts.wrapping_add(FRAME_SAMPLES as u32);
        ts
    }
}

/// The map that a list of entries makes, of which a later one hides an earlier one.
spec fn entries_map(entries: Seq<(PeerAddr, u8)>) -> Map<PeerAddr, u8>
    decreases entries.len(),
{
    if entries.len() == 0 {
        Map::empty()
    } else {
        entries_map(entries.drop_last()).insert(entries.last().0, entries.last().1)
    }
}

/// A map from addresses to peer ids.
pub struct AddrTable {
    entries: Vec<(PeerAddr, u8)>,
}

impl View for AddrTable {
    type V = Map<PeerAddr, u8>;

    closed spec fn view(&self) -> Map<PeerAddr, u8> {
        entries_map(self.entries@)
    }
}

pub open spec fn lookup(map: Map<PeerAddr, u8>, addr: PeerAddr) -> Option<u8> {
    if map.dom().contains(addr) {
        Some(map[addr])
    } else {
        None
    }
}

impl AddrTable {
    pub fn new() -> (table: Self)
        ensures
            table@ == Map::<PeerAddr, u8>::empty(),
    {
        AddrTable { entries: Vec::new() }
    }

    /// The peer id of an address.
    pub fn get(&self, addr: &PeerAddr) -> (id: Option<u8>)
        ensures
            id == lookup(self@, *addr),
    {
        let mut found: Option<u8> = None;
        let mut i: usize = 0;
        assert(self.entries@.take(0) =~= Seq::<(PeerAddr, u8)>::empty());
        while i < self.entries.len()
            invariant
                i <= self.entries@.len(),
                found == lookup(entries_map(self.entries@.take(i as int)), *addr),
            decreases self.entries@.len() - i,
        {
            proof {
                let next = self.entries@.take(i + 1);
                assert(next.drop_last() =~= self.entries@.take(i as int));
                assert(next.last() == self.entries@[i as int]);
            }
            let entry = self.entries[i];
            if entry.0 == *addr {
                found = Some(entry.1);
            }
            i = i + 1;
        }
        assert(self.entries@.take(i as int) =~= self.entries@);
        found
    }

    /// Forgets an address.
    pub fn remove(&mut self, addr: PeerAddr)
        ensures
            final(self)@ == old(self)@.remove(addr),
    {
        let mut rest: Vec<(PeerAddr, u8)> = Vec::new();
        let mut i: usize = 0;
        assert(self.entries@.take(0) =~= Seq::<(PeerAddr, u8)>::empty());
        assert(entries_map(rest@) =~= entries_map(self.entries@.take(0)).remove(addr));
        while i < self.entries.len()
            invariant
                i <= self.entries@.len(),
                entries_map(rest@) == entries_map(self.entries@.take(i as int)).remove(addr),
            decreases self.entries@.len() - i,
        {
            let ghost before = entries_map(self.entries@.take(i as int));
            let ghost rest_before = rest@;
            let entry = self.entries[i];
            proof {
                let next = self.entries@.take(i + 1);
                assert(next.drop_last() =~= self.entries@.take(i as int));
                assert(next.last() == entry);
            }
            if entry.0 != addr {
                rest.push(entry);
                proof {
                    assert(rest@.drop_last() =~= rest_before);
                    assert(before.insert(entry.0, entry.1).remove(addr) =~= before.remove(
                        addr,
                    ).insert(entry.0, entry.1));
                }
            } else {
                assert(before.insert(entry.0, entry.1).remove(addr) =~= before.remove(addr));
            }
            i = i + 1;
        }
        assert(self.entries@.take(i as int) =~= self.entries@);
        self.entries = rest;
    }

    /// Sets the peer id of an address.
    pub fn insert(&mut self, addr: PeerAddr, id: u8)
        ensures
            final(self)@ == old(self)@.insert(addr, id),
    {
        let ghost before = self@;
        self.remove(addr);
        let ghost rest = self.entries@;
        self.entries.push((addr, id));
        assert(self.entries@.drop_last() =~= rest);
        assert(before.remove(addr).insert(addr, id) =~= before.insert(addr, id));
    }
}

/// The peers of a session, as this node knows them.
pub struct PeerManager {
    /// Our id.
    pub local_id: u8,
    /// The session id, the same for all peers.
    pub session_id: [u8; 8],
    /// The remote peers, in the order in which they became known.
    pub peers: Vec<RemotePeer>,
    /// Which peer sends from an address.
    pub addr_to_id: AddrTable,
    /// Whether this node is the host.
    pub is_host: bool,
    /// The id for the next peer that joins, at the host.
    pub next_peer_id: u8,
}

/// The peers of a session, as a node knows them.
#[verifier::ext_equal]
pub struct ManagerView {
    pub local_id: u8,
    pub session_id: Seq<u8>,
    pub peers: Seq<PeerView>,
    pub addrs: Map<PeerAddr, u8>,
    pub is_host: bool,
    pub next_peer_id: u8,
}

pub open spec fn peers_view(peers: Seq<RemotePeer>) -> Seq<PeerView> {
    peers.map_values(|p: RemotePeer| p@)
}

impl View for PeerManager {
    type V = ManagerView;

    open spec fn view(&self) -> ManagerView {
        ManagerView {
            local_id: self.local_id,
            session_id: self.session_id@,
            peers: peers_view(self.peers@),
            addrs: self.addr_to_id@,
            is_host: self.is_host,
            next_peer_id: self.next_peer_id,
        }
    }
}

/// That a peer has an id.
pub open spec fn has_id(id: u8) -> spec_fn(PeerView) -> bool {
    |p: PeerView| p.id == id
}

/// The id and the address of a peer.
pub open spec fn contact(peer: PeerView) -> (u8, PeerAddr) {
    (peer.id, peer.addr)
}

pub open spec fn contacts(peers: Seq<PeerView>) -> Seq<(u8, PeerAddr)> {
    peers.map_values(|p: PeerView| contact(p))
}

/// The connected ones of some peers, as ids and addresses.
pub open spec fn connected_contacts(peers: Seq<PeerView>) -> Seq<(u8, PeerAddr)>
    decreases peers.len(),
{
    if peers.len() == 0 {
        Seq::empty()
    } else {
        let before = connected_contacts(peers.drop_last());
        if peers.last().state == PeerState::Connected {
            before.push(contact(peers.last()))
        } else {
            before
        }
    }
}

impl ManagerView {
    /// The host, alone in a new session.
    pub open spec fn new_host(session_id: Seq<u8>) -> ManagerView {
        ManagerView {
            local_id: 0,
            session_id,
            peers: Seq::empty(),
            addrs: Map::empty(),
            is_host: true,
            next_peer_id: 1,
        }
    }

    /// A node that has not joined yet.
    pub open spec fn new_joiner() -> ManagerView {
        ManagerView {
            local_id: 0,
            session_id: seq![0u8, 0, 0, 0, 0, 0, 0, 0],
            peers: Seq::empty(),
            addrs: Map::empty(),
            is_host: false,
            next_peer_id: 0,
        }
    }

    /// No two peers have the same id, there are no more than a session may have, each holds
    /// together, and an address leads to a peer that has it.
    pub open spec fn wf(self) -> bool {
        &&& self.session_id.len() == 8
        &&& self.peers.len() < MAX_PEERS
        &&& forall|i: int, j: int|
            0 <= i < j < self.peers.len() ==> (#[trigger] self.peers[i]).id != (
            #[trigger] self.peers[j]).id
        &&& forall|i: int| 0 <= i < self.peers.len() ==> (#[trigger] self.peers[i]).wf()
        &&& forall|a: PeerAddr| #[trigger]
            self.addrs.dom().contains(a) ==> self.has(self.addrs[a]) && self.get(self.addrs[a]).addr
                == a
        &&& self.next_peer_id <= MAX_PEERS
    }

    /// Where the peer with an id stands; the number of peers if there is none.
    pub open spec fn index(self, id: u8) -> int {
        find::first_index(self.peers, has_id(id)) as int
    }

    pub open spec fn has(self, id: u8) -> bool {
        self.index(id) < self.peers.len()
    }

    pub open spec fn get(self, id: u8) -> PeerView {
        self.peers[self.index(id)]
    }

    /// With the peer that has an id replaced; unchanged if there is none.
    pub open spec fn set(self, id: u8, peer: PeerView) -> ManagerView {
        if self.has(id) {
            ManagerView { peers: self.peers.update(self.index(id), peer), ..self }
        } else {
            self
        }
    }

    pub open spec fn set_identity(self, local_id: u8, session_id: Seq<u8>) -> ManagerView {
        ManagerView { local_id, session_id, ..self }
    }

    /// A peer becomes known if there is room, or the address of a known one changes. We ourselves
    /// are no peer.
    pub open spec fn add_peer(self, id: u8, addr: PeerAddr, now_ns: u64) -> (
        ManagerView,
        Result<(), VoiceError>,
    ) {
        if id == self.local_id {
            (self, Ok(()))
        } else if !self.has(id) {
            if self.peers.len() >= MAX_PEERS - 1 {
                (self, Err(VoiceError::MaxPeersReached))
            } else {
                (
                    ManagerView {
                        peers: self.peers.push(PeerView::new(id, addr, now_ns)),
                        addrs: self.addrs.insert(addr, id),
                        ..self
                    },
                    Ok(()),
                )
            }
        } else if self.get(id).addr == addr {
            (self, Ok(()))
        } else {
            (
                ManagerView {
                    peers: self.peers.update(self.index(id), PeerView { addr, ..self.get(id) }),
                    addrs: self.addrs.remove(self.get(id).addr).insert(addr, id),
                    ..self
                },
                Ok(()),
            )
        }
    }

    /// The host gives out the ids from 1 on, each once.
    pub open spec fn allocate_peer_id(self) -> (ManagerView, Result<u8, VoiceError>) {
        if !self.is_host {
            (self, Err(VoiceError::OnlyHostAllocates))
        } else if self.next_peer_id >= MAX_PEERS {
            (self, Err(VoiceError::NoPeerIdLeft))
        } else {
            (
                ManagerView { next_peer_id: (self.next_peer_id + 1) as u8, ..self },
                Ok(self.next_peer_id),
            )
        }
    }

    /// The list that tells a new peer of everyone: ourselves at an address, then the others.
    pub open spec fn peer_list(self, local_addr: PeerAddr) -> PeerListView {
        PeerListView {
            session_id: self.session_id,
            peers: seq![(self.local_id, local_addr)] + contacts(self.peers),
        }
    }

    pub open spec fn check_timeouts(self, now_ns: u64) -> ManagerView {
        ManagerView { peers: self.peers.map_values(|p: PeerView| p.after_timeout(now_ns)), ..self }
    }
}

/// The first peer with an id has it, and where ids are distinct no other does.
pub proof fn lemma_index(mgr: ManagerView, id: u8)
    ensures
        0 <= mgr.index(id) <= mgr.peers.len(),
        mgr.has(id) ==> mgr.get(id).id == id,
        forall|i: int| 0 <= i < mgr.index(id) ==> (#[trigger] mgr.peers[i]).id != id,
{
    find::lemma_first_index(mgr.peers, has_id(id));
    if mgr.has(id) {
        assert(has_id(id)(mgr.peers[mgr.index(id)]));
    }
    assert forall|i: int| 0 <= i < mgr.index(id) implies (#[trigger] mgr.peers[i]).id != id by {
        assert(!has_id(id)(mgr.peers[i]));
    }
}

/// Where a peer stands.
pub proof fn lemma_index_is(mgr: ManagerView, id: u8, at: int)
    requires
        0 <= at <= mgr.peers.len(),
        forall|i: int| 0 <= i < at ==> (#[trigger] mgr.peers[i]).id != id,
        at < mgr.peers.len() ==> mgr.peers[at].id == id,
    ensures
        mgr.index(id) == at,
{
    assert forall|i: int| 0 <= i < at implies !has_id(id)(#[trigger] mgr.peers[i]) by {
        assert(mgr.peers[i].id != id);
    }
    if at < mgr.peers.len() {
        assert(has_id(id)(mgr.peers[at]));
    }
    find::lemma_first_index_is(mgr.peers, has_id(id), at);
}

/// Changing peers without changing their ids moves no peer.
pub proof fn lemma_index_same(a: ManagerView, b: ManagerView, id: u8)
    requires
        a.peers.len() == b.peers.len(),
        forall|i: int| 0 <= i < a.peers.len() ==> (#[trigger] a.peers[i]).id == b.peers[i].id,
    ensures
        a.index(id) == b.index(id),
{
    assert forall|i: int| 0 <= i < a.peers.len() implies has_id(id)(#[trigger] a.peers[i]) == has_id(
        id,
    )(b.peers[i]) by {
        assert(a.peers[i].id == b.peers[i].id);
    }
    find::lemma_first_index_same(a.peers, b.peers, has_id(id));
}

/// Changing peers, but neither their ids nor their addresses, keeps the invariant as long as each
/// peer keeps its own.
pub proof fn lemma_wf_same_contacts(a: ManagerView, b: ManagerView)
    requires
        a.wf(),
        b.session_id.len() == 8,
        b.addrs == a.addrs,
        b.next_peer_id <= MAX_PEERS,
        b.peers.len() == a.peers.len(),
        forall|i: int|
            0 <= i < a.peers.len() ==> contact(#[trigger] b.peers[i]) == contact(a.peers[i])
                && b.peers[i].wf(),
    ensures
        b.wf(),
{
    assert forall|i: int, j: int| 0 <= i < j < b.peers.len() implies (#[trigger] b.peers[i]).id != (
    #[trigger] b.peers[j]).id by {
        assert(a.peers[i].id != a.peers[j].id);
    }
    assert forall|x: PeerAddr| #[trigger] b.addrs.dom().contains(x) implies b.has(b.addrs[x])
        && b.get(b.addrs[x]).addr == x by {
        assert(a.addrs.dom().contains(x));
        let id = a.addrs[x];
        assert forall|i: int| 0 <= i < a.peers.len() implies (#[trigger] a.peers[i]).id
            == b.peers[i].id by {
            assert(contact(b.peers[i]) == contact(a.peers[i]));
        }
        lemma_index_same(a, b, id);
        assert(contact(b.peers[b.index(id)]) == contact(a.peers[a.index(id)]));
    }
}

/// Replacing a peer by one with the same id and address keeps the invariant.
pub proof fn lemma_set_keeps_wf(mgr: ManagerView, id: u8, peer: PeerView)
    requires
        mgr.wf(),
        mgr.has(id) ==> contact(peer) == contact(mgr.get(id)) && peer.wf(),
    ensures
        mgr.set(id, peer).wf(),
        mgr.set(id, peer).index(id) == mgr.index(id),
        mgr.has(id) ==> mgr.set(id, peer).get(id) == peer,
{
    if mgr.has(id) {
        lemma_index(mgr, id);
        let b = mgr.set(id, peer);
        assert forall|i: int| 0 <= i < mgr.peers.len() implies contact(#[trigger] b.peers[i])
            == contact(mgr.peers[i]) && b.peers[i].wf() by {}
        lemma_wf_same_contacts(mgr, b);
        assert forall|i: int| 0 <= i < mgr.peers.len() implies (#[trigger] mgr.peers[i]).id
            == b.peers[i].id by {
            assert(contact(b.peers[i]) == contact(mgr.peers[i]));
        }
        lemma_index_same(mgr, b, id);
    }
}

/// A peer that was replaced by one with the same id is found under that id.
pub proof fn lemma_set_is_there(mgr: ManagerView, id: u8, p: PeerView)
    requires
        mgr.has(id),
        p.id == id,
    ensures
        mgr.set(id, p).has(id),
        mgr.set(id, p).get(id) == p,
{
    lemma_index(mgr, id);
    let b = mgr.set(id, p);
    assert forall|i: int| 0 <= i < mgr.index(id) implies (#[trigger] b.peers[i]).id != id by {
        assert(b.peers[i] == mgr.peers[i]);
    }
    lemma_index_is(b, id, mgr.index(id));
}

/// A peer that was added is found under its id.
pub proof fn lemma_added_is_there(mgr: ManagerView, id: u8, to: PeerAddr, now_ns: u64)
    requires
        id != mgr.local_id,
        mgr.has(id) || mgr.peers.len() < MAX_PEERS - 1,
    ensures
        mgr.add_peer(id, to, now_ns).1 is Ok,
        mgr.add_peer(id, to, now_ns).0.has(id),
        mgr.add_peer(id, to, now_ns).0.get(id).id == id,
        mgr.add_peer(id, to, now_ns).0.get(id).addr == to,
{
    let b = mgr.add_peer(id, to, now_ns).0;
    lemma_index(mgr, id);
    assert forall|i: int| 0 <= i < mgr.index(id) implies (#[trigger] b.peers[i]).id != id by {
        assert(b.peers[i] == mgr.peers[i]);
    }
    lemma_index_is(b, id, mgr.index(id));
}

/// Adding a peer keeps the invariant: ids stay distinct, there are never more peers than a session
/// may have, and an address leads to a peer that has it.
pub proof fn law_add_peer_keeps_invariant(mgr: ManagerView, id: u8, addr: PeerAddr, now_ns: u64)
    requires
        mgr.wf(),
    ensures
        mgr.add_peer(id, addr, now_ns).0.wf(),
        mgr.add_peer(id, addr, now_ns).1 is Ok && id != mgr.local_id ==> mgr.add_peer(
            id,
            addr,
            now_ns,
        ).0.has(id) && mgr.add_peer(id, addr, now_ns).0.get(id).addr == addr,
{
    let b = mgr.add_peer(id, addr, now_ns).0;
    lemma_index(mgr, id);
    if id == mgr.local_id || (!mgr.has(id) && mgr.peers.len() >= MAX_PEERS - 1) {
    } else if !mgr.has(id) {
        assert forall|i: int, j: int| 0 <= i < j < b.peers.len() implies (#[trigger] b.peers[i]).id
            != (#[trigger] b.peers[j]).id by {
            if j < mgr.peers.len() {
                assert(mgr.peers[i].id != mgr.peers[j].id);
            } else {
                assert(mgr.peers[i].id != id);
            }
        }
        lemma_index_is(b, id, mgr.peers.len() as int);
        assert forall|x: PeerAddr| #[trigger] b.addrs.dom().contains(x) implies b.has(b.addrs[x])
            && b.get(b.addrs[x]).addr == x by {
            if x != addr {
                assert(mgr.addrs.dom().contains(x));
                let other = mgr.addrs[x];
                lemma_index(mgr, other);
                lemma_index_is(b, other, mgr.index(other));
            }
        }
    } else if mgr.get(id).addr != addr {
        assert forall|i: int| 0 <= i < mgr.peers.len() implies (#[trigger] mgr.peers[i]).id
            == b.peers[i].id by {}
        assert forall|i: int, j: int| 0 <= i < j < b.peers.len() implies (#[trigger] b.peers[i]).id
            != (#[trigger] b.peers[j]).id by {
            assert(mgr.peers[i].id != mgr.peers[j].id);
        }
        lemma_index_same(mgr, b, id);
        assert forall|x: PeerAddr| #[trigger] b.addrs.dom().contains(x) implies b.has(b.addrs[x])
            && b.get(b.addrs[x]).addr == x by {
            if x != addr {
                assert(mgr.addrs.dom().contains(x));
                let other = mgr.addrs[x];
                lemma_index(mgr, other);
                lemma_index_same(mgr, b, other);
                assert(other != id);
            }
        }
    }
}

/// A node starts with the invariant, keeps it when it gives out an id, gets an identity or looks
/// at the clock.
pub proof fn law_invariant_is_kept(
    mgr: ManagerView,
    local_id: u8,
    session_id: Seq<u8>,
    now_ns: u64,
)
    requires
        mgr.wf(),
        session_id.len() == 8,
    ensures
        ManagerView::new_host(session_id).wf(),
        ManagerView::new_joiner().wf(),
        mgr.set_identity(local_id, session_id).wf(),
        mgr.allocate_peer_id().0.wf(),
        mgr.check_timeouts(now_ns).wf(),
{
    lemma_wf_same_contacts(mgr, mgr.set_identity(local_id, session_id));
    lemma_wf_same_contacts(mgr, mgr.allocate_peer_id().0);
    lemma_wf_same_contacts(mgr, mgr.check_timeouts(now_ns));
}

/// Looking at the clock changes no more than the state of peers: exactly the connected ones that
/// were silent for too long are no longer connected.
pub proof fn law_silent_peers_are_disconnected(mgr: ManagerView, now_ns: u64, i: int)
    requires
        0 <= i < mgr.peers.len(),
    ensures
        mgr.check_timeouts(now_ns).peers[i].state == (if mgr.peers[i].state == PeerState::Connected
            && now_ns - mgr.peers[i].last_seen_ns > PEER_TIMEOUT_NS {
            PeerState::Disconnected
        } else {
            mgr.peers[i].state
        }),
        contact(mgr.check_timeouts(now_ns).peers[i]) == contact(mgr.peers[i]),
{
}

/// The ids that the host gives out one after the other are different.
pub proof fn law_allocated_ids_are_distinct(mgr: ManagerView, later: ManagerView)
    requires
        mgr.allocate_peer_id().1 is Ok,
        later.next_peer_id >= mgr.allocate_peer_id().0.next_peer_id,
        later.allocate_peer_id().1 is Ok,
    ensures
        mgr.allocate_peer_id().1->Ok_0 != later.allocate_peer_id().1->Ok_0,
{
}

/// The list of peers can be sent: it has few enough entries, and if the addresses are plain it
/// is read as it was written.
pub proof fn law_peer_list_is_readable(mgr: ManagerView, local_addr: PeerAddr)
    requires
        mgr.wf(),
        crate::net::plain_addr(local_addr),
        forall|i: int|
            0 <= i < mgr.peers.len() ==> crate::net::plain_addr((#[trigger] mgr.peers[i]).addr),
    ensures
        mgr.peer_list(local_addr).wf(),
        PeerListView::from_bytes(mgr.peer_list(local_addr).to_bytes()) == Ok::<
            PeerListView,
            VoiceError,
        >(mgr.peer_list(local_addr)),
{
    let list = mgr.peer_list(local_addr);
    assert forall|i: int| 0 <= i < list.peers.len() implies crate::net::plain_addr(
        (#[trigger] list.peers[i]).1,
    ) by {
        if i > 0 {
            assert(list.peers[i] == contact(mgr.peers[i - 1]));
        }
    }
    crate::net::law_peer_list_roundtrip(list);
}

/// The state of a peer in words.
pub proof fn law_labels()
    ensures
        PeerState::Connected.spec_label() == "Connected"@,
        PeerState::HelloSent.spec_label() == "Connecting..."@,
        PeerState::Discovered.spec_label() == "Discovered"@,
        PeerState::Disconnected.spec_label() == "Disconnected"@,
{
}

/// The views of things that are there or not, and of all peers, are the views of each.
pub proof fn law_views_of_many<T: View>(x: T, peers: Seq<RemotePeer>, i: int)
    requires
        0 <= i < peers.len(),
    ensures
        option_view(Some(x)) == Some(x@),
        option_view(None::<T>) == None::<T::V>,
        peers_view(peers).len() == peers.len(),
        peers_view(peers)[i] == peers[i]@,
{
}

/// An address leads to what the table has for it, and to nothing if it has nothing.
pub proof fn law_addresses_are_looked_up(map: Map<PeerAddr, u8>, addr: PeerAddr, id: u8)
    ensures
        lookup(map.insert(addr, id), addr) == Some(id),
        lookup(map.remove(addr), addr) is None,
        lookup(map, addr) == Some(id) <==> map.contains_pair(addr, id),
{
}

/// A session has no more than five participants, and a peer is taken for gone after ten seconds.
pub proof fn law_limits()
    ensures
        MAX_PEERS == 5,
        PEER_TIMEOUT_NS == 10_000_000_000,
{
}

/// A peer is found under an id exactly if one has it, and the one that is found has it.
pub proof fn law_found_by_id(mgr: ManagerView, id: u8)
    ensures
        mgr.has(id) == (exists|i: int|
            0 <= i < mgr.peers.len() && (#[trigger] mgr.peers[i]).id == id),
        mgr.has(id) ==> mgr.get(id).id == id && exists|i: int|
            0 <= i < mgr.peers.len() && (#[trigger] mgr.peers[i]) == mgr.get(id),
{
    lemma_index(mgr, id);
    if mgr.has(id) {
        assert(mgr.peers[mgr.index(id)] == mgr.get(id));
    }
}

/// A stranger that is added is last, at its address, not connected, with nothing sent or received
/// yet, and is looked up under its address; the others stay as they are.
pub proof fn law_stranger_is_added(mgr: ManagerView, id: u8, addr: PeerAddr, now_ns: u64)
    requires
        id != mgr.local_id,
        mgr.peers.len() < 4,
        forall|i: int| 0 <= i < mgr.peers.len() ==> (#[trigger] mgr.peers[i]).id != id,
    ensures
        ({
            let (b, res) = mgr.add_peer(id, addr, now_ns);
            let n = mgr.peers.len() as int;
            let p = b.peers[n];
            &&& res is Ok
            &&& b.peers.len() == n + 1
            &&& b.peers.take(n) == mgr.peers
            &&& b.addrs == mgr.addrs.insert(addr, id)
            &&& p.id == id
            &&& p.addr == addr
            &&& p.state == PeerState::Discovered
            &&& p.last_seen_ns == now_ns
            &&& p.send_seq == 0
            &&& p.send_timestamp == 0
            &&& p.jitter == JitterView::new()
            &&& p.latency == LatencyView::new()
            &&& p.replay == ReplayView::new()
            &&& p.peer_replay == ReplayView::new()
            &&& p.peer_crypto is None
            &&& !p.kx_sent
            &&& !p.kx_received
            &&& b.local_id == mgr.local_id
            &&& b.session_id == mgr.session_id
            &&& b.is_host == mgr.is_host
            &&& b.next_peer_id == mgr.next_peer_id
        }),
{
    lemma_index_is(mgr, id, mgr.peers.len() as int);
    assert(mgr.add_peer(id, addr, now_ns).0.peers.take(mgr.peers.len() as int) =~= mgr.peers);
}

/// A stranger is not added to a session with four other peers, and we ourselves never are.
pub proof fn law_not_everyone_is_added(mgr: ManagerView, id: u8, addr: PeerAddr, now_ns: u64)
    ensures
        id == mgr.local_id ==> mgr.add_peer(id, addr, now_ns) == (mgr, Ok::<(), VoiceError>(())),
        id != mgr.local_id && mgr.peers.len() >= 4 && (forall|i: int|
            0 <= i < mgr.peers.len() ==> (#[trigger] mgr.peers[i]).id != id) ==> mgr.add_peer(
            id,
            addr,
            now_ns,
        ) == (mgr, Err::<(), VoiceError>(VoiceError::MaxPeersReached)),
{
    lemma_index(mgr, id);
}

/// Of a known peer that is added again no more than the address changes, however many peers there
/// are; it is then looked up under the new address and no longer under the old one.
pub proof fn law_known_peer_is_updated(mgr: ManagerView, i: int, addr: PeerAddr, now_ns: u64)
    requires
        mgr.wf(),
        0 <= i < mgr.peers.len(),
        mgr.peers[i].id != mgr.local_id,
    ensures
        ({
            let p = mgr.peers[i];
            let (b, res) = mgr.add_peer(p.id, addr, now_ns);
            &&& res is Ok
            &&& b.peers.len() == mgr.peers.len()
            &&& b.peers[i] == (PeerView { addr, ..p })
            &&& forall|j: int|
                0 <= j < mgr.peers.len() && j != i ==> (#[trigger] b.peers[j]) == mgr.peers[j]
            &&& addr == p.addr ==> b.addrs == mgr.addrs
            &&& addr != p.addr ==> b.addrs == mgr.addrs.remove(p.addr).insert(addr, p.id)
        }),
{
    let id = mgr.peers[i].id;
    assert forall|j: int| 0 <= j < i implies (#[trigger] mgr.peers[j]).id != id by {
        assert(mgr.peers[j].id != mgr.peers[i].id);
    }
    lemma_index_is(mgr, id, i);
}

/// The host, and only the host, gives out the ids 1 to 4, one after the other.
pub proof fn law_ids_are_given_out_in_turn(mgr: ManagerView)
    ensures
        ManagerView::new_host(mgr.session_id).next_peer_id == 1,
        ManagerView::new_host(mgr.session_id).local_id == 0,
        mgr.allocate_peer_id().1 is Ok == (mgr.is_host && mgr.next_peer_id < 5),
        mgr.allocate_peer_id().1 is Ok ==> mgr.allocate_peer_id().1->Ok_0 == mgr.next_peer_id
            && mgr.allocate_peer_id().0.next_peer_id == mgr.next_peer_id + 1,
        mgr.allocate_peer_id().0.peers == mgr.peers,
        mgr.allocate_peer_id().0.addrs == mgr.addrs,
        mgr.allocate_peer_id().1 is Err ==> mgr.allocate_peer_id().0 == mgr,
{
}

/// The list of peers names the session, ourselves first, and then everyone that is known, connected
/// or not, with id and address.
pub proof fn law_list_names_everyone(mgr: ManagerView, local_addr: PeerAddr)
    ensures
        mgr.peer_list(local_addr).session_id == mgr.session_id,
        mgr.peer_list(local_addr).peers.len() == mgr.peers.len() + 1,
        mgr.peer_list(local_addr).peers[0] == (mgr.local_id, local_addr),
        forall|i: int|
            0 <= i < mgr.peers.len() ==> mgr.peer_list(local_addr).peers[i + 1] == (
                (#[trigger] mgr.peers[i]).id,
                mgr.peers[i].addr,
            ),
{
}

/// The connected peers are those whose state says so, with id and address, in their order.
pub proof fn law_connected_peers_are_listed(peers: Seq<PeerView>)
    ensures
        connected_contacts(peers).len() == peers.filter(
            |p: PeerView| p.state == PeerState::Connected,
        ).len(),
        forall|k: int|
            0 <= k < connected_contacts(peers).len() ==> (#[trigger] connected_contacts(peers)[k])
                == (
                peers.filter(|p: PeerView| p.state == PeerState::Connected)[k].id,
                peers.filter(|p: PeerView| p.state == PeerState::Connected)[k].addr,
            ),
    decreases peers.len(),
{
    reveal(Seq::filter);
    if peers.len() > 0 {
        law_connected_peers_are_listed(peers.drop_last());
    }
}

/// All peers are listed, with id and address, in their order.
pub proof fn law_all_peers_are_listed(peers: Seq<PeerView>)
    ensures
        contacts(peers).len() == peers.len(),
        forall|k: int|
            0 <= k < peers.len() ==> (#[trigger] contacts(peers)[k]) == (
                peers[k].id,
                peers[k].addr,
            ),
{
}

/// A peer has timed out exactly if nothing came for more than ten seconds, and looking at the clock
/// changes no more than the state of the connected ones that did.
pub proof fn law_timeout_after_ten_seconds(mgr: ManagerView, now_ns: u64, i: int)
    requires
        0 <= i < mgr.peers.len(),
    ensures
        mgr.peers[i].timed_out(now_ns) == (now_ns > mgr.peers[i].last_seen_ns + 10_000_000_000),
        mgr.check_timeouts(now_ns).peers.len() == mgr.peers.len(),
        mgr.check_timeouts(now_ns).peers[i] == (PeerView {
            state: if mgr.peers[i].state == PeerState::Connected && now_ns
                > mgr.peers[i].last_seen_ns + 10_000_000_000 {
                PeerState::Disconnected
            } else {
                mgr.peers[i].state
            },
            ..mgr.peers[i]
        }),
        mgr.check_timeouts(now_ns) == (ManagerView {
            peers: mgr.check_timeouts(now_ns).peers,
            ..mgr
        }),
{
}

impl PeerManager {
    /// The host of a new session.
    pub fn new_host(session_id: [u8; 8]) -> (mgr: Self)
        ensures
            mgr@ == ManagerView::new_host(session_id@),
            mgr@.wf(),
    {
        let mgr = PeerManager {
            local_id: 0,
            session_id,
            peers: Vec::new(),
            addr_to_id: AddrTable::new(),
            is_host: true,
            next_peer_id: 1,
        };
        assert(mgr@ =~= ManagerView::new_host(session_id@));
        mgr
    }

    /// A node that joins; its id and the session id come with the list of peers.
    pub fn new_joiner() -> (mgr: Self)
        ensures
            mgr@ == ManagerView::new_joiner(),
            mgr@.wf(),
    {
        let mgr = PeerManager {
            local_id: 0,
            session_id: [0u8; 8],
            peers: Vec::new(),
            addr_to_id: AddrTable::new(),
            is_host: false,
            next_peer_id: 0,
        };
        assert(mgr@ =~= ManagerView::new_joiner());
        mgr
    }

    /// Sets our id and the session id.
    pub fn set_identity(&mut self, local_id: u8, session_id: [u8; 8])
        ensures
            final(self)@ == old(self)@.set_identity(local_id, session_id@),
            old(self)@.wf() ==> final(self)@.wf(),
    {
        proof {
            if self@.wf() {
                law_invariant_is_kept(self@, local_id, session_id@, 0);
            }
        }
        self.local_id = local_id;
        self.session_id = session_id;
    }

    /// Where the peer with an id stands; the number of peers if there is none.
    pub fn find_peer(&self, id: u8) -> (at: usize)
        ensures
            at == self@.index(id),
            at <= self.peers@.len(),
            at < self.peers@.len() ==> self.peers@[at as int].id == id,
    {
        let mut at: usize = 0;
        while at < self.peers.len() && self.peers[at].id != id
            invariant
                at <= self.peers@.len(),
                forall|i: int| 0 <= i < at ==> (#[trigger] self.peers@[i]).id != id,
            decreases self.peers@.len() - at,
        {
            at = at + 1;
        }
        proof {
            assert forall|i: int| 0 <= i < at implies (#[trigger] self@.peers[i]).id != id by {
                assert(self.peers@[i].id != id);
            }
            lemma_index_is(self@, id, at as int);
        }
        at
    }

    /// Makes a remote peer known, or updates the address of a known one. Our own id is passed over.
    /// When there are as many peers as there may be, no other one becomes known.
    pub fn add_peer(&mut self, id: u8, addr: PeerAddr, now_ns: u64) -> (res: Result<
        (),
        VoiceError,
    >)
        ensures
            (final(self)@, res) == old(self)@.add_peer(id, addr, now_ns),
            old(self)@.wf() ==> final(self)@.wf(),
    {
        let ghost before = self@;
        proof {
            if before.wf() {
                law_add_peer_keeps_invariant(before, id, addr, now_ns);
            }
        }
        if id == self.local_id {
            return Ok(());
        }
        let at: usize = self.find_peer(id);
        if at == self.peers.len() {
            if self.peers.len() >= MAX_PEERS - 1 {
                return Err(VoiceError::MaxPeersReached);
            }
            self.peers.push(RemotePeer::new(id, addr, now_ns));
            self.addr_to_id.insert(addr, id);
        } else {
            let known: PeerAddr = self.peers[at].addr;
            if known != addr {
                self.addr_to_id.remove(known);
                self.peers[at].addr = addr;
                self.addr_to_id.insert(addr, id);
            }
        }
        assert(self@ =~= before.add_peer(id, addr, now_ns).0);
        Ok(())
    }

    /// Gives out a peer id; only the host does.
    pub fn allocate_peer_id(&mut self) -> (res: Result<u8, VoiceError>)
        ensures
            (final(self)@, res) == old(self)@.allocate_peer_id(),
            old(self)@.wf() ==> final(self)@.wf(),
    {
        proof {
            if self@.wf() {
                law_invariant_is_kept(self@, 0, self@.session_id, 0);
            }
        }
        if !self.is_host {
            return Err(VoiceError::OnlyHostAllocates);
        }
        if self.next_peer_id as usize >= MAX_PEERS {
            return Err(VoiceError::NoPeerIdLeft);
        }
        let id: u8 = self.next_peer_id;
        self.next_peer_id = id + 1;
        Ok(id)
    }

    /// The peer that sends from an address.
    pub fn peer_by_addr(&self, addr: &PeerAddr) -> (id: Option<u8>)
        ensures
            id == lookup(self@.addrs, *addr),
    {
        self.addr_to_id.get(addr)
    }

    /// The peer with an id, to be changed.
    pub fn get_peer_mut(&mut self, id: u8) -> (peer: Option<&mut RemotePeer>)
        ensures
            match peer {
                Some(peer) => {
                    &&& old(self)@.has(id)
                    &&& *peer == old(self).peers@[old(self)@.index(id)]
                    &&& final(self)@ == old(self)@.set(id, final(peer)@)
                },
                None => !old(self)@.has(id) && *final(self) == *old(self),
            },
    {
        let at: usize = self.find_peer(id);
        if at < self.peers.len() {
            Some(&mut self.peers[at])
        } else {
            None
        }
    }

    /// The peer with an id.
    pub fn get_peer(&self, id: u8) -> (peer: Option<&RemotePeer>)
        ensures
            match peer {
                Some(peer) => self@.has(id) && peer@ == self@.get(id),
                None => !self@.has(id),
            },
    {
        let at: usize = self.find_peer(id);
        if at < self.peers.len() {
            Some(&self.peers[at])
        } else {
            None
        }
    }

    /// The connected peers.
    pub fn connected_peers(&self) -> (list: Vec<(u8, PeerAddr)>)
        ensures
            list@ == connected_contacts(self@.peers),
    {
        let mut list: Vec<(u8, PeerAddr)> = Vec::new();
        let mut i: usize = 0;
        assert(self@.peers.take(0) =~= Seq::<PeerView>::empty());
        while i < self.peers.len()
            invariant
                i <= self.peers@.len(),
                list@ == connected_contacts(self@.peers.take(i as int)),
            decreases self.peers@.len() - i,
        {
            proof {
                let next = self@.peers.take(i + 1);
                assert(next.drop_last() =~= self@.peers.take(i as int));
                assert(next.last() == self.peers@[i as int]@);
            }
            if self.peers[i].is_connected() {
                list.push((self.peers[i].id, self.peers[i].addr));
            }
            i = i + 1;
        }
        assert(self@.peers.take(i as int) =~= self@.peers);
        list
    }

    /// All peers, connected or not.
    pub fn all_peer_addrs(&self) -> (list: Vec<(u8, PeerAddr)>)
        ensures
            list@ == contacts(self@.peers),
    {
        let mut list: Vec<(u8, PeerAddr)> = Vec::new();
        let mut i: usize = 0;
        while i < self.peers.len()
            invariant
                i <= self.peers@.len(),
                list@ == contacts(self@.peers).take(i as int),
            decreases self.peers@.len() - i,
        {
            list.push((self.peers[i].id, self.peers[i].addr));
            i = i + 1;
            assert(list@ =~= contacts(self@.peers).take(i as int));
        }
        assert(list@ =~= contacts(self@.peers));
        list
    }

    /// The list that tells a new peer of everyone, ourselves included.
    pub fn build_peer_list(&self, local_addr: PeerAddr) -> (list: PeerListPayload)
        ensures
            list@ == self@.peer_list(local_addr),
    {
        let mut peers: Vec<(u8, PeerAddr)> = Vec::new();
        peers.push((self.local_id, local_addr));
        let mut others: Vec<(u8, PeerAddr)> = self.all_peer_addrs();
        peers.append(&mut others);
        let list = PeerListPayload { session_id: self.session_id, peers };
        assert(list@ =~= self@.peer_list(local_addr));
        list
    }

    /// Marks the connected peers that timed out as disconnected.
    pub fn check_timeouts(&mut self, now_ns: u64)
        ensures
            final(self)@ == old(self)@.check_timeouts(now_ns),
            old(self)@.wf() ==> final(self)@.wf(),
    {
        let ghost before = self@;
        proof {
            if before.wf() {
                law_invariant_is_kept(before, 0, before.session_id, now_ns);
            }
        }
        let mut i: usize = 0;
        while i < self.peers.len()
            invariant
                i <= self.peers@.len() == before.peers.len(),
                self@ == (ManagerView { peers: self@.peers, ..before }),
                forall|j: int|
                    0 <= j < i ==> #[trigger] self@.peers[j] == before.peers[j].after_timeout(
                        now_ns,
                    ),
                forall|j: int|
                    i <= j < before.peers.len() ==> #[trigger] self@.peers[j] == before.peers[j],
            decreases self.peers@.len() - i,
        {
            let ghost prev = self@.peers;
            assert(prev[i as int] == self.peers@[i as int]@);
            if self.peers[i].is_connected() && self.peers[i].is_timed_out(now_ns) {
                self.peers[i].state = PeerState::Disconnected;
            }
            assert(self@.peers =~= prev.update(
                i as int,
                before.peers[i as int].after_timeout(now_ns),
            ));
            i = i + 1;
        }
        assert(self@ =~= before.check_timeouts(now_ns));
    }
}

} // verus!
