//! What a node does with the packets that come in.
use rand::RngCore;
use vstd::prelude::*;

use crate::addr;
use crate::addr::{PeerAddr, PeerIp};
use crate::crypto;
use crate::crypto::{CryptoContext, CryptoView};
use crate::error::VoiceError;
use crate::events;
use crate::events::Event;
use crate::key_exchange;
use crate::key_exchange::{KeyExchange, KeyExchangePayload};
use crate::latency::PingPayload;
use crate::net;
use crate::net::{
    JoinPayload, PacketHeader, PeerListPayload, PeerListView, HEADER_LEN, PKT_AUDIO, PKT_HELLO,
    PKT_HELLO_ACK, PKT_JOIN, PKT_KEEPALIVE, PKT_KEY_EXCHANGE, PKT_PEER_LIST, PKT_PING, PKT_PONG,
};
use crate::packet;
use crate::peer;
use crate::peer::{ManagerView, PeerManager, PeerState, PeerView};

verus! {

/// A packet to be sent.
#[derive(Debug)]
pub struct Outgoing {
    pub to: PeerAddr,
    pub wire: Vec<u8>,
}

/// A packet to be sent.
#[verifier::ext_equal]
pub struct OutgoingView {
    pub to: PeerAddr,
    pub wire: Seq<u8>,
}

impl View for Outgoing {
    type V = OutgoingView;

    open spec fn view(&self) -> OutgoingView {
        OutgoingView { to: self.to, wire: self.wire@ }
    }
}

/// What is to be done after a packet came in.
#[derive(Debug)]
pub enum Reaction {
    /// Nothing.
    Quiet,
    /// A packet is to be sent.
    Reply(Outgoing),
    /// A new peer was let in and is to get the list of peers.
    Welcome { to: PeerAddr },
    /// We are in, and are to greet these peers, one after the other.
    Greet { peers: Vec<(u8, PeerAddr)> },
    /// An audio frame is to be decoded, and then delivered.
    Decode { peer_id: u8, seq_num: u16, opus: Vec<u8> },
}

/// What is to be done after a packet came in.
#[verifier::ext_equal]
pub enum ReactionView {
    Quiet,
    Reply(OutgoingView),
    Welcome { to: PeerAddr },
    Greet { peers: Seq<(u8, PeerAddr)> },
    Decode { peer_id: u8, seq_num: u16, opus: Seq<u8> },
}

impl View for Reaction {
    type V = ReactionView;

    open spec fn view(&self) -> ReactionView {
        match self {
            Reaction::Quiet => ReactionView::Quiet,
            Reaction::Reply(out) => ReactionView::Reply(out@),
            Reaction::Welcome { to } => ReactionView::Welcome { to: *to },
            Reaction::Greet { peers } => ReactionView::Greet { peers: peers@ },
            Reaction::Decode { peer_id, seq_num, opus } => ReactionView::Decode {
                peer_id: *peer_id,
                seq_num: *seq_num,
                opus: opus@,
            },
        }
    }
}

/// The session id before there is one. Packets from before a peer knows the session use it.
pub open spec fn no_session() -> Seq<u8> {
    seq![0u8, 0, 0, 0, 0, 0, 0, 0]
}

/// The largest id in a list of peers.
pub open spec fn max_id(peers: Seq<(u8, PeerAddr)>) -> u8
    decreases peers.len(),
{
    if peers.len() <= 1 {
        peers[0].0
    } else {
        let before = max_id(peers.drop_last());
        if peers.last().0 > before {
            peers.last().0
        } else {
            before
        }
    }
}

/// Whom a node with the id `my_id` greets after it got a list of peers from `sender_id`: everyone
/// but itself, and the sender where it sent from, since the address that it gives for itself may
/// not be reachable.
pub open spec fn to_greet(
    peers: Seq<(u8, PeerAddr)>,
    my_id: u8,
    sender_id: u8,
    src: PeerAddr,
) -> Seq<(u8, PeerAddr)>
    decreases peers.len(),
{
    if peers.len() == 0 {
        Seq::empty()
    } else {
        let before = to_greet(peers.drop_last(), my_id, sender_id, src);
        let (id, listed) = peers.last();
        if id == my_id {
            before
        } else if id == sender_id {
            before.push((id, src))
        } else {
            before.push((id, listed))
        }
    }
}

/// The state of a session at a node.
pub struct SessionState {
    /// The key from the passphrase.
    pub key: [u8; 32],
    pub peer_mgr: PeerManager,
    /// For the packets that are not encrypted under the key of a pair. All of them take their
    /// counters from it, those from before a peer knows the session too.
    pub crypto_ctx: CryptoContext,
    /// Our key pair.
    pub key_exchange: KeyExchange,
}

/// The state of a session at a node.
#[verifier::ext_equal]
pub struct SessionView {
    pub key: Seq<u8>,
    pub mgr: ManagerView,
    pub ctx: CryptoView,
    /// The secret key of our key pair.
    pub secret: Seq<u8>,
}

impl View for SessionState {
    type V = SessionView;

    open spec fn view(&self) -> SessionView {
        SessionView {
            key: self.key@,
            mgr: self.peer_mgr@,
            ctx: self.crypto_ctx@,
            secret: self.key_exchange@,
        }
    }
}

/// The state of a session, and what came of an event.
pub type Step = (SessionView, Result<ReactionView, VoiceError>);

impl SessionView {
    /// The peers hold together, and the context has the key and the id of the session.
    pub open spec fn wf(self) -> bool {
        &&& self.mgr.wf()
        &&& self.key.len() == 32
        &&& self.ctx.key == self.key
        &&& self.ctx.session_id == self.mgr.session_id
    }

    /// Our secret key and our public key have the length of such keys.
    pub open spec fn has_key_pair(self) -> bool {
        self.secret.len() == 32 && key_exchange::x25519_public(self.secret).len() == 32
    }

    /// A session as it starts: the host has made a session id, a joiner has none.
    pub open spec fn start(
        key: Seq<u8>,
        is_host: bool,
        session_id: Seq<u8>,
        secret: Seq<u8>,
    ) -> SessionView {
        SessionView {
            key,
            mgr: if is_host {
                ManagerView::new_host(session_id)
            } else {
                ManagerView::new_joiner()
            },
            ctx: CryptoView::new(
                key,
                if is_host {
                    session_id
                } else {
                    no_session()
                },
            ),
            secret,
        }
    }

    /// The context for packets from before a peer knows the session.
    pub open spec fn lobby(self) -> CryptoView {
        CryptoView::new(self.key, no_session())
    }

    /// A packet for those in the session, with the next counter.
    pub open spec fn session_packet(self, pkt_type: u8, payload: Seq<u8>) -> (
        SessionView,
        Result<Seq<u8>, VoiceError>,
    ) {
        let (ctx, counter) = self.ctx.next_counter();
        (
            SessionView { ctx, ..self },
            match counter {
                Ok(counter) => packet::sealed(
                    self.ctx,
                    PacketHeader::spec_new(pkt_type, self.mgr.local_id, 0, counter),
                    payload,
                ),
                Err(e) => Err(e),
            },
        )
    }

    /// A packet for those who know no more than the passphrase, with the next counter.
    pub open spec fn lobby_packet(self, pkt_type: u8, id: u8, payload: Seq<u8>) -> (
        SessionView,
        Result<Seq<u8>, VoiceError>,
    ) {
        let (ctx, counter) = self.ctx.next_counter();
        (
            SessionView { ctx, ..self },
            match counter {
                Ok(counter) => packet::sealed(
                    self.lobby(),
                    PacketHeader::spec_new(pkt_type, id, 0, counter),
                    payload,
                ),
                Err(e) => Err(e),
            },
        )
    }

    /// The JOIN of a node that listens on a port.
    pub open spec fn join_request(self, listen_port: u16) -> (
        SessionView,
        Result<Seq<u8>, VoiceError>,
    ) {
        self.lobby_packet(PKT_JOIN, 0, JoinPayload { listen_port }.spec_to_bytes())
    }

    /// With the peer that has an id replaced.
    pub open spec fn set_peer(self, id: u8, p: PeerView) -> SessionView {
        SessionView { mgr: self.mgr.set(id, p), ..self }
    }

    /// Something came from the peer that sends from an address.
    pub open spec fn touch_sender(self, src: PeerAddr, now_ns: u64) -> SessionView {
        match peer::lookup(self.mgr.addrs, src) {
            Some(id) => self.set_peer(id, self.mgr.get(id).touch(now_ns)),
            None => self,
        }
    }

    /// A JOIN came. The host gives the peer an id and takes it in as connected.
    pub open spec fn on_join(self, payload: Seq<u8>, src: PeerAddr, now_ns: u64) -> Step {
        match JoinPayload::spec_from_bytes(payload) {
            Err(e) => (self, Err(e)),
            Ok(_) => {
                let (allocated, id) = self.mgr.allocate_peer_id();
                match id {
                    Err(e) => (SessionView { mgr: allocated, ..self }, Err(e)),
                    Ok(id) => {
                        let (added, res) = allocated.add_peer(id, src, now_ns);
                        match res {
                            Err(e) => (SessionView { mgr: added, ..self }, Err(e)),
                            Ok(_) => (
                                SessionView {
                                    mgr: added.set(id, added.get(id).connect(now_ns)),
                                    ..self
                                },
                                Ok(ReactionView::Welcome { to: src }),
                            ),
                        }
                    },
                }
            },
        }
    }

    /// The list of peers for a new peer, if we know an address at which it reaches us.
    pub open spec fn welcome(self, to: PeerAddr, local: PeerAddr, routable: Option<PeerIp>) -> (
        SessionView,
        Result<OutgoingView, VoiceError>,
    ) {
        match addr::spec_reachable_addr(local, routable) {
            None => (self, Err(VoiceError::NoLocalAddress)),
            Some(here) => {
                let (s, wire) = self.lobby_packet(
                    PKT_PEER_LIST,
                    self.mgr.local_id,
                    self.mgr.peer_list(here).to_bytes(),
                );
                (
                    s,
                    match wire {
                        Ok(wire) => Ok(OutgoingView { to, wire }),
                        Err(e) => Err(e),
                    },
                )
            },
        }
    }

    /// A list of peers came: our id is the largest in it. The counters go on, whether the session
    /// is another one or the same.
    pub open spec fn on_peer_list(self, payload: Seq<u8>, sender_id: u8, src: PeerAddr) -> Step {
        match PeerListView::from_bytes(payload) {
            Err(e) => (self, Err(e)),
            Ok(list) => if list.peers.len() == 0 {
                (self, Err(VoiceError::EmptyPeerList))
            } else {
                let my_id = max_id(list.peers);
                (
                    SessionView {
                        mgr: self.mgr.set_identity(my_id, list.session_id),
                        ctx: self.ctx.rekey(self.key, list.session_id),
                        ..self
                    },
                    Ok(
                        ReactionView::Greet {
                            peers: to_greet(list.peers, my_id, sender_id, src),
                        },
                    ),
                )
            },
        }
    }

    /// The HELLO to a peer of the list; the peer becomes known.
    pub open spec fn greet(self, id: u8, to: PeerAddr, now_ns: u64) -> (
        SessionView,
        Result<OutgoingView, VoiceError>,
    ) {
        let (added, res) = self.mgr.add_peer(id, to, now_ns);
        let s = SessionView { mgr: added, ..self };
        match res {
            Err(e) => (s, Err(e)),
            Ok(_) => {
                let (t, wire) = s.session_packet(PKT_HELLO, Seq::empty());
                (
                    t,
                    match wire {
                        Ok(wire) => Ok(OutgoingView { to, wire }),
                        Err(e) => Err(e),
                    },
                )
            },
        }
    }

    /// The HELLO to a peer has left.
    pub open spec fn hello_sent(self, id: u8) -> SessionView {
        self.set_peer(id, PeerView { state: PeerState::HelloSent, ..self.mgr.get(id) })
    }

    /// A HELLO came: the sender is connected, and gets an answer.
    pub open spec fn on_hello(self, sender_id: u8, src: PeerAddr, now_ns: u64) -> Step {
        let (added, res) = if self.mgr.has(sender_id) {
            (self.mgr, Ok(()))
        } else {
            self.mgr.add_peer(sender_id, src, now_ns)
        };
        let s = SessionView { mgr: added, ..self };
        match res {
            Err(e) => (s, Err(e)),
            Ok(_) => {
                let t = s.set_peer(sender_id, s.mgr.get(sender_id).connect(now_ns));
                let (u, wire) = t.session_packet(PKT_HELLO_ACK, Seq::empty());
                (
                    u,
                    match wire {
                        Ok(wire) => Ok(ReactionView::Reply(OutgoingView { to: src, wire })),
                        Err(e) => Err(e),
                    },
                )
            },
        }
    }

    /// The answer to a HELLO came: the sender is connected.
    pub open spec fn on_hello_ack(self, sender_id: u8, now_ns: u64) -> SessionView {
        self.set_peer(sender_id, self.mgr.get(sender_id).connect(now_ns))
    }

    /// A PING came, and is answered as long as there are counters left.
    pub open spec fn on_ping(self, payload: Seq<u8>, src: PeerAddr, now_ns: u64) -> Step {
        match PingPayload::spec_from_bytes(payload) {
            Err(e) => (self, Err(e)),
            Ok(ping) => {
                let (ctx, counter) = self.ctx.next_counter();
                match counter {
                    Err(_) => (self, Ok(ReactionView::Quiet)),
                    Ok(counter) => (
                        SessionView { ctx, ..self }.touch_sender(src, now_ns),
                        Ok(
                            match packet::sealed(
                                ctx,
                                PacketHeader::spec_new(PKT_PONG, self.mgr.local_id, 0, counter),
                                ping.spec_to_bytes(),
                            ) {
                                Ok(wire) => ReactionView::Reply(OutgoingView { to: src, wire }),
                                Err(_) => ReactionView::Quiet,
                            },
                        ),
                    ),
                }
            },
        }
    }

    /// The answer to a PING came, and is measured.
    pub open spec fn on_pong(self, payload: Seq<u8>, sender_id: u8, now_ns: u64) -> Step {
        match PingPayload::spec_from_bytes(payload) {
            Err(e) => (self, Err(e)),
            Ok(pong) => {
                let p = self.mgr.get(sender_id);
                (
                    self.set_peer(
                        sender_id,
                        PeerView {
                            latency: p.latency.pong_received(pong.ping_id, now_ns),
                            last_seen_ns: now_ns,
                            ..p
                        },
                    ),
                    Ok(ReactionView::Quiet),
                )
            },
        }
    }

    /// Our public key, to be sent to a peer.
    pub open spec fn key_offer(self) -> (SessionView, Result<Seq<u8>, VoiceError>) {
        self.session_packet(PKT_KEY_EXCHANGE, key_exchange::x25519_public(self.secret))
    }

    /// A peer with which we have a key. The counters of the pair go on, whether the key is another
    /// one or the same.
    pub open spec fn with_pair_key(self, p: PeerView, peer_key: Seq<u8>) -> PeerView {
        PeerView {
            peer_crypto: Some(
                match p.peer_crypto {
                    Some(ctx) => ctx.rekey(peer_key, self.mgr.session_id),
                    None => CryptoView::new(peer_key, self.mgr.session_id),
                },
            ),
            kx_received: true,
            ..p
        }
    }

    /// The key that we have with a peer is known. If the peer does not have our public key yet, it
    /// gets it.
    pub open spec fn install_peer_key(self, sender_id: u8, peer_key: Seq<u8>, src: PeerAddr) -> (
        SessionView,
        ReactionView,
    ) {
        let p = self.with_pair_key(self.mgr.get(sender_id), peer_key);
        let s = self.set_peer(sender_id, p);
        if !self.mgr.has(sender_id) || p.kx_sent {
            (s, ReactionView::Quiet)
        } else {
            let (t, offer) = s.key_offer();
            match offer {
                Ok(wire) => (
                    t.set_peer(sender_id, PeerView { kx_sent: true, ..t.mgr.get(sender_id) }),
                    ReactionView::Reply(OutgoingView { to: src, wire }),
                ),
                Err(_) => (t, ReactionView::Quiet),
            }
        }
    }

    /// That we and whoever has the secret key to the public key in a payload derive the same key.
    pub open spec fn keys_agree(self, payload: Seq<u8>, sender_id: u8) -> bool {
        forall|other: Seq<u8>|
            other.len() == 32 && KeyExchangePayload::spec_from_bytes(payload) == Ok::<
                Seq<u8>,
                VoiceError,
            >(#[trigger] key_exchange::x25519_public(other)) ==> key_exchange::spec_peer_key(
                self.secret,
                key_exchange::x25519_public(other),
                self.mgr.session_id,
                self.mgr.local_id,
                sender_id,
            ) == key_exchange::spec_peer_key(
                other,
                key_exchange::x25519_public(self.secret),
                self.mgr.session_id,
                sender_id,
                self.mgr.local_id,
            )
    }

    /// A public key came.
    pub open spec fn on_key_exchange(self, payload: Seq<u8>, sender_id: u8, src: PeerAddr) -> Step {
        match KeyExchangePayload::spec_from_bytes(payload) {
            Err(e) => (self, Err(e)),
            Ok(public) => match key_exchange::spec_peer_key(
                self.secret,
                public,
                self.mgr.session_id,
                self.mgr.local_id,
                sender_id,
            ) {
                Err(e) => (self, Err(e)),
                Ok(peer_key) => {
                    let (s, reaction) = self.install_peer_key(sender_id, peer_key, src);
                    (s, Ok(reaction))
                },
            },
        }
    }

    /// An audio packet came that was authentic under the key of the pair, or else under the
    /// passphrase key. The two have each their own replay protection, since the counters of the
    /// key of the pair start again at zero.
    pub open spec fn on_audio(
        self,
        header: PacketHeader,
        pair_key: bool,
        opus: Seq<u8>,
        now_ns: u64,
    ) -> Step {
        let id = header.peer_id;
        let counter = header.counter as int;
        if !self.mgr.has(id) {
            (self, Ok(ReactionView::Quiet))
        } else {
            let p = self.mgr.get(id).touch(now_ns);
            let (accepted, q) = if pair_key {
                (
                    p.peer_replay.accepts(counter),
                    PeerView { peer_replay: p.peer_replay.after(counter), ..p },
                )
            } else {
                (p.replay.accepts(counter), PeerView { replay: p.replay.after(counter), ..p })
            };
            (
                self.set_peer(id, q),
                if accepted {
                    Ok(ReactionView::Decode { peer_id: id, seq_num: header.seq_num, opus })
                } else {
                    Err(VoiceError::ReplayDetected { peer_id: id })
                },
            )
        }
    }

    /// A decoded frame goes to the jitter buffer of its sender.
    pub open spec fn deliver(self, peer_id: u8, seq_num: u16, pcm: Seq<i16>) -> SessionView {
        let p = self.mgr.get(peer_id);
        self.set_peer(peer_id, PeerView { jitter: p.jitter.push(seq_num, pcm), ..p })
    }

    /// Whether audio of a peer is tried with the key of the pair first.
    pub open spec fn has_pair_key(self, id: u8) -> bool {
        self.mgr.has(id) && self.mgr.get(id).kx_received && self.mgr.get(id).peer_crypto is Some
    }

    /// The payload of an audio packet, and whether it is encrypted under the key of the pair.
    pub open spec fn audio_payload(self, wire: Seq<u8>) -> Result<(Seq<u8>, bool), VoiceError> {
        let id = packet::header_of(wire).peer_id;
        if self.has_pair_key(id) && packet::opened(self.mgr.get(id).peer_crypto->0, wire) is Ok {
            Ok((packet::opened(self.mgr.get(id).peer_crypto->0, wire)->Ok_0, true))
        } else {
            match packet::opened(self.ctx, wire) {
                Ok(payload) => Ok((payload, false)),
                Err(e) => Err(e),
            }
        }
    }

    /// The payload of a packet other than audio.
    pub open spec fn control_payload(self, wire: Seq<u8>) -> Result<Seq<u8>, VoiceError> {
        let t = packet::header_of(wire).pkt_type;
        packet::opened(
            if t == PKT_JOIN || t == PKT_PEER_LIST {
                self.lobby()
            } else {
                self.ctx
            },
            wire,
        )
    }

    /// Whether a packet type is one of the protocol.
    pub open spec fn known_type(t: u8) -> bool {
        PKT_AUDIO <= t <= PKT_KEY_EXCHANGE
    }

    /// A packet other than audio came that was authentic.
    pub open spec fn on_control(
        self,
        header: PacketHeader,
        payload: Seq<u8>,
        src: PeerAddr,
        now_ns: u64,
    ) -> Step {
        let t = header.pkt_type;
        if t == PKT_JOIN {
            self.on_join(payload, src, now_ns)
        } else if t == PKT_PEER_LIST {
            self.on_peer_list(payload, header.peer_id, src)
        } else if t == PKT_HELLO {
            self.on_hello(header.peer_id, src, now_ns)
        } else if t == PKT_HELLO_ACK {
            (self.on_hello_ack(header.peer_id, now_ns), Ok(ReactionView::Quiet))
        } else if t == PKT_KEEPALIVE {
            (self.touch_sender(src, now_ns), Ok(ReactionView::Quiet))
        } else if t == PKT_PING {
            self.on_ping(payload, src, now_ns)
        } else if t == PKT_PONG {
            self.on_pong(payload, header.peer_id, now_ns)
        } else if t == PKT_KEY_EXCHANGE {
            self.on_key_exchange(payload, header.peer_id, src)
        } else {
            (self, Err(VoiceError::UnknownPacketType { pkt_type: t }))
        }
    }

    /// That a packet is one with which a packet of a type and payload is answered, and that those
    /// who have the key and the session id read the answer in it: to a HELLO nothing but the
    /// header, to a PING its own payload, and to a public key ours.
    pub open spec fn answers(self, header: PacketHeader, payload: Seq<u8>, wire: Seq<u8>) -> bool {
        if header.pkt_type == PKT_HELLO {
            packet::reads_as(
                wire,
                self.ctx.key,
                self.ctx.session_id,
                PacketHeader::spec_new(PKT_HELLO_ACK, self.mgr.local_id, 0, self.ctx.send_counter),
                Seq::empty(),
            )
        } else if header.pkt_type == PKT_PING {
            packet::reads_as(
                wire,
                self.ctx.key,
                self.ctx.session_id,
                PacketHeader::spec_new(PKT_PONG, self.mgr.local_id, 0, self.ctx.send_counter),
                PingPayload::spec_from_bytes(payload)->Ok_0.spec_to_bytes(),
            )
        } else {
            header.pkt_type == PKT_KEY_EXCHANGE && packet::reads_as(
                wire,
                self.ctx.key,
                self.ctx.session_id,
                PacketHeader::spec_new(
                    PKT_KEY_EXCHANGE,
                    self.mgr.local_id,
                    0,
                    self.ctx.send_counter,
                ),
                key_exchange::x25519_public(self.secret),
            )
        }
    }

    /// A packet came.
    pub open spec fn handle_incoming(self, wire: Seq<u8>, src: PeerAddr, now_ns: u64) -> Step {
        let header = packet::header_of(wire);
        let t = header.pkt_type;
        if wire.len() < HEADER_LEN {
            (self, Err(VoiceError::PacketTooShort { len: wire.len() as usize }))
        } else if !SessionView::known_type(t) {
            (self, Err(VoiceError::UnknownPacketType { pkt_type: t }))
        } else if t == PKT_AUDIO {
            match self.audio_payload(wire) {
                Err(e) => (self, Err(e)),
                Ok((opus, pair_key)) => self.on_audio(header, pair_key, opus, now_ns),
            }
        } else if t == PKT_JOIN && !self.mgr.is_host {
            (self, Err(VoiceError::NonHostJoin))
        } else {
            match self.control_payload(wire) {
                Err(e) => (self, Err(e)),
                Ok(payload) => self.on_control(header, payload, src, now_ns),
            }
        }
    }
}

/// `rand::RngCore::fill_bytes` of `rand::thread_rng`, on eight bytes.
///
/// Trusted: nothing. Any eight bytes can come out.
#[verifier::external_body]
fn random_session_id() -> (id: [u8; 8]) {
    let mut id = [0u8; 8];
    rand::thread_rng().fill_bytes(&mut id);
    id
}

/// That an event took a session to a state, with a result.
pub open spec fn stepped(
    step: Step,
    after: SessionView,
    res: Result<Reaction, VoiceError>,
) -> bool {
    after == step.0 && net::agrees(res, step.1)
}

impl SessionState {
    /// Starts a session: derives the key from the passphrase, makes a key pair, and at the host a
    /// session id.
    pub fn new(passphrase: &str, is_host: bool) -> (res: Result<Self, VoiceError>)
        ensures
            match res {
                Ok(s) => vstd::utf8::encode_utf8(passphrase@).len() <= 0xffff_ffff && s@.wf()
                    && s@.has_key_pair() && s@ == SessionView::start(
                    crypto::passphrase_key(vstd::utf8::encode_utf8(passphrase@)),
                    is_host,
                    s@.mgr.session_id,
                    s@.secret,
                ),
                Err(e) => vstd::utf8::encode_utf8(passphrase@).len() > 0xffff_ffff && e
                    == VoiceError::PassphraseTooLong,
            },
    {
        match crypto::derive_key_from_passphrase(passphrase) {
            Err(e) => Err(e),
            Ok(key) => Ok(
                SessionState::start(key, is_host, random_session_id(), KeyExchange::new()),
            ),
        }
    }

    /// Starts a session with given keys. Only the host uses the session id.
    pub fn start(key: [u8; 32], is_host: bool, session_id: [u8; 8], key_exchange: KeyExchange) -> (s:
        Self)
        ensures
            s@ == SessionView::start(key@, is_host, session_id@, key_exchange@),
            s@.wf(),
    {
        let session_id: [u8; 8] = if is_host {
            session_id
        } else {
            [0u8; 8]
        };
        let peer_mgr = if is_host {
            PeerManager::new_host(session_id)
        } else {
            PeerManager::new_joiner()
        };
        let crypto_ctx = CryptoContext::new(&key, session_id);
        proof {
            if !is_host {
                assert(session_id@ =~= no_session());
            }
        }
        SessionState { key, peer_mgr, crypto_ctx, key_exchange }
    }

    /// A context with the key, for packets from before a peer knows the session.
    fn lobby(&self) -> (ctx: CryptoContext)
        ensures
            ctx@ == self@.lobby(),
    {
        let id: [u8; 8] = [0u8; 8];
        assert(id@ =~= no_session());
        CryptoContext::new(&self.key, id)
    }

    /// Makes a packet for those in the session, with the next counter.
    fn session_packet(&mut self, pkt_type: u8, payload: &[u8]) -> (res: Result<
        Vec<u8>,
        VoiceError,
    >)
        ensures
            final(self)@ == old(self)@.session_packet(pkt_type, payload@).0,
            net::agrees(res, old(self)@.session_packet(pkt_type, payload@).1),
            res matches Ok(wire) ==> packet::reads_as(
                wire@,
                old(self)@.ctx.key,
                old(self)@.ctx.session_id,
                PacketHeader::spec_new(
                    pkt_type,
                    old(self)@.mgr.local_id,
                    0,
                    old(self)@.ctx.send_counter,
                ),
                payload@,
            ),
    {
        match self.crypto_ctx.next_counter() {
            Err(e) => Err(e),
            Ok(counter) => packet::seal_packet(
                &self.crypto_ctx,
                PacketHeader::new(pkt_type, self.peer_mgr.local_id, 0, counter),
                payload,
            ),
        }
    }

    /// Makes a packet for those who know no more than the passphrase, with the next counter.
    fn lobby_packet(&mut self, pkt_type: u8, id: u8, payload: &[u8]) -> (res: Result<
        Vec<u8>,
        VoiceError,
    >)
        ensures
            final(self)@ == old(self)@.lobby_packet(pkt_type, id, payload@).0,
            net::agrees(res, old(self)@.lobby_packet(pkt_type, id, payload@).1),
            res matches Ok(wire) ==> packet::reads_as(
                wire@,
                old(self)@.key,
                no_session(),
                PacketHeader::spec_new(pkt_type, id, 0, old(self)@.ctx.send_counter),
                payload@,
            ),
    {
        match self.crypto_ctx.next_counter() {
            Err(e) => Err(e),
            Ok(counter) => packet::seal_packet(
                &self.lobby(),
                PacketHeader::new(pkt_type, id, 0, counter),
                payload,
            ),
        }
    }

    /// The JOIN with which a node asks to be let in; it tells on which port the node listens.
    pub fn join_request(&mut self, listen_port: u16) -> (res: Result<Vec<u8>, VoiceError>)
        ensures
            final(self)@ == old(self)@.join_request(listen_port).0,
            net::agrees(res, old(self)@.join_request(listen_port).1),
            old(self)@.wf() ==> final(self)@.wf(),
            res matches Ok(wire) ==> packet::reads_as(
                wire@,
                old(self)@.key,
                no_session(),
                PacketHeader::spec_new(PKT_JOIN, 0, 0, old(self)@.ctx.send_counter),
                JoinPayload { listen_port }.spec_to_bytes(),
            ),
    {
        let payload: Vec<u8> = JoinPayload { listen_port }.to_bytes();
        self.lobby_packet(PKT_JOIN, 0, payload.as_slice())
    }

    /// Notes that something came from the peer that sends from an address.
    fn touch_sender(&mut self, src: PeerAddr, now_ns: u64)
        ensures
            final(self)@ == old(self)@.touch_sender(src, now_ns),
    {
        if let Some(id) = self.peer_mgr.peer_by_addr(&src) {
            if let Some(p) = self.peer_mgr.get_peer_mut(id) {
                p.touch(now_ns);
            }
        }
    }

    /// Lets a peer in whose JOIN was authentic.
    pub fn on_join(&mut self, payload: &[u8], src: PeerAddr, now_ns: u64) -> (res: Result<
        Reaction,
        VoiceError,
    >)
        ensures
            stepped(old(self)@.on_join(payload@, src, now_ns), final(self)@, res),
            old(self)@.wf() ==> final(self)@.wf(),
    {
        proof {
            events::lemma_kept_join(self@, payload@, src, now_ns);
        }
        match JoinPayload::from_bytes(payload) {
            Err(e) => {
                return Err(e);
            },
            Ok(_) => {},
        }
        let id: u8 = match self.peer_mgr.allocate_peer_id() {
            Err(e) => {
                return Err(e);
            },
            Ok(id) => id,
        };
        match self.peer_mgr.add_peer(id, src, now_ns) {
            Err(e) => {
                return Err(e);
            },
            Ok(_) => {},
        }
        if let Some(p) = self.peer_mgr.get_peer_mut(id) {
            p.state = PeerState::Connected;
            p.touch(now_ns);
        }
        Ok(Reaction::Welcome { to: src })
    }

    /// The list of peers for a peer that was let in. `local` is the address that our socket is
    /// bound to, and `routable` our IP address as seen on the way to the peer, if that is known.
    pub fn welcome(&mut self, to: PeerAddr, local: PeerAddr, routable: Option<PeerIp>) -> (res:
        Result<Outgoing, VoiceError>)
        ensures
            final(self)@ == old(self)@.welcome(to, local, routable).0,
            net::agrees(res, old(self)@.welcome(to, local, routable).1),
            old(self)@.wf() ==> final(self)@.wf(),
            res matches Ok(out) ==> packet::reads_as(
                out.wire@,
                old(self)@.key,
                no_session(),
                PacketHeader::spec_new(
                    PKT_PEER_LIST,
                    old(self)@.mgr.local_id,
                    0,
                    old(self)@.ctx.send_counter,
                ),
                old(self)@.mgr.peer_list(addr::spec_reachable_addr(local, routable)->0).to_bytes(),
            ),
    {
        match addr::reachable_addr(local, routable) {
            None => Err(VoiceError::NoLocalAddress),
            Some(here) => {
                let payload: Vec<u8> = self.peer_mgr.build_peer_list(here).to_bytes();
                let id: u8 = self.peer_mgr.local_id;
                match self.lobby_packet(PKT_PEER_LIST, id, payload.as_slice()) {
                    Ok(wire) => Ok(Outgoing { to, wire }),
                    Err(e) => Err(e),
                }
            },
        }
    }

    /// Takes our id and the session id from a list of peers that was authentic.
    pub fn on_peer_list(&mut self, payload: &[u8], sender_id: u8, src: PeerAddr) -> (res: Result<
        Reaction,
        VoiceError,
    >)
        ensures
            stepped(old(self)@.on_peer_list(payload@, sender_id, src), final(self)@, res),
            old(self)@.wf() ==> final(self)@.wf(),
    {
        proof {
            events::lemma_kept_peer_list(self@, payload@, sender_id, src);
        }
        let list = match PeerListPayload::from_bytes(payload) {
            Err(e) => {
                return Err(e);
            },
            Ok(list) => list,
        };
        if list.peers.len() == 0 {
            return Err(VoiceError::EmptyPeerList);
        }
        let my_id: u8 = find_max_id(&list.peers);
        let peers: Vec<(u8, PeerAddr)> = find_to_greet(&list.peers, my_id, sender_id, src);
        self.peer_mgr.set_identity(my_id, list.session_id);
        self.crypto_ctx.rekey(&self.key, list.session_id);
        Ok(Reaction::Greet { peers })
    }

    /// Makes a peer of the list known, and gives the HELLO for it.
    pub fn greet(&mut self, id: u8, to: PeerAddr, now_ns: u64) -> (res: Result<
        Outgoing,
        VoiceError,
    >)
        ensures
            final(self)@ == old(self)@.greet(id, to, now_ns).0,
            net::agrees(res, old(self)@.greet(id, to, now_ns).1),
            old(self)@.wf() ==> final(self)@.wf(),
            res matches Ok(out) ==> packet::reads_as(
                out.wire@,
                old(self)@.ctx.key,
                old(self)@.ctx.session_id,
                PacketHeader::spec_new(
                    PKT_HELLO,
                    old(self)@.mgr.local_id,
                    0,
                    old(self)@.ctx.send_counter,
                ),
                Seq::empty(),
            ),
    {
        proof {
            events::lemma_kept_greet(self@, id, to, now_ns);
        }
        match self.peer_mgr.add_peer(id, to, now_ns) {
            Err(e) => {
                return Err(e);
            },
            Ok(_) => {},
        }
        let empty: Vec<u8> = Vec::new();
        match self.session_packet(PKT_HELLO, empty.as_slice()) {
            Ok(wire) => Ok(Outgoing { to, wire }),
            Err(e) => Err(e),
        }
    }

    /// Notes that the HELLO for a peer has left.
    pub fn hello_sent(&mut self, id: u8)
        ensures
            final(self)@ == old(self)@.hello_sent(id),
            old(self)@.wf() ==> final(self)@.wf(),
    {
        proof {
            events::lemma_kept_event(self@, Event::HelloSent { id });
        }
        if let Some(p) = self.peer_mgr.get_peer_mut(id) {
            p.state = PeerState::HelloSent;
        }
    }

    /// Takes the sender of an authentic HELLO as connected, and answers.
    pub fn on_hello(&mut self, sender_id: u8, src: PeerAddr, now_ns: u64) -> (res: Result<
        Reaction,
        VoiceError,
    >)
        ensures
            stepped(old(self)@.on_hello(sender_id, src, now_ns), final(self)@, res),
            old(self)@.wf() ==> final(self)@.wf(),
            res matches Ok(Reaction::Reply(out)) ==> packet::reads_as(
                out.wire@,
                old(self)@.ctx.key,
                old(self)@.ctx.session_id,
                PacketHeader::spec_new(
                    PKT_HELLO_ACK,
                    old(self)@.mgr.local_id,
                    0,
                    old(self)@.ctx.send_counter,
                ),
                Seq::empty(),
            ),
    {
        proof {
            events::lemma_kept_hello(self@, sender_id, src, now_ns);
        }
        if self.peer_mgr.get_peer(sender_id).is_none() {
            match self.peer_mgr.add_peer(sender_id, src, now_ns) {
                Err(e) => {
                    return Err(e);
                },
                Ok(_) => {},
            }
        }
        if let Some(p) = self.peer_mgr.get_peer_mut(sender_id) {
            p.state = PeerState::Connected;
            p.touch(now_ns);
        }
        let empty: Vec<u8> = Vec::new();
        match self.session_packet(PKT_HELLO_ACK, empty.as_slice()) {
            Ok(wire) => Ok(Reaction::Reply(Outgoing { to: src, wire })),
            Err(e) => Err(e),
        }
    }

    /// Takes the sender of an authentic HELLO_ACK as connected.
    pub fn on_hello_ack(&mut self, sender_id: u8, now_ns: u64)
        ensures
            final(self)@ == old(self)@.on_hello_ack(sender_id, now_ns),
            old(self)@.wf() ==> final(self)@.wf(),
    {
        proof {
            events::lemma_kept_hello(self@, sender_id, PeerAddr::V4 { ip: 0, port: 0 }, now_ns);
        }
        if let Some(p) = self.peer_mgr.get_peer_mut(sender_id) {
            p.state = PeerState::Connected;
            p.touch(now_ns);
        }
    }

    /// Answers an authentic PING.
    pub fn on_ping(&mut self, payload: &[u8], src: PeerAddr, now_ns: u64) -> (res: Result<
        Reaction,
        VoiceError,
    >)
        ensures
            stepped(old(self)@.on_ping(payload@, src, now_ns), final(self)@, res),
            old(self)@.wf() ==> final(self)@.wf(),
            res matches Ok(Reaction::Reply(out)) ==> packet::reads_as(
                out.wire@,
                old(self)@.ctx.key,
                old(self)@.ctx.session_id,
                PacketHeader::spec_new(
                    PKT_PONG,
                    old(self)@.mgr.local_id,
                    0,
                    old(self)@.ctx.send_counter,
                ),
                PingPayload::spec_from_bytes(payload@)->Ok_0.spec_to_bytes(),
            ),
    {
        proof {
            events::lemma_kept_ping(self@, payload@, src, now_ns);
        }
        let ping = match PingPayload::from_bytes(payload) {
            Err(e) => {
                return Err(e);
            },
            Ok(ping) => ping,
        };
        let pong: Vec<u8> = ping.to_bytes();
        let counter: u32 = match self.crypto_ctx.next_counter() {
            Err(_) => {
                return Ok(Reaction::Quiet);
            },
            Ok(counter) => counter,
        };
        let res = packet::seal_packet(
            &self.crypto_ctx,
            PacketHeader::new(PKT_PONG, self.peer_mgr.local_id, 0, counter),
            pong.as_slice(),
        );
        self.touch_sender(src, now_ns);
        match res {
            Ok(wire) => Ok(Reaction::Reply(Outgoing { to: src, wire })),
            Err(_) => Ok(Reaction::Quiet),
        }
    }

    /// Measures the round-trip time from an authentic PONG.
    pub fn on_pong(&mut self, payload: &[u8], sender_id: u8, now_ns: u64) -> (res: Result<
        Reaction,
        VoiceError,
    >)
        ensures
            stepped(old(self)@.on_pong(payload@, sender_id, now_ns), final(self)@, res),
            old(self)@.wf() ==> final(self)@.wf(),
    {
        proof {
            events::lemma_kept_pong(self@, payload@, sender_id, now_ns);
        }
        let pong = match PingPayload::from_bytes(payload) {
            Err(e) => {
                return Err(e);
            },
            Ok(pong) => pong,
        };
        if let Some(p) = self.peer_mgr.get_peer_mut(sender_id) {
            p.touch(now_ns);
            p.latency_tracker.pong_received(pong.ping_id, now_ns);
        }
        Ok(Reaction::Quiet)
    }

    /// Our public key as a KEY_EXCHANGE packet.
    pub(crate) fn key_offer(&mut self) -> (res: Result<Vec<u8>, VoiceError>)
        ensures
            final(self)@ == old(self)@.key_offer().0,
            net::agrees(res, old(self)@.key_offer().1),
            res matches Ok(wire) ==> packet::reads_as(
                wire@,
                old(self)@.ctx.key,
                old(self)@.ctx.session_id,
                PacketHeader::spec_new(
                    PKT_KEY_EXCHANGE,
                    old(self)@.mgr.local_id,
                    0,
                    old(self)@.ctx.send_counter,
                ),
                key_exchange::x25519_public(old(self)@.secret),
            ),
    {
        let payload: Vec<u8> = KeyExchangePayload {
            public_key: self.key_exchange.public_key_bytes(),
        }.to_bytes();
        self.session_packet(PKT_KEY_EXCHANGE, payload.as_slice())
    }

    /// Takes the key that we have with a peer into use, and answers with our public key if the
    /// peer does not have it yet.
    pub fn install_peer_key(&mut self, sender_id: u8, peer_key: &[u8; 32], src: PeerAddr) -> (reaction:
        Reaction)
        ensures
            (final(self)@, reaction@) == old(self)@.install_peer_key(sender_id, peer_key@, src),
            old(self)@.wf() ==> final(self)@.wf(),
            reaction matches Reaction::Reply(out) ==> packet::reads_as(
                out.wire@,
                old(self)@.ctx.key,
                old(self)@.ctx.session_id,
                PacketHeader::spec_new(
                    PKT_KEY_EXCHANGE,
                    old(self)@.mgr.local_id,
                    0,
                    old(self)@.ctx.send_counter,
                ),
                key_exchange::x25519_public(old(self)@.secret),
            ),
    {
        proof {
            events::lemma_kept_install(self@, sender_id, peer_key@, src);
        }
        let session_id: [u8; 8] = self.peer_mgr.session_id;
        let wanted: bool = if let Some(p) = self.peer_mgr.get_peer_mut(sender_id) {
            let ctx = match p.peer_crypto.take() {
                Some(ctx) => {
                    let mut ctx = ctx;
                    ctx.rekey(peer_key, session_id);
                    ctx
                },
                None => CryptoContext::new(peer_key, session_id),
            };
            p.peer_crypto = Some(ctx);
            p.kx_received = true;
            !p.kx_sent
        } else {
            false
        };
        if wanted {
            if let Ok(wire) = self.key_offer() {
                if let Some(p) = self.peer_mgr.get_peer_mut(sender_id) {
                    p.kx_sent = true;
                }
                return Reaction::Reply(Outgoing { to: src, wire });
            }
        }
        Reaction::Quiet
    }

    /// Derives the key that we have with the sender of an authentic public key.
    ///
    /// The sender derives the same key from our public key.
    pub fn on_key_exchange(&mut self, payload: &[u8], sender_id: u8, src: PeerAddr) -> (res: Result<
        Reaction,
        VoiceError,
    >)
        ensures
            stepped(old(self)@.on_key_exchange(payload@, sender_id, src), final(self)@, res),
            old(self)@.wf() ==> final(self)@.wf(),
            res matches Ok(Reaction::Reply(out)) ==> packet::reads_as(
                out.wire@,
                old(self)@.ctx.key,
                old(self)@.ctx.session_id,
                PacketHeader::spec_new(
                    PKT_KEY_EXCHANGE,
                    old(self)@.mgr.local_id,
                    0,
                    old(self)@.ctx.send_counter,
                ),
                key_exchange::x25519_public(old(self)@.secret),
            ),
            old(self)@.keys_agree(payload@, sender_id),
    {
        proof {
            events::lemma_kept_key_exchange(self@, payload@, sender_id, src);
        }
        let kx = match KeyExchangePayload::from_bytes(payload) {
            Err(e) => {
                return Err(e);
            },
            Ok(kx) => kx,
        };
        match self.key_exchange.derive_peer_key(
            &kx.public_key,
            &self.peer_mgr.session_id,
            self.peer_mgr.local_id,
            sender_id,
        ) {
            Err(e) => Err(e),
            Ok(peer_key) => Ok(self.install_peer_key(sender_id, &peer_key, src)),
        }
    }

    /// Takes in an audio packet that was authentic, under the key of the pair or not, unless it is
    /// a replay.
    pub fn on_audio(
        &mut self,
        header: PacketHeader,
        pair_key: bool,
        opus: Vec<u8>,
        now_ns: u64,
    ) -> (res: Result<Reaction, VoiceError>)
        ensures
            stepped(old(self)@.on_audio(header, pair_key, opus@, now_ns), final(self)@, res),
            old(self)@.wf() ==> final(self)@.wf(),
    {
        proof {
            events::lemma_kept_audio(self@, header, pair_key, opus@, now_ns);
        }
        let id: u8 = header.peer_id;
        if let Some(p) = self.peer_mgr.get_peer_mut(id) {
            p.touch(now_ns);
            let accepted: bool = if pair_key {
                p.peer_replay_filter.check_and_accept(header.counter)
            } else {
                p.replay_filter.check_and_accept(header.counter)
            };
            if !accepted {
                return Err(VoiceError::ReplayDetected { peer_id: id });
            }
            Ok(Reaction::Decode { peer_id: id, seq_num: header.seq_num, opus })
        } else {
            Ok(Reaction::Quiet)
        }
    }

    /// Puts a decoded frame into the jitter buffer of its sender.
    pub fn deliver(&mut self, peer_id: u8, seq_num: u16, pcm: Vec<i16>)
        ensures
            final(self)@ == old(self)@.deliver(peer_id, seq_num, pcm@),
            old(self)@.wf() ==> final(self)@.wf(),
    {
        proof {
            events::lemma_kept_event(self@, Event::Deliver { peer_id, seq_num, pcm: pcm@ });
        }
        if let Some(p) = self.peer_mgr.get_peer_mut(peer_id) {
            p.jitter_buffer.push(seq_num, pcm);
        }
    }

    /// Reads the payload of an audio packet: with the key of the pair if we have it, and else, or
    /// if the sender does not use it yet, with the passphrase key.
    fn audio_payload(&self, wire: &[u8], id: u8) -> (res: Result<(Vec<u8>, bool), VoiceError>)
        requires
            wire@.len() >= HEADER_LEN,
            id == packet::header_of(wire@).peer_id,
        ensures
            match self@.audio_payload(wire@) {
                Ok((payload, pair_key)) => res is Ok && res->Ok_0.0@ == payload && res->Ok_0.1
                    == pair_key,
                Err(e) => res == Err::<(Vec<u8>, bool), VoiceError>(e),
            },
    {
        if let Some(p) = self.peer_mgr.get_peer(id) {
            if p.kx_received {
                if let Some(ctx) = &p.peer_crypto {
                    if let Ok(payload) = packet::open_packet(ctx, wire) {
                        return Ok((payload, true));
                    }
                }
            }
        }
        match packet::open_packet(&self.crypto_ctx, wire) {
            Ok(payload) => Ok((payload, false)),
            Err(e) => Err(e),
        }
    }

    /// Reads the payload of a packet other than audio.
    fn control_payload(&self, wire: &[u8], t: u8) -> (res: Result<Vec<u8>, VoiceError>)
        requires
            wire@.len() >= HEADER_LEN,
            t == packet::header_of(wire@).pkt_type,
        ensures
            net::agrees(res, self@.control_payload(wire@)),
    {
        if t == PKT_JOIN || t == PKT_PEER_LIST {
            packet::open_packet(&self.lobby(), wire)
        } else {
            packet::open_packet(&self.crypto_ctx, wire)
        }
    }

    /// Acts on a packet other than audio that was authentic.
    pub fn on_control(
        &mut self,
        header: PacketHeader,
        payload: &[u8],
        src: PeerAddr,
        now_ns: u64,
    ) -> (res: Result<Reaction, VoiceError>)
        ensures
            stepped(old(self)@.on_control(header, payload@, src, now_ns), final(self)@, res),
            old(self)@.wf() ==> final(self)@.wf(),
            res matches Ok(Reaction::Reply(out)) ==> old(self)@.answers(
                header,
                payload@,
                out.wire@,
            ),
            header.pkt_type == PKT_KEY_EXCHANGE ==> old(self)@.keys_agree(payload@, header.peer_id),
    {
        proof {
            events::lemma_kept_control(self@, header, payload@, src, now_ns);
        }
        let t: u8 = header.pkt_type;
        if t == PKT_JOIN {
            self.on_join(payload, src, now_ns)
        } else if t == PKT_PEER_LIST {
            self.on_peer_list(payload, header.peer_id, src)
        } else if t == PKT_HELLO {
            self.on_hello(header.peer_id, src, now_ns)
        } else if t == PKT_HELLO_ACK {
            self.on_hello_ack(header.peer_id, now_ns);
            Ok(Reaction::Quiet)
        } else if t == PKT_KEEPALIVE {
            self.touch_sender(src, now_ns);
            Ok(Reaction::Quiet)
        } else if t == PKT_PING {
            self.on_ping(payload, src, now_ns)
        } else if t == PKT_PONG {
            self.on_pong(payload, header.peer_id, now_ns)
        } else if t == PKT_KEY_EXCHANGE {
            self.on_key_exchange(payload, header.peer_id, src)
        } else {
            Err(VoiceError::UnknownPacketType { pkt_type: t })
        }
    }

    /// Takes in a packet that came from an address at a time.
    ///
    /// A packet that is too short, of a type that the protocol does not have, or not authentic is
    /// turned down and changes nothing.
    pub fn handle_incoming(&mut self, data: &[u8], src: PeerAddr, now_ns: u64) -> (res: Result<
        Reaction,
        VoiceError,
    >)
        ensures
            stepped(old(self)@.handle_incoming(data@, src, now_ns), final(self)@, res),
            old(self)@.wf() ==> final(self)@.wf(),
            res matches Ok(Reaction::Reply(out)) ==> old(self)@.answers(
                packet::header_of(data@),
                old(self)@.control_payload(data@)->Ok_0,
                out.wire@,
            ),
            data@.len() >= HEADER_LEN && packet::header_of(data@).pkt_type == PKT_KEY_EXCHANGE
                && old(self)@.control_payload(data@) is Ok ==> old(self)@.keys_agree(
                old(self)@.control_payload(data@)->Ok_0,
                packet::header_of(data@).peer_id,
            ),
    {
        proof {
            events::lemma_kept_packet(self@, data@, src, now_ns);
        }
        let header = match packet::read_header(data) {
            Err(e) => {
                return Err(e);
            },
            Ok(header) => header,
        };
        let t: u8 = header.pkt_type;
        if t < PKT_AUDIO || t > PKT_KEY_EXCHANGE {
            return Err(VoiceError::UnknownPacketType { pkt_type: t });
        }
        if t == PKT_AUDIO {
            match self.audio_payload(data, header.peer_id) {
                Err(e) => Err(e),
                Ok((opus, pair_key)) => self.on_audio(header, pair_key, opus, now_ns),
            }
        } else if t == PKT_JOIN && !self.peer_mgr.is_host {
            Err(VoiceError::NonHostJoin)
        } else {
            match self.control_payload(data, t) {
                Err(e) => Err(e),
                Ok(payload) => self.on_control(header, payload.as_slice(), src, now_ns),
            }
        }
    }
}

/// The largest id in a list of peers.
fn find_max_id(peers: &Vec<(u8, PeerAddr)>) -> (id: u8)
    requires
        peers@.len() > 0,
    ensures
        id == max_id(peers@),
{
    let mut id: u8 = peers[0].0;
    let mut i: usize = 1;
    while i < peers.len()
        invariant
            1 <= i <= peers@.len(),
            id == max_id(peers@.take(i as int)),
        decreases peers@.len() - i,
    {
        proof {
            let next = peers@.take(i + 1);
            assert(next.drop_last() =~= peers@.take(i as int));
            assert(next.last() == peers@[i as int]);
        }
        if peers[i].0 > id {
            id = peers[i].0;
        }
        i = i + 1;
    }
    assert(peers@.take(i as int) =~= peers@);
    id
}

/// Whom to greet of a list of peers.
fn find_to_greet(peers: &Vec<(u8, PeerAddr)>, my_id: u8, sender_id: u8, src: PeerAddr) -> (list: Vec<
    (u8, PeerAddr),
>)
    ensures
        list@ == to_greet(peers@, my_id, sender_id, src),
{
    let mut list: Vec<(u8, PeerAddr)> = Vec::new();
    let mut i: usize = 0;
    assert(peers@.take(0) =~= Seq::<(u8, PeerAddr)>::empty());
    while i < peers.len()
        invariant
            i <= peers@.len(),
            list@ == to_greet(peers@.take(i as int), my_id, sender_id, src),
        decreases peers@.len() - i,
    {
        proof {
            let next = peers@.take(i + 1);
            assert(next.drop_last() =~= peers@.take(i as int));
            assert(next.last() == peers@[i as int]);
        }
        let (id, listed) = peers[i];
        if id != my_id {
            list.push(
                (
                    id,
                    if id == sender_id {
                        src
                    } else {
                        listed
                    },
                ),
            );
        }
        i = i + 1;
    }
    assert(peers@.take(i as int) =~= peers@);
    list
}

} // verus!
