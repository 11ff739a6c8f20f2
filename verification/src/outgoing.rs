//! What a node sends of its own accord, and what it does from time to time.
use vstd::prelude::*;

use crate::addr::PeerAddr;
use crate::crypto::CryptoView;
use crate::error::VoiceError;
use crate::events;
use crate::jitter;
use crate::key_exchange;
use crate::latency::{LatencyStats, PingPayload};
use crate::net::{PacketHeader, PKT_AUDIO, PKT_KEEPALIVE, PKT_KEY_EXCHANGE, PKT_PING};
use crate::packet;
use crate::peer;
use crate::peer::{ManagerView, PeerState, PeerView};
use crate::session::{Outgoing, OutgoingView, SessionState, SessionView};

verus! {

/// Time between keepalives.
pub const KEEPALIVE_INTERVAL_NS: u64 = 1_000_000_000;

/// Time between pings.
pub const PING_INTERVAL_NS: u64 = 2_000_000_000;

/// Time between adaptations of the jitter buffers.
pub const ADAPT_INTERVAL_NS: u64 = 500_000_000;

/// Time between updates of what is displayed.
pub const DISPLAY_INTERVAL_NS: u64 = 250_000_000;

/// What is displayed of a peer.
#[derive(Clone, Copy, Debug, PartialEq, Eq, Structural)]
pub struct PeerDisplayInfo {
    pub id: u8,
    pub addr: PeerAddr,
    pub state: PeerState,
    pub latency: LatencyStats,
    pub key_exchange_done: bool,
}

impl PeerDisplayInfo {
    /// Which key protects the audio: one of the pair, so that the passphrase does not give it
    /// away later, or the one from the passphrase.
    pub fn security_label(&self) -> (label: &'static str)
        ensures
            label@ == (if self.key_exchange_done {
                "PFS"@
            } else {
                "PSK"@
            }),
    {
        if self.key_exchange_done {
            "PFS"
        } else {
            "PSK"
        }
    }
}

/// A frame to be played, or that one of a peer is missing and must be concealed.
#[derive(Debug)]
pub struct PlayoutFrame {
    pub peer_id: u8,
    pub pcm: Option<Vec<i16>>,
}

impl View for PlayoutFrame {
    type V = (u8, Option<Seq<i16>>);

    open spec fn view(&self) -> (u8, Option<Seq<i16>>) {
        (self.peer_id, peer::option_view(self.pcm))
    }
}

/// Something that is done for one peer after the other, by index, and may give a packet.
pub type PeerStep = spec_fn(SessionView, int) -> (SessionView, Option<OutgoingView>);

/// Packets, with one more if there is one.
pub open spec fn with_packet(packets: Seq<OutgoingView>, packet: Option<OutgoingView>) -> Seq<
    OutgoingView,
> {
    match packet {
        Some(packet) => packets.push(packet),
        None => packets,
    }
}

/// Something is done for the first `n` peers.
pub open spec fn for_peers(s: SessionView, n: nat, step: PeerStep) -> (
    SessionView,
    Seq<OutgoingView>,
)
    decreases n,
{
    if n == 0 {
        (s, Seq::empty())
    } else {
        let (before, packets) = for_peers(s, (n - 1) as nat, step);
        let (after, packet) = step(before, n - 1);
        (after, with_packet(packets, packet))
    }
}

pub open spec fn packets_view(packets: Seq<Outgoing>) -> Seq<OutgoingView> {
    packets.map_values(|o: Outgoing| o@)
}

/// A packet to a peer, if it could be made.
pub open spec fn packet_to(to: PeerAddr, wire: Result<Seq<u8>, VoiceError>) -> Option<
    OutgoingView,
> {
    match wire {
        Ok(wire) => Some(OutgoingView { to, wire }),
        Err(_) => None,
    }
}

impl SessionView {
    /// With the peer at an index replaced.
    pub open spec fn set_at(self, i: int, p: PeerView) -> SessionView {
        SessionView { mgr: ManagerView { peers: self.mgr.peers.update(i, p), ..self.mgr }, ..self }
    }

    /// Whether audio to a peer is encrypted under the key of the pair.
    pub open spec fn sends_with_pair_key(p: PeerView) -> bool {
        p.kx_sent && p.kx_received && p.peer_crypto is Some
    }

    /// The context under which audio to a peer is encrypted.
    pub open spec fn audio_context(self, i: int) -> CryptoView {
        let p = self.mgr.peers[i];
        if SessionView::sends_with_pair_key(p) {
            p.peer_crypto->0
        } else {
            self.ctx
        }
    }

    /// An encoded frame goes to the peer at an index, if it is connected. The peer's sequence
    /// number goes on even where no packet can be made.
    pub open spec fn audio_at(self, i: int, opus: Seq<u8>) -> (SessionView, Option<OutgoingView>) {
        let p = self.mgr.peers[i];
        if p.state != PeerState::Connected {
            (self, None)
        } else {
            let (ctx, counter) = self.audio_context(i).next_counter();
            let q = PeerView { send_seq: jitter::next_seq(p.send_seq), ..p };
            (
                if SessionView::sends_with_pair_key(p) {
                    self.set_at(i, PeerView { peer_crypto: Some(ctx), ..q })
                } else {
                    SessionView { ctx, ..self.set_at(i, q) }
                },
                match counter {
                    Ok(counter) => packet_to(
                        p.addr,
                        packet::sealed(
                            ctx,
                            PacketHeader::spec_new(
                                PKT_AUDIO,
                                self.mgr.local_id,
                                p.send_seq,
                                counter,
                            ),
                            opus,
                        ),
                    ),
                    Err(_) => None,
                },
            )
        }
    }

    pub open spec fn audio_step(opus: Seq<u8>) -> PeerStep {
        |s: SessionView, i: int| s.audio_at(i, opus)
    }

    /// An encoded frame goes to every connected peer.
    pub open spec fn send_audio(self, opus: Seq<u8>) -> (SessionView, Seq<OutgoingView>) {
        for_peers(self, self.mgr.peers.len(), SessionView::audio_step(opus))
    }

    /// A keepalive goes to the peer at an index, if it is connected.
    pub open spec fn keepalive_at(self, i: int) -> (SessionView, Option<OutgoingView>) {
        let p = self.mgr.peers[i];
        if p.state != PeerState::Connected {
            (self, None)
        } else {
            let (ctx, counter) = self.ctx.next_counter();
            (
                SessionView { ctx, ..self },
                match counter {
                    Ok(counter) => packet_to(
                        p.addr,
                        packet::sealed(
                            ctx,
                            PacketHeader::spec_new(PKT_KEEPALIVE, self.mgr.local_id, 0, counter),
                            Seq::empty(),
                        ),
                    ),
                    Err(_) => None,
                },
            )
        }
    }

    pub open spec fn keepalive_step() -> PeerStep {
        |s: SessionView, i: int| s.keepalive_at(i)
    }

    /// A keepalive goes to every connected peer, and then those that were silent for too long are
    /// taken for gone.
    pub open spec fn keepalives(self, now_ns: u64) -> (SessionView, Seq<OutgoingView>) {
        let (s, packets) = for_peers(self, self.mgr.peers.len(), SessionView::keepalive_step());
        (SessionView { mgr: s.mgr.check_timeouts(now_ns), ..s }, packets)
    }

    /// A ping goes to the peer at an index, if it is connected.
    pub open spec fn ping_at(self, i: int, now_ns: u64) -> (SessionView, Option<OutgoingView>) {
        let p = self.mgr.peers[i];
        if p.state != PeerState::Connected {
            (self, None)
        } else {
            let (ctx, counter) = self.ctx.next_counter();
            (
                SessionView {
                    ctx,
                    ..self.set_at(i, PeerView { latency: p.latency.ping_sent(now_ns), ..p })
                },
                match counter {
                    Ok(counter) => packet_to(
                        p.addr,
                        packet::sealed(
                            ctx,
                            PacketHeader::spec_new(PKT_PING, self.mgr.local_id, 0, counter),
                            PingPayload { ping_id: p.latency.next_ping_id }.spec_to_bytes(),
                        ),
                    ),
                    Err(_) => None,
                },
            )
        }
    }

    pub open spec fn ping_step(now_ns: u64) -> PeerStep {
        |s: SessionView, i: int| s.ping_at(i, now_ns)
    }

    /// A ping goes to every connected peer.
    pub open spec fn pings(self, now_ns: u64) -> (SessionView, Seq<OutgoingView>) {
        for_peers(self, self.mgr.peers.len(), SessionView::ping_step(now_ns))
    }

    /// Our public key goes to the peer at an index, if it is connected and does not have it yet.
    pub open spec fn offer_at(self, i: int) -> (SessionView, Option<OutgoingView>) {
        let p = self.mgr.peers[i];
        if p.state != PeerState::Connected || p.kx_sent {
            (self, None)
        } else {
            let (s, offer) = self.key_offer();
            match offer {
                Ok(wire) => (
                    s.set_at(i, PeerView { kx_sent: true, ..p }),
                    Some(OutgoingView { to: p.addr, wire }),
                ),
                Err(_) => (s, None),
            }
        }
    }

    pub open spec fn offer_step() -> PeerStep {
        |s: SessionView, i: int| s.offer_at(i)
    }

    /// Our public key goes to every connected peer that does not have it yet.
    pub open spec fn offer_keys(self) -> (SessionView, Seq<OutgoingView>) {
        for_peers(self, self.mgr.peers.len(), SessionView::offer_step())
    }

    /// The jitter buffers are adapted to how many packets were late.
    pub open spec fn adapt(self, elapsed_ns: u64) -> SessionView {
        SessionView {
            mgr: ManagerView {
                peers: self.mgr.peers.map_values(
                    |p: PeerView| PeerView { jitter: p.jitter.adapt(elapsed_ns), ..p },
                ),
                ..self.mgr
            },
            ..self
        }
    }

    /// The peer after a frame of it was played, if it is connected.
    pub open spec fn played(p: PeerView) -> PeerView {
        if p.state == PeerState::Connected {
            PeerView { jitter: p.jitter.pop().0, ..p }
        } else {
            p
        }
    }

    /// The state after a frame of every connected peer was played.
    pub open spec fn after_playout(self) -> SessionView {
        SessionView {
            mgr: ManagerView {
                peers: self.mgr.peers.map_values(|p: PeerView| SessionView::played(p)),
                ..self.mgr
            },
            ..self
        }
    }
}

/// The frames to be played of some peers: one of each that is connected.
pub open spec fn playout_frames(peers: Seq<PeerView>) -> Seq<(u8, Option<Seq<i16>>)>
    decreases peers.len(),
{
    if peers.len() == 0 {
        Seq::empty()
    } else {
        let before = playout_frames(peers.drop_last());
        let p = peers.last();
        if p.state == PeerState::Connected {
            before.push((p.id, p.jitter.pop().1))
        } else {
            before
        }
    }
}

pub open spec fn display_info(p: PeerView) -> PeerDisplayInfo {
    PeerDisplayInfo {
        id: p.id,
        addr: p.addr,
        state: p.state,
        latency: p.latency.stats,
        key_exchange_done: p.kx_sent && p.kx_received,
    }
}

/// That an audio packet goes to a peer, and that whoever has the context under which audio to that
/// peer is encrypted reads the frame in it.
pub open spec fn audio_is_readable(s: SessionView, out: OutgoingView, opus: Seq<u8>) -> bool {
    exists|i: int|
        0 <= i < s.mgr.peers.len() && out.to == (#[trigger] s.mgr.peers[i]).addr
            && packet::reads_as(
            out.wire,
            s.audio_context(i).key,
            s.audio_context(i).session_id,
            packet::header_of(out.wire),
            opus,
        ) && packet::header_of(out.wire).pkt_type == PKT_AUDIO && packet::header_of(
            out.wire,
        ).peer_id == s.mgr.local_id
}

/// That a packet of a type comes from us, and that everyone in the session reads a payload in it.
pub open spec fn is_readable(
    s: SessionView,
    out: OutgoingView,
    pkt_type: u8,
    payload: Seq<u8>,
) -> bool {
    &&& packet::reads_as(
        out.wire,
        s.ctx.key,
        s.ctx.session_id,
        packet::header_of(out.wire),
        payload,
    )
    &&& packet::header_of(out.wire).pkt_type == pkt_type
    &&& packet::header_of(out.wire).peer_id == s.mgr.local_id
}

/// That two states are of one node in one session.
pub open spec fn same_session(a: SessionView, b: SessionView) -> bool {
    &&& b.key == a.key
    &&& b.secret == a.secret
    &&& b.ctx.same_key(a.ctx)
    &&& b.mgr.session_id == a.mgr.session_id
    &&& b.mgr.local_id == a.mgr.local_id
}

impl SessionState {
    /// Sends an encoded frame to the peer at an index, if it is connected.
    fn audio_at(&mut self, i: usize, opus: &[u8]) -> (out: Option<Outgoing>)
        requires
            i < old(self).peer_mgr.peers@.len(),
        ensures
            final(self)@ == old(self)@.audio_at(i as int, opus@).0,
            peer::option_view(out) == old(self)@.audio_at(i as int, opus@).1,
            out matches Some(out) ==> packet::reads_as(
                out.wire@,
                old(self)@.audio_context(i as int).key,
                old(self)@.audio_context(i as int).session_id,
                packet::header_of(out.wire@),
                opus@,
            ) && packet::header_of(out.wire@).pkt_type == PKT_AUDIO && packet::header_of(
                out.wire@,
            ).peer_id == old(self)@.mgr.local_id,
    {
        let ghost before = self@;
        let local_id: u8 = self.peer_mgr.local_id;
        assert(before.mgr.peers[i as int] == self.peer_mgr.peers@[i as int]@);
        if !self.peer_mgr.peers[i].is_connected() {
            return None;
        }
        let to: PeerAddr = self.peer_mgr.peers[i].addr;
        let seq: u16 = self.peer_mgr.peers[i].next_seq();
        let pair_key: bool = self.peer_mgr.peers[i].kx_sent && self.peer_mgr.peers[i].kx_received
            && self.peer_mgr.peers[i].peer_crypto.is_some();
        let mut out: Option<Outgoing> = None;
        if pair_key {
            if let Some(ctx) = &mut self.peer_mgr.peers[i].peer_crypto {
                if let Ok(counter) = ctx.next_counter() {
                    let header = PacketHeader::new(PKT_AUDIO, local_id, seq, counter);
                    if let Ok(wire) = packet::seal_packet(ctx, header, opus) {
                        out = Some(Outgoing { to, wire });
                    }
                }
            }
        } else {
            if let Ok(counter) = self.crypto_ctx.next_counter() {
                let header = PacketHeader::new(PKT_AUDIO, local_id, seq, counter);
                if let Ok(wire) = packet::seal_packet(&self.crypto_ctx, header, opus) {
                    out = Some(Outgoing { to, wire });
                }
            }
        }
        assert(self@ =~= before.audio_at(i as int, opus@).0);
        out
    }

    /// Sends an encoded frame to every connected peer, each with its own sequence number, under
    /// the key of the pair where both public keys were exchanged.
    pub fn send_audio(&mut self, opus: &[u8]) -> (packets: Vec<Outgoing>)
        ensures
            (final(self)@, packets_view(packets@)) == old(self)@.send_audio(opus@),
            old(self)@.wf() ==> final(self)@.wf(),
            same_session(old(self)@, final(self)@),
            forall|k: int|
                0 <= k < packets@.len() ==> audio_is_readable(
                    old(self)@,
                    (#[trigger] packets@[k])@,
                    opus@,
                ),
    {
        proof {
            events::lemma_kept_send_audio(self@, opus@);
        }
        let ghost before = self@;
        let ghost step = SessionView::audio_step(opus@);
        let n: usize = self.peer_mgr.peers.len();
        let mut packets: Vec<Outgoing> = Vec::new();
        let mut i: usize = 0;
        assert(packets_view(packets@) =~= Seq::<OutgoingView>::empty());
        while i < n
            invariant
                i <= n == self.peer_mgr.peers@.len() == before.mgr.peers.len(),
                step == SessionView::audio_step(opus@),
                (self@, packets_view(packets@)) == for_peers(before, i as nat, step),
                same_session(before, self@),
                forall|j: int|
                    i <= j < n ==> (#[trigger] self@.mgr.peers[j]) == before.mgr.peers[j],
                forall|k: int|
                    0 <= k < packets@.len() ==> audio_is_readable(
                        before,
                        (#[trigger] packets@[k])@,
                        opus@,
                    ),
            decreases n - i,
        {
            let ghost current = self@;
            let ghost sent = packets@;
            assert(current.mgr.peers[i as int] == before.mgr.peers[i as int]);
            let out = self.audio_at(i, opus);
            assert(self@.mgr.peers.len() == n);
            assert(step(current, i as int) == current.audio_at(i as int, opus@));
            if let Some(out) = out {
                assert(audio_is_readable(before, out@, opus@));
                packets.push(out);
                assert(packets_view(packets@) =~= packets_view(sent).push(out@));
            }
            i = i + 1;
        }
        packets
    }

    /// Sends a keepalive to the peer at an index, if it is connected.
    fn keepalive_at(&mut self, i: usize) -> (out: Option<Outgoing>)
        requires
            i < old(self).peer_mgr.peers@.len(),
        ensures
            final(self)@ == old(self)@.keepalive_at(i as int).0,
            peer::option_view(out) == old(self)@.keepalive_at(i as int).1,
            out matches Some(out) ==> is_readable(old(self)@, out@, PKT_KEEPALIVE, Seq::empty()),
    {
        let ghost before = self@;
        let local_id: u8 = self.peer_mgr.local_id;
        assert(before.mgr.peers[i as int] == self.peer_mgr.peers@[i as int]@);
        if !self.peer_mgr.peers[i].is_connected() {
            return None;
        }
        let to: PeerAddr = self.peer_mgr.peers[i].addr;
        let empty: Vec<u8> = Vec::new();
        if let Ok(counter) = self.crypto_ctx.next_counter() {
            let header = PacketHeader::new(PKT_KEEPALIVE, local_id, 0, counter);
            if let Ok(wire) = packet::seal_packet(&self.crypto_ctx, header, empty.as_slice()) {
                return Some(Outgoing { to, wire });
            }
        }
        None
    }

    /// Sends a keepalive to every connected peer, then takes those that were silent for too long
    /// for gone.
    pub fn keepalives(&mut self, now_ns: u64) -> (packets: Vec<Outgoing>)
        ensures
            (final(self)@, packets_view(packets@)) == old(self)@.keepalives(now_ns),
            old(self)@.wf() ==> final(self)@.wf(),
            same_session(old(self)@, final(self)@),
            forall|k: int|
                0 <= k < packets@.len() ==> is_readable(
                    old(self)@,
                    (#[trigger] packets@[k])@,
                    PKT_KEEPALIVE,
                    Seq::empty(),
                ),
    {
        proof {
            events::lemma_kept_keepalives(self@, now_ns);
        }
        let ghost before = self@;
        let ghost step = SessionView::keepalive_step();
        let n: usize = self.peer_mgr.peers.len();
        let mut packets: Vec<Outgoing> = Vec::new();
        let mut i: usize = 0;
        assert(packets_view(packets@) =~= Seq::<OutgoingView>::empty());
        while i < n
            invariant
                i <= n == self.peer_mgr.peers@.len() == before.mgr.peers.len(),
                step == SessionView::keepalive_step(),
                (self@, packets_view(packets@)) == for_peers(before, i as nat, step),
                same_session(before, self@),
                forall|k: int|
                    0 <= k < packets@.len() ==> is_readable(
                        before,
                        (#[trigger] packets@[k])@,
                        PKT_KEEPALIVE,
                        Seq::empty(),
                    ),
            decreases n - i,
        {
            let ghost current = self@;
            let ghost sent = packets@;
            let out = self.keepalive_at(i);
            assert(self@.mgr.peers.len() == n);
            assert(step(current, i as int) == current.keepalive_at(i as int));
            if let Some(out) = out {
                packets.push(out);
                assert(packets_view(packets@) =~= packets_view(sent).push(out@));
            }
            i = i + 1;
        }
        self.peer_mgr.check_timeouts(now_ns);
        packets
    }

    /// Sends a ping to the peer at an index, if it is connected.
    fn ping_at(&mut self, i: usize, now_ns: u64) -> (out: Option<Outgoing>)
        requires
            i < old(self).peer_mgr.peers@.len(),
        ensures
            final(self)@ == old(self)@.ping_at(i as int, now_ns).0,
            peer::option_view(out) == old(self)@.ping_at(i as int, now_ns).1,
            out matches Some(out) ==> is_readable(
                old(self)@,
                out@,
                PKT_PING,
                PingPayload {
                    ping_id: old(self)@.mgr.peers[i as int].latency.next_ping_id,
                }.spec_to_bytes(),
            ),
    {
        let ghost before = self@;
        let local_id: u8 = self.peer_mgr.local_id;
        assert(before.mgr.peers[i as int] == self.peer_mgr.peers@[i as int]@);
        if !self.peer_mgr.peers[i].is_connected() {
            return None;
        }
        let to: PeerAddr = self.peer_mgr.peers[i].addr;
        let ping_id: u32 = self.peer_mgr.peers[i].latency_tracker.ping_sent(now_ns);
        let payload: Vec<u8> = PingPayload { ping_id }.to_bytes();
        let mut out: Option<Outgoing> = None;
        if let Ok(counter) = self.crypto_ctx.next_counter() {
            let header = PacketHeader::new(PKT_PING, local_id, 0, counter);
            if let Ok(wire) = packet::seal_packet(&self.crypto_ctx, header, payload.as_slice()) {
                out = Some(Outgoing { to, wire });
            }
        }
        assert(self@ =~= before.ping_at(i as int, now_ns).0);
        out
    }

    /// Sends a ping to every connected peer.
    pub fn pings(&mut self, now_ns: u64) -> (packets: Vec<Outgoing>)
        ensures
            (final(self)@, packets_view(packets@)) == old(self)@.pings(now_ns),
            old(self)@.wf() ==> final(self)@.wf(),
            same_session(old(self)@, final(self)@),
            forall|k: int|
                0 <= k < packets@.len() ==> exists|ping: PingPayload|
                    is_readable(
                        old(self)@,
                        (#[trigger] packets@[k])@,
                        PKT_PING,
                        #[trigger] ping.spec_to_bytes(),
                    ),
    {
        proof {
            events::lemma_kept_pings(self@, now_ns);
        }
        let ghost before = self@;
        let ghost step = SessionView::ping_step(now_ns);
        let n: usize = self.peer_mgr.peers.len();
        let mut packets: Vec<Outgoing> = Vec::new();
        let mut i: usize = 0;
        assert(packets_view(packets@) =~= Seq::<OutgoingView>::empty());
        while i < n
            invariant
                i <= n == self.peer_mgr.peers@.len() == before.mgr.peers.len(),
                step == SessionView::ping_step(now_ns),
                (self@, packets_view(packets@)) == for_peers(before, i as nat, step),
                same_session(before, self@),
                forall|k: int|
                    0 <= k < packets@.len() ==> exists|ping: PingPayload|
                        is_readable(
                            before,
                            (#[trigger] packets@[k])@,
                            PKT_PING,
                            #[trigger] ping.spec_to_bytes(),
                        ),
            decreases n - i,
        {
            let ghost current = self@;
            let ghost sent = packets@;
            let out = self.ping_at(i, now_ns);
            assert(self@.mgr.peers.len() == n);
            assert(step(current, i as int) == current.ping_at(i as int, now_ns));
            if let Some(out) = out {
                proof {
                    let ping = PingPayload {
                        ping_id: current.mgr.peers[i as int].latency.next_ping_id,
                    };
                    assert(is_readable(before, out@, PKT_PING, ping.spec_to_bytes()));
                }
                packets.push(out);
                assert(packets_view(packets@) =~= packets_view(sent).push(out@));
            }
            i = i + 1;
        }
        packets
    }

    /// Sends our public key to the peer at an index, if it is connected and does not have it yet.
    fn offer_at(&mut self, i: usize) -> (out: Option<Outgoing>)
        requires
            i < old(self).peer_mgr.peers@.len(),
        ensures
            final(self)@ == old(self)@.offer_at(i as int).0,
            peer::option_view(out) == old(self)@.offer_at(i as int).1,
            out matches Some(out) ==> is_readable(
                old(self)@,
                out@,
                PKT_KEY_EXCHANGE,
                key_exchange::x25519_public(old(self)@.secret),
            ),
    {
        let ghost before = self@;
        assert(before.mgr.peers[i as int] == self.peer_mgr.peers@[i as int]@);
        if !self.peer_mgr.peers[i].is_connected() || self.peer_mgr.peers[i].kx_sent {
            return None;
        }
        let to: PeerAddr = self.peer_mgr.peers[i].addr;
        match self.key_offer() {
            Ok(wire) => {
                assert(self@.mgr.peers == before.mgr.peers);
                assert(self@.mgr.peers.len() == self.peer_mgr.peers@.len());
                self.peer_mgr.peers[i].kx_sent = true;
                assert(self@ =~= before.offer_at(i as int).0);
                Some(Outgoing { to, wire })
            },
            Err(_) => None,
        }
    }

    /// Sends our public key to every connected peer that does not have it yet.
    pub fn offer_keys(&mut self) -> (packets: Vec<Outgoing>)
        ensures
            (final(self)@, packets_view(packets@)) == old(self)@.offer_keys(),
            old(self)@.wf() ==> final(self)@.wf(),
            same_session(old(self)@, final(self)@),
            forall|k: int|
                0 <= k < packets@.len() ==> is_readable(
                    old(self)@,
                    (#[trigger] packets@[k])@,
                    PKT_KEY_EXCHANGE,
                    key_exchange::x25519_public(old(self)@.secret),
                ),
    {
        proof {
            events::lemma_kept_offers(self@);
        }
        let ghost before = self@;
        let ghost step = SessionView::offer_step();
        let n: usize = self.peer_mgr.peers.len();
        let mut packets: Vec<Outgoing> = Vec::new();
        let mut i: usize = 0;
        assert(packets_view(packets@) =~= Seq::<OutgoingView>::empty());
        while i < n
            invariant
                i <= n == self.peer_mgr.peers@.len() == before.mgr.peers.len(),
                step == SessionView::offer_step(),
                (self@, packets_view(packets@)) == for_peers(before, i as nat, step),
                same_session(before, self@),
                forall|k: int|
                    0 <= k < packets@.len() ==> is_readable(
                        before,
                        (#[trigger] packets@[k])@,
                        PKT_KEY_EXCHANGE,
                        key_exchange::x25519_public(before.secret),
                    ),
            decreases n - i,
        {
            let ghost current = self@;
            let ghost sent = packets@;
            let out = self.offer_at(i);
            assert(self@.mgr.peers.len() == n);
            assert(step(current, i as int) == current.offer_at(i as int));
            if let Some(out) = out {
                packets.push(out);
                assert(packets_view(packets@) =~= packets_view(sent).push(out@));
            }
            i = i + 1;
        }
        packets
    }

    /// Adapts the jitter buffer of every peer.
    pub fn adapt(&mut self, elapsed_ns: u64)
        ensures
            final(self)@ == old(self)@.adapt(elapsed_ns),
            old(self)@.wf() ==> final(self)@.wf(),
    {
        proof {
            events::lemma_kept_adapt(self@, elapsed_ns);
        }
        let ghost before = self@;
        let mut i: usize = 0;
        while i < self.peer_mgr.peers.len()
            invariant
                i <= self.peer_mgr.peers@.len() == before.mgr.peers.len(),
                self@ == (SessionView {
                    mgr: ManagerView { peers: self@.mgr.peers, ..before.mgr },
                    ..before
                }),
                forall|j: int|
                    0 <= j < i ==> (#[trigger] self@.mgr.peers[j]) == (PeerView {
                        jitter: before.mgr.peers[j].jitter.adapt(elapsed_ns),
                        ..before.mgr.peers[j]
                    }),
                forall|j: int|
                    i <= j < before.mgr.peers.len() ==> (#[trigger] self@.mgr.peers[j])
                        == before.mgr.peers[j],
            decreases self.peer_mgr.peers@.len() - i,
        {
            let ghost peers = self@.mgr.peers;
            let ghost p = peers[i as int];
            assert(p == self.peer_mgr.peers@[i as int]@);
            self.peer_mgr.peers[i].jitter_buffer.adapt(elapsed_ns);
            assert(self@.mgr.peers =~= peers.update(
                i as int,
                PeerView { jitter: p.jitter.adapt(elapsed_ns), ..p },
            ));
            i = i + 1;
        }
        assert(self@ =~= before.adapt(elapsed_ns));
    }

    /// Takes the frame that is due from the jitter buffer of every connected peer.
    pub fn next_frames(&mut self) -> (frames: Vec<PlayoutFrame>)
        ensures
            final(self)@ == old(self)@.after_playout(),
            old(self)@.wf() ==> final(self)@.wf(),
            frames@.map_values(|f: PlayoutFrame| f@) == playout_frames(old(self)@.mgr.peers),
    {
        proof {
            events::lemma_kept_playout(self@);
        }
        let ghost before = self@;
        let ghost to_view = |f: PlayoutFrame| f@;
        let mut frames: Vec<PlayoutFrame> = Vec::new();
        let mut i: usize = 0;
        assert(before.mgr.peers.take(0) =~= Seq::<PeerView>::empty());
        assert(frames@.map_values(to_view) =~= Seq::<(u8, Option<Seq<i16>>)>::empty());
        while i < self.peer_mgr.peers.len()
            invariant
                i <= self.peer_mgr.peers@.len() == before.mgr.peers.len(),
                to_view == (|f: PlayoutFrame| f@),
                self@ == (SessionView {
                    mgr: ManagerView { peers: self@.mgr.peers, ..before.mgr },
                    ..before
                }),
                forall|j: int|
                    0 <= j < i ==> (#[trigger] self@.mgr.peers[j]) == SessionView::played(
                        before.mgr.peers[j],
                    ),
                forall|j: int|
                    i <= j < before.mgr.peers.len() ==> (#[trigger] self@.mgr.peers[j])
                        == before.mgr.peers[j],
                frames@.map_values(to_view) == playout_frames(before.mgr.peers.take(i as int)),
            decreases self.peer_mgr.peers@.len() - i,
        {
            let ghost peers = self@.mgr.peers;
            let ghost p = peers[i as int];
            let ghost sent = frames@;
            proof {
                let next = before.mgr.peers.take(i + 1);
                assert(next.drop_last() =~= before.mgr.peers.take(i as int));
                assert(next.last() == p);
                assert(p == self.peer_mgr.peers@[i as int]@);
            }
            if self.peer_mgr.peers[i].is_connected() {
                let peer_id: u8 = self.peer_mgr.peers[i].id;
                let pcm = self.peer_mgr.peers[i].jitter_buffer.pop();
                let frame = PlayoutFrame { peer_id, pcm };
                frames.push(frame);
                assert(frames@.map_values(to_view) =~= sent.map_values(to_view).push(frame@));
            }
            assert(self@.mgr.peers =~= peers.update(i as int, SessionView::played(p)));
            i = i + 1;
        }
        assert(before.mgr.peers.take(i as int) =~= before.mgr.peers);
        assert(self@ =~= before.after_playout());
        frames
    }

    /// What is displayed of the peers.
    pub fn peer_info(&self) -> (info: Vec<PeerDisplayInfo>)
        ensures
            info@ == self@.mgr.peers.map_values(|p: PeerView| display_info(p)),
    {
        let mut info: Vec<PeerDisplayInfo> = Vec::new();
        let mut i: usize = 0;
        while i < self.peer_mgr.peers.len()
            invariant
                i <= self.peer_mgr.peers@.len(),
                info@.len() == i,
                forall|j: int|
                    0 <= j < i ==> (#[trigger] info@[j]) == display_info(self@.mgr.peers[j]),
            decreases self.peer_mgr.peers@.len() - i,
        {
            let p = &self.peer_mgr.peers[i];
            assert(self@.mgr.peers[i as int] == p@);
            info.push(
                PeerDisplayInfo {
                    id: p.id,
                    addr: p.addr,
                    state: p.state,
                    latency: *p.latency_tracker.stats(),
                    key_exchange_done: p.kx_sent && p.kx_received,
                },
            );
            i = i + 1;
        }
        assert(info@ =~= self@.mgr.peers.map_values(|p: PeerView| display_info(p)));
        info
    }
}

/// That everyone in the session reads some payload in a packet.
pub open spec fn everyone_reads(s: SessionView, out: OutgoingView) -> bool {
    exists|payload: Seq<u8>| #[trigger]
        packet::reads_as(
            out.wire,
            s.key,
            s.mgr.session_id,
            packet::header_of(out.wire),
            payload,
        )
}

/// Something that is done again whenever some time has passed.
#[derive(Clone, Copy, Debug, PartialEq, Eq, Structural)]
pub struct Timer {
    pub last_ns: u64,
    pub interval_ns: u64,
}

impl Timer {
    pub open spec fn spec_elapsed(self, now_ns: u64) -> u64 {
        if now_ns < self.last_ns {
            0
        } else {
            (now_ns - self.last_ns) as u64
        }
    }

    pub open spec fn due(self, now_ns: u64) -> bool {
        self.spec_elapsed(now_ns) >= self.interval_ns
    }

    pub open spec fn restarted(self, now_ns: u64) -> Timer {
        Timer { last_ns: now_ns, ..self }
    }

    /// A timer that starts at a time.
    pub fn new(now_ns: u64, interval_ns: u64) -> (timer: Self)
        ensures
            timer == (Timer { last_ns: now_ns, interval_ns }),
    {
        Timer { last_ns: now_ns, interval_ns }
    }

    /// The time since the start.
    pub fn elapsed(&self, now_ns: u64) -> (ns: u64)
        ensures
            ns == self.spec_elapsed(now_ns),
    {
        if now_ns < self.last_ns {
            0
        } else {
            now_ns - self.last_ns
        }
    }

    /// Whether the time has come.
    pub fn is_due(&self, now_ns: u64) -> (b: bool)
        ensures
            b == self.due(now_ns),
    {
        self.elapsed(now_ns) >= self.interval_ns
    }

    /// Starts again.
    pub fn restart(&mut self, now_ns: u64)
        ensures
            *final(self) == old(self).restarted(now_ns),
    {
        self.last_ns = now_ns;
    }
}

/// When a session last did what it does from time to time.
#[derive(Clone, Copy, Debug, PartialEq, Eq, Structural)]
pub struct Timers {
    pub keepalive: Timer,
    pub ping: Timer,
    pub adapt: Timer,
    pub display: Timer,
}

impl Timers {
    /// Timers that start at a time.
    pub fn new(now_ns: u64) -> (timers: Self)
        ensures
            timers == (Timers {
                keepalive: Timer { last_ns: now_ns, interval_ns: KEEPALIVE_INTERVAL_NS },
                ping: Timer { last_ns: now_ns, interval_ns: PING_INTERVAL_NS },
                adapt: Timer { last_ns: now_ns, interval_ns: ADAPT_INTERVAL_NS },
                display: Timer { last_ns: now_ns, interval_ns: DISPLAY_INTERVAL_NS },
            }),
    {
        Timers {
            keepalive: Timer::new(now_ns, KEEPALIVE_INTERVAL_NS),
            ping: Timer::new(now_ns, PING_INTERVAL_NS),
            adapt: Timer::new(now_ns, ADAPT_INTERVAL_NS),
            display: Timer::new(now_ns, DISPLAY_INTERVAL_NS),
        }
    }
}

impl SessionView {
    /// What is due at a time is done: keepalives, then pings and the offers of our public key,
    /// then the adaptation of the jitter buffers.
    pub open spec fn tick(self, timers: Timers, now_ns: u64) -> (
        SessionView,
        Timers,
        Seq<OutgoingView>,
    ) {
        let (s1, out1) = if timers.keepalive.due(now_ns) {
            self.keepalives(now_ns)
        } else {
            (self, Seq::empty())
        };
        let (s2, out2) = if timers.ping.due(now_ns) {
            s1.pings(now_ns)
        } else {
            (s1, Seq::empty())
        };
        let (s3, out3) = if timers.ping.due(now_ns) {
            s2.offer_keys()
        } else {
            (s2, Seq::empty())
        };
        let s4 = if timers.adapt.due(now_ns) {
            s3.adapt(timers.adapt.spec_elapsed(now_ns))
        } else {
            s3
        };
        (
            s4,
            Timers {
                keepalive: if timers.keepalive.due(now_ns) {
                    timers.keepalive.restarted(now_ns)
                } else {
                    timers.keepalive
                },
                ping: if timers.ping.due(now_ns) {
                    timers.ping.restarted(now_ns)
                } else {
                    timers.ping
                },
                adapt: if timers.adapt.due(now_ns) {
                    timers.adapt.restarted(now_ns)
                } else {
                    timers.adapt
                },
                ..timers
            },
            out1 + out2 + out3,
        )
    }
}

impl SessionState {
    /// Does what is due at a time, and gives the packets to be sent.
    pub fn tick(&mut self, timers: &mut Timers, now_ns: u64) -> (packets: Vec<Outgoing>)
        ensures
            (final(self)@, *final(timers), packets_view(packets@)) == old(self)@.tick(
                *old(timers),
                now_ns,
            ),
            old(self)@.wf() ==> final(self)@.wf(),
            old(self)@.wf() ==> forall|k: int|
                0 <= k < packets@.len() ==> everyone_reads(
                    old(self)@,
                    (#[trigger] packets@[k])@,
                ),
    {
        proof {
            events::lemma_kept_tick(self@, *timers, now_ns);
        }
        let ghost before = self@;
        let mut packets: Vec<Outgoing> = Vec::new();
        assert(packets_view(packets@) =~= Seq::<OutgoingView>::empty());
        if timers.keepalive.is_due(now_ns) {
            packets = self.keepalives(now_ns);
            timers.keepalive.restart(now_ns);
            proof {
                if before.wf() {
                    assert forall|k: int| 0 <= k < packets@.len() implies everyone_reads(
                        before,
                        (#[trigger] packets@[k])@,
                    ) by {
                        assert(is_readable(before, packets@[k]@, PKT_KEEPALIVE, Seq::empty()));
                    }
                }
            }
        }
        let ghost out1 = packets_view(packets@);
        if timers.ping.is_due(now_ns) {
            let ghost current = self@;
            let mut pings: Vec<Outgoing> = self.pings(now_ns);
            let mut offers: Vec<Outgoing> = self.offer_keys();
            proof {
                let out2 = packets_view(pings@);
                let out3 = packets_view(offers@);
                let all = packets@ + pings@ + offers@;
                assert(packets_view(all) =~= out1 + out2 + out3);
                if before.wf() {
                    assert forall|k: int| 0 <= k < all.len() implies everyone_reads(
                        before,
                        (#[trigger] all[k])@,
                    ) by {
                        let n1 = packets@.len();
                        let n2 = n1 + pings@.len();
                        if k < n1 {
                            assert(all[k] == packets@[k]);
                        } else if k < n2 {
                            assert(all[k] == pings@[k - n1]);
                            let ping = choose|ping: PingPayload|
                                is_readable(
                                    current,
                                    pings@[k - n1]@,
                                    PKT_PING,
                                    #[trigger] ping.spec_to_bytes(),
                                );
                            assert(is_readable(
                                current,
                                all[k]@,
                                PKT_PING,
                                ping.spec_to_bytes(),
                            ));
                        } else {
                            assert(all[k] == offers@[k - n2]);
                            assert(packet::reads_as(
                                offers@[k - n2]@.wire,
                                before.key,
                                before.mgr.session_id,
                                packet::header_of(all[k]@.wire),
                                key_exchange::x25519_public(before.secret),
                            ));
                        }
                    }
                }
            }
            packets.append(&mut pings);
            packets.append(&mut offers);
            timers.ping.restart(now_ns);
        } else {
            assert(out1 + Seq::<OutgoingView>::empty() + Seq::<OutgoingView>::empty() =~= out1);
        }
        if timers.adapt.is_due(now_ns) {
            self.adapt(timers.adapt.elapsed(now_ns));
            timers.adapt.restart(now_ns);
        }
        packets
    }
}

} // verus!
