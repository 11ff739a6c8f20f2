//! That no two packets which a node sends are encrypted under the same key with the same nonce.
use vstd::prelude::*;

use crate::addr;
use crate::addr::PeerAddr;
use crate::crypto;
use crate::crypto::{CryptoView, Direction};
use crate::error::VoiceError;
use crate::events;
use crate::events::Event;
use crate::key_exchange;
use crate::key_exchange::KeyExchangePayload;
use crate::latency::PingPayload;
use crate::net::{
    JoinPayload, PacketHeader, HEADER_LEN, PKT_AUDIO, PKT_HELLO, PKT_HELLO_ACK, PKT_JOIN,
    PKT_KEEPALIVE, PKT_KEY_EXCHANGE, PKT_PEER_LIST, PKT_PING, PKT_PONG,
};
use crate::outgoing;
use crate::outgoing::{PeerStep, Timers};
use crate::packet;
use crate::peer;
use crate::peer::{PeerState, PeerView};
use crate::session;
use crate::session::{OutgoingView, ReactionView, SessionView};

verus! {

/// Where the counter of a packet comes from.
pub enum Source {
    /// From the context of the session.
    Session,
    /// From the context of the pair with the peer at a place.
    Pair { peer: int },
}

/// How a packet was encrypted.
#[verifier::ext_equal]
pub struct Sealing {
    pub source: Source,
    pub key: Seq<u8>,
    pub session_id: Seq<u8>,
    pub header: PacketHeader,
    pub payload: Seq<u8>,
}

impl Sealing {
    /// The packet.
    pub open spec fn wire(self) -> Result<Seq<u8>, VoiceError> {
        packet::sealed(CryptoView::new(self.key, self.session_id), self.header, self.payload)
    }

    /// The nonce of the packet.
    pub open spec fn nonce(self) -> Seq<u8> {
        crypto::nonce_bytes(
            self.session_id,
            self.header.peer_id,
            Direction::Send,
            self.header.seq_num,
            self.header.counter,
        )
    }
}

/// How a packet for a peer at a place is encrypted.
pub type PeerSealing = spec_fn(SessionView, int) -> Sealing;

/// The next counter of the pair with a peer.
pub open spec fn pair_counter(p: PeerView) -> int {
    match p.peer_crypto {
        Some(ctx) => ctx.send_counter as int,
        None => 0,
    }
}

/// How the packets for the first `n` peers are encrypted, if something is done for them.
pub open spec fn sealings_for_peers(
    s: SessionView,
    n: nat,
    step: PeerStep,
    sealing: PeerSealing,
) -> Seq<Sealing>
    decreases n,
{
    if n == 0 {
        Seq::empty()
    } else {
        let before = outgoing::for_peers(s, (n - 1) as nat, step).0;
        let sealings = sealings_for_peers(s, (n - 1) as nat, step, sealing);
        match step(before, n - 1).1 {
            Some(_) => sealings.push(sealing(before, n - 1)),
            None => sealings,
        }
    }
}

/// The bytes of some packets.
pub open spec fn wires_of(packets: Seq<OutgoingView>) -> Seq<Seq<u8>> {
    packets.map_values(|o: OutgoingView| o.wire)
}

impl SessionView {
    /// The next counter of a source.
    pub open spec fn counter_of(self, source: Source) -> int {
        match source {
            Source::Session => self.ctx.send_counter as int,
            Source::Pair { peer } => if 0 <= peer < self.mgr.peers.len() {
                pair_counter(self.mgr.peers[peer])
            } else {
                0
            },
        }
    }

    /// How a packet for those in the session is encrypted.
    pub open spec fn session_sealing(self, pkt_type: u8, payload: Seq<u8>) -> Sealing {
        Sealing {
            source: Source::Session,
            key: self.ctx.key,
            session_id: self.ctx.session_id,
            header: PacketHeader::spec_new(
                pkt_type,
                self.mgr.local_id,
                0,
                self.ctx.send_counter,
            ),
            payload,
        }
    }

    /// How a packet for those who know no more than the passphrase is encrypted.
    pub open spec fn lobby_sealing(self, pkt_type: u8, id: u8, payload: Seq<u8>) -> Sealing {
        Sealing {
            source: Source::Session,
            key: self.key,
            session_id: session::no_session(),
            header: PacketHeader::spec_new(pkt_type, id, 0, self.ctx.send_counter),
            payload,
        }
    }

    /// How the answer to a packet is encrypted.
    pub open spec fn answer_sealing(self, wire: Seq<u8>) -> Sealing {
        let t = packet::header_of(wire).pkt_type;
        if t == PKT_HELLO {
            self.session_sealing(PKT_HELLO_ACK, Seq::empty())
        } else if t == PKT_PING {
            self.session_sealing(
                PKT_PONG,
                PingPayload::spec_from_bytes(
                    self.control_payload(wire)->Ok_0,
                )->Ok_0.spec_to_bytes(),
            )
        } else {
            self.session_sealing(PKT_KEY_EXCHANGE, key_exchange::x25519_public(self.secret))
        }
    }

    /// How an encoded frame for the peer at a place is encrypted.
    pub open spec fn audio_sealing(opus: Seq<u8>) -> PeerSealing {
        |s: SessionView, i: int|
            {
                let ctx = s.audio_context(i);
                Sealing {
                    source: if SessionView::sends_with_pair_key(s.mgr.peers[i]) {
                        Source::Pair { peer: i }
                    } else {
                        Source::Session
                    },
                    key: ctx.key,
                    session_id: ctx.session_id,
                    header: PacketHeader::spec_new(
                        PKT_AUDIO,
                        s.mgr.local_id,
                        s.mgr.peers[i].send_seq,
                        ctx.send_counter,
                    ),
                    payload: opus,
                }
            }
    }

    pub open spec fn keepalive_sealing() -> PeerSealing {
        |s: SessionView, i: int| s.session_sealing(PKT_KEEPALIVE, Seq::empty())
    }

    pub open spec fn ping_sealing() -> PeerSealing {
        |s: SessionView, i: int|
            s.session_sealing(
                PKT_PING,
                PingPayload { ping_id: s.mgr.peers[i].latency.next_ping_id }.spec_to_bytes(),
            )
    }

    pub open spec fn offer_sealing() -> PeerSealing {
        |s: SessionView, i: int|
            s.session_sealing(PKT_KEY_EXCHANGE, key_exchange::x25519_public(s.secret))
    }

    /// How the packets that are sent when something is due are encrypted.
    pub open spec fn tick_sealings(self, timers: Timers, now_ns: u64) -> Seq<Sealing> {
        let (s1, out1) = if timers.keepalive.due(now_ns) {
            (
                self.keepalives(now_ns).0,
                sealings_for_peers(
                    self,
                    self.mgr.peers.len(),
                    SessionView::keepalive_step(),
                    SessionView::keepalive_sealing(),
                ),
            )
        } else {
            (self, Seq::empty())
        };
        if timers.ping.due(now_ns) {
            let s2 = s1.pings(now_ns).0;
            out1 + sealings_for_peers(
                s1,
                s1.mgr.peers.len(),
                SessionView::ping_step(now_ns),
                SessionView::ping_sealing(),
            ) + sealings_for_peers(
                s2,
                s2.mgr.peers.len(),
                SessionView::offer_step(),
                SessionView::offer_sealing(),
            )
        } else {
            out1
        }
    }

    /// The packets that are sent upon an event.
    pub open spec fn sent(self, event: Event) -> Seq<Seq<u8>> {
        match event {
            Event::Join { listen_port } => match self.join_request(listen_port).1 {
                Ok(wire) => seq![wire],
                Err(_) => Seq::empty(),
            },
            Event::Packet { wire, src, now_ns } => match self.handle_incoming(
                wire,
                src,
                now_ns,
            ).1 {
                Ok(ReactionView::Reply(out)) => seq![out.wire],
                _ => Seq::empty(),
            },
            Event::Welcome { to, local, routable } => match self.welcome(to, local, routable).1 {
                Ok(out) => seq![out.wire],
                Err(_) => Seq::empty(),
            },
            Event::Greet { id, to, now_ns } => match self.greet(id, to, now_ns).1 {
                Ok(out) => seq![out.wire],
                Err(_) => Seq::empty(),
            },
            Event::SendAudio { opus } => wires_of(self.send_audio(opus).1),
            Event::Tick { timers, now_ns } => wires_of(self.tick(timers, now_ns).2),
            Event::HelloSent { .. } | Event::Deliver { .. } | Event::Playout => Seq::empty(),
        }
    }

    /// How the packets that are sent upon an event are encrypted.
    pub open spec fn sealings(self, event: Event) -> Seq<Sealing> {
        match event {
            Event::Join { listen_port } => match self.join_request(listen_port).1 {
                Ok(_) => seq![
                    self.lobby_sealing(
                        PKT_JOIN,
                        0,
                        JoinPayload { listen_port }.spec_to_bytes(),
                    ),
                ],
                Err(_) => Seq::empty(),
            },
            Event::Packet { wire, src, now_ns } => match self.handle_incoming(
                wire,
                src,
                now_ns,
            ).1 {
                Ok(ReactionView::Reply(_)) => seq![self.answer_sealing(wire)],
                _ => Seq::empty(),
            },
            Event::Welcome { to, local, routable } => match self.welcome(to, local, routable).1 {
                Ok(_) => seq![
                    self.lobby_sealing(
                        PKT_PEER_LIST,
                        self.mgr.local_id,
                        self.mgr.peer_list(
                            addr::spec_reachable_addr(local, routable)->0,
                        ).to_bytes(),
                    ),
                ],
                Err(_) => Seq::empty(),
            },
            Event::Greet { id, to, now_ns } => match self.greet(id, to, now_ns).1 {
                Ok(_) => seq![self.session_sealing(PKT_HELLO, Seq::empty())],
                Err(_) => Seq::empty(),
            },
            Event::SendAudio { opus } => sealings_for_peers(
                self,
                self.mgr.peers.len(),
                SessionView::audio_step(opus),
                SessionView::audio_sealing(opus),
            ),
            Event::Tick { timers, now_ns } => self.tick_sealings(timers, now_ns),
            Event::HelloSent { .. } | Event::Deliver { .. } | Event::Playout => Seq::empty(),
        }
    }

    /// How all packets that are sent in a run are encrypted, in the order in which they are sent.
    pub open spec fn all_sealings(self, events: Seq<Event>) -> Seq<Sealing>
        decreases events.len(),
    {
        if events.len() == 0 {
            Seq::empty()
        } else {
            self.all_sealings(events.drop_last()) + self.after_all(events.drop_last()).sealings(
                events.last(),
            )
        }
    }
}

/// That packets are encrypted so.
pub open spec fn describes(sealings: Seq<Sealing>, wires: Seq<Seq<u8>>) -> bool {
    &&& sealings.len() == wires.len()
    &&& forall|k: int|
        0 <= k < wires.len() ==> (#[trigger] sealings[k]).wire() == Ok::<Seq<u8>, VoiceError>(
            wires[k],
        )
}

/// That no source gives out a counter again.
pub open spec fn counters_go_on(a: SessionView, b: SessionView) -> bool {
    forall|source: Source| #[trigger] a.counter_of(source) <= b.counter_of(source)
}

/// That packets which are sent between two states have counters that their sources give out in
/// between, each source in rising order.
pub open spec fn fresh(a: SessionView, b: SessionView, sealings: Seq<Sealing>) -> bool {
    &&& counters_go_on(a, b)
    &&& forall|k: int|
        0 <= k < sealings.len() ==> a.counter_of((#[trigger] sealings[k]).source)
            <= sealings[k].header.counter < b.counter_of(sealings[k].source)
    &&& forall|j: int, k: int|
        0 <= j < k < sealings.len() && (#[trigger] sealings[j]).source == (
        #[trigger] sealings[k]).source ==> sealings[j].header.counter < sealings[k].header.counter
}

proof fn lemma_fresh_transitive(
    a: SessionView,
    b: SessionView,
    c: SessionView,
    first: Seq<Sealing>,
    second: Seq<Sealing>,
)
    requires
        fresh(a, b, first),
        fresh(b, c, second),
    ensures
        fresh(a, c, first + second),
{
    let all = first + second;
    let n = first.len() as int;
    assert forall|source: Source| #[trigger] a.counter_of(source) <= c.counter_of(source) by {
        assert(a.counter_of(source) <= b.counter_of(source));
        assert(b.counter_of(source) <= c.counter_of(source));
    }
    assert forall|k: int| 0 <= k < all.len() implies a.counter_of((#[trigger] all[k]).source)
        <= all[k].header.counter < c.counter_of(all[k].source) by {
        let source = all[k].source;
        assert(a.counter_of(source) <= b.counter_of(source));
        assert(b.counter_of(source) <= c.counter_of(source));
        if k < n {
            assert(all[k] == first[k]);
        } else {
            assert(all[k] == second[k - n]);
        }
    }
    assert forall|j: int, k: int|
        0 <= j < k < all.len() && (#[trigger] all[j]).source == (
        #[trigger] all[k]).source implies all[j].header.counter < all[k].header.counter by {
        if k < n {
            assert(all[j] == first[j] && all[k] == first[k]);
        } else if j < n {
            assert(all[j] == first[j] && all[k] == second[k - n]);
        } else {
            assert(all[j] == second[j - n] && all[k] == second[k - n]);
        }
    }
}

proof fn lemma_describes_more(
    first: Seq<Sealing>,
    first_wires: Seq<Seq<u8>>,
    second: Seq<Sealing>,
    second_wires: Seq<Seq<u8>>,
)
    requires
        describes(first, first_wires),
        describes(second, second_wires),
    ensures
        describes(first + second, first_wires + second_wires),
{
    let all = first + second;
    let n = first.len() as int;
    assert forall|k: int| 0 <= k < all.len() implies (#[trigger] all[k]).wire() == Ok::<
        Seq<u8>,
        VoiceError,
    >((first_wires + second_wires)[k]) by {
        if k < n {
            assert(all[k] == first[k]);
        } else {
            assert(all[k] == second[k - n]);
        }
    }
}

/// That a step for the peer at a place takes a fresh counter for its packet, and encrypts it so.
pub open spec fn step_is_fresh(step: PeerStep, sealing: PeerSealing) -> bool {
    forall|s: SessionView, i: int|
        0 <= i < s.mgr.peers.len() ==> match (#[trigger] step(s, i)).1 {
            Some(out) => fresh(s, step(s, i).0, seq![sealing(s, i)]) && sealing(s, i).wire()
                == Ok::<Seq<u8>, VoiceError>(out.wire),
            None => counters_go_on(s, step(s, i).0),
        }
}

proof fn lemma_fresh_for_peers(s: SessionView, n: nat, step: PeerStep, sealing: PeerSealing)
    requires
        n <= s.mgr.peers.len(),
        events::step_keeps(step),
        step_is_fresh(step, sealing),
    ensures
        fresh(
            s,
            outgoing::for_peers(s, n, step).0,
            sealings_for_peers(s, n, step, sealing),
        ),
        describes(
            sealings_for_peers(s, n, step, sealing),
            wires_of(outgoing::for_peers(s, n, step).1),
        ),
    decreases n,
{
    if n > 0 {
        lemma_fresh_for_peers(s, (n - 1) as nat, step, sealing);
        events::lemma_kept_for_peers(s, (n - 1) as nat, step);
        let (before, packets) = outgoing::for_peers(s, (n - 1) as nat, step);
        let (after, packet) = step(before, n - 1);
        let sealings = sealings_for_peers(s, (n - 1) as nat, step, sealing);
        match packet {
            Some(out) => {
                let last = seq![sealing(before, n - 1)];
                lemma_fresh_transitive(s, before, after, sealings, last);
                lemma_describes_more(sealings, wires_of(packets), last, seq![out.wire]);
                assert(sealings + last =~= sealings.push(sealing(before, n - 1)));
                assert(wires_of(packets) + seq![out.wire] =~= wires_of(packets.push(out)));
            },
            None => {
                lemma_fresh_transitive(s, before, after, sealings, Seq::empty());
                assert(sealings + Seq::<Sealing>::empty() =~= sealings);
            },
        }
    }
}

proof fn lemma_audio_is_fresh(opus: Seq<u8>)
    ensures
        step_is_fresh(SessionView::audio_step(opus), SessionView::audio_sealing(opus)),
{
    let step = SessionView::audio_step(opus);
    let sealing = SessionView::audio_sealing(opus);
    assert forall|s: SessionView, i: int| 0 <= i < s.mgr.peers.len() implies match (
    #[trigger] step(s, i)).1 {
        Some(out) => fresh(s, step(s, i).0, seq![sealing(s, i)]) && sealing(s, i).wire() == Ok::<
            Seq<u8>,
            VoiceError,
        >(out.wire),
        None => counters_go_on(s, step(s, i).0),
    } by {
        let t = s.audio_at(i, opus).0;
        assert forall|source: Source| #[trigger]
            s.counter_of(source) <= t.counter_of(source) by {}
    }
}

proof fn lemma_keepalive_is_fresh()
    ensures
        step_is_fresh(SessionView::keepalive_step(), SessionView::keepalive_sealing()),
{
}

proof fn lemma_ping_is_fresh(now_ns: u64)
    ensures
        step_is_fresh(SessionView::ping_step(now_ns), SessionView::ping_sealing()),
{
}

proof fn lemma_offer_is_fresh()
    ensures
        step_is_fresh(SessionView::offer_step(), SessionView::offer_sealing()),
{
}

/// Changing a peer, but not the counter of the pair unless it goes on.
proof fn lemma_counters_set_peer(s: SessionView, id: u8, q: PeerView)
    requires
        s.mgr.has(id) ==> pair_counter(q) >= pair_counter(s.mgr.get(id)),
    ensures
        counters_go_on(s, s.set_peer(id, q)),
        s.set_peer(id, q).ctx == s.ctx,
{
    peer::lemma_index(s.mgr, id);
}

proof fn lemma_counters_add_peer(s: SessionView, id: u8, to: PeerAddr, now_ns: u64)
    ensures
        counters_go_on(s, (SessionView { mgr: s.mgr.add_peer(id, to, now_ns).0, ..s })),
{
    peer::lemma_index(s.mgr, id);
}

proof fn lemma_counters_transitive(a: SessionView, b: SessionView, c: SessionView)
    requires
        counters_go_on(a, b),
        counters_go_on(b, c),
    ensures
        counters_go_on(a, c),
{
    assert forall|source: Source| #[trigger] a.counter_of(source) <= c.counter_of(source) by {
        assert(a.counter_of(source) <= b.counter_of(source));
        assert(b.counter_of(source) <= c.counter_of(source));
    }
}

/// A packet of the session takes one counter of the session and no other.
proof fn lemma_session_packet_is_fresh(a: SessionView, s: SessionView, pkt_type: u8, payload: Seq<u8>)
    requires
        counters_go_on(a, s),
        s.ctx == a.ctx,
        s.mgr.local_id == a.mgr.local_id,
    ensures
        counters_go_on(a, s.session_packet(pkt_type, payload).0),
        s.session_packet(pkt_type, payload).1 matches Ok(wire) ==> fresh(
            a,
            s.session_packet(pkt_type, payload).0,
            seq![a.session_sealing(pkt_type, payload)],
        ) && describes(seq![a.session_sealing(pkt_type, payload)], seq![wire]),
{
    let t = s.session_packet(pkt_type, payload).0;
    assert(counters_go_on(s, t));
    lemma_counters_transitive(a, s, t);
}

proof fn lemma_hello_is_fresh(s: SessionView, id: u8, src: PeerAddr, now_ns: u64)
    ensures
        counters_go_on(s, s.on_hello(id, src, now_ns).0),
        s.on_hello(id, src, now_ns).1 matches Ok(reaction) ==> (reaction matches ReactionView::Reply(
            out,
        ) && fresh(
            s,
            s.on_hello(id, src, now_ns).0,
            seq![s.session_sealing(PKT_HELLO_ACK, Seq::empty())],
        ) && describes(seq![s.session_sealing(PKT_HELLO_ACK, Seq::empty())], seq![out.wire])),
{
    lemma_counters_add_peer(s, id, src, now_ns);
    let s1 = if s.mgr.has(id) {
        s
    } else {
        SessionView { mgr: s.mgr.add_peer(id, src, now_ns).0, ..s }
    };
    let p = s1.mgr.get(id).connect(now_ns);
    lemma_counters_set_peer(s1, id, p);
    lemma_counters_transitive(s, s1, s1.set_peer(id, p));
    lemma_session_packet_is_fresh(s, s1.set_peer(id, p), PKT_HELLO_ACK, Seq::empty());
}

proof fn lemma_install_is_fresh(s: SessionView, id: u8, key: Seq<u8>, src: PeerAddr)
    ensures
        ({
            let (t, reaction) = s.install_peer_key(id, key, src);
            let sealing = s.session_sealing(
                PKT_KEY_EXCHANGE,
                key_exchange::x25519_public(s.secret),
            );
            &&& counters_go_on(s, t)
            &&& reaction matches ReactionView::Reply(out) ==> fresh(s, t, seq![sealing])
                && describes(seq![sealing], seq![out.wire])
        }),
{
    let public = key_exchange::x25519_public(s.secret);
    let p = s.with_pair_key(s.mgr.get(id), key);
    let s1 = s.set_peer(id, p);
    lemma_counters_set_peer(s, id, p);
    lemma_session_packet_is_fresh(s, s1, PKT_KEY_EXCHANGE, public);
    let s2 = s1.key_offer().0;
    let q = PeerView { kx_sent: true, ..s2.mgr.get(id) };
    lemma_counters_set_peer(s2, id, q);
    lemma_counters_transitive(s, s2, s2.set_peer(id, q));
}

proof fn lemma_join_goes_on(s: SessionView, payload: Seq<u8>, src: PeerAddr, now_ns: u64)
    ensures
        counters_go_on(s, s.on_join(payload, src, now_ns).0),
        s.on_join(payload, src, now_ns).1 !is Ok || !(s.on_join(
            payload,
            src,
            now_ns,
        ).1->Ok_0 is Reply),
{
    let (allocated, id) = s.mgr.allocate_peer_id();
    let s1 = SessionView { mgr: allocated, ..s };
    assert(counters_go_on(s, s1));
    if let Ok(id) = id {
        lemma_counters_add_peer(s1, id, src, now_ns);
        let s2 = SessionView { mgr: allocated.add_peer(id, src, now_ns).0, ..s1 };
        lemma_counters_transitive(s, s1, s2);
        let p = s2.mgr.get(id).connect(now_ns);
        lemma_counters_set_peer(s2, id, p);
        lemma_counters_transitive(s, s2, s2.set_peer(id, p));
    }
}

proof fn lemma_touch_goes_on(s: SessionView, src: PeerAddr, now_ns: u64)
    ensures
        counters_go_on(s, s.touch_sender(src, now_ns)),
        s.touch_sender(src, now_ns).ctx == s.ctx,
{
    if let Some(id) = peer::lookup(s.mgr.addrs, src) {
        lemma_counters_set_peer(s, id, s.mgr.get(id).touch(now_ns));
    }
}

proof fn lemma_packet_is_fresh(s: SessionView, wire: Seq<u8>, src: PeerAddr, now_ns: u64)
    ensures
        ({
            let event = Event::Packet { wire, src, now_ns };
            fresh(s, s.after(event), s.sealings(event)) && describes(
                s.sealings(event),
                s.sent(event),
            )
        }),
{
    let header = packet::header_of(wire);
    let t = header.pkt_type;
    let id = header.peer_id;
    let p = s.mgr.get(id);
    let c = header.counter as int;
    if wire.len() < HEADER_LEN || !SessionView::known_type(t) {
    } else if t == PKT_AUDIO {
        lemma_counters_set_peer(
            s,
            id,
            PeerView { peer_replay: p.peer_replay.after(c), ..p.touch(now_ns) },
        );
        lemma_counters_set_peer(s, id, PeerView { replay: p.replay.after(c), ..p.touch(now_ns) });
    } else if let Ok(payload) = s.control_payload(wire) {
        if t == PKT_JOIN {
            lemma_join_goes_on(s, payload, src, now_ns);
        } else if t == PKT_HELLO {
            lemma_hello_is_fresh(s, id, src, now_ns);
        } else if t == PKT_HELLO_ACK {
            lemma_counters_set_peer(s, id, p.connect(now_ns));
        } else if t == PKT_KEEPALIVE {
            lemma_touch_goes_on(s, src, now_ns);
        } else if t == PKT_PING {
            let u = SessionView { ctx: s.ctx.next_counter().0, ..s };
            assert(counters_go_on(s, u));
            lemma_touch_goes_on(u, src, now_ns);
            lemma_counters_transitive(s, u, u.touch_sender(src, now_ns));
        } else if t == PKT_PONG {
            if let Ok(pong) = PingPayload::spec_from_bytes(payload) {
                lemma_counters_set_peer(
                    s,
                    id,
                    PeerView {
                        latency: p.latency.pong_received(pong.ping_id, now_ns),
                        last_seen_ns: now_ns,
                        ..p
                    },
                );
            }
        } else if t == PKT_KEY_EXCHANGE {
            if let Ok(public) = KeyExchangePayload::spec_from_bytes(payload) {
                if let Ok(key) = key_exchange::spec_peer_key(
                    s.secret,
                    public,
                    s.mgr.session_id,
                    s.mgr.local_id,
                    id,
                ) {
                    lemma_install_is_fresh(s, id, key, src);
                }
            }
        }
    }
}

proof fn lemma_tick_is_fresh(s: SessionView, timers: Timers, now_ns: u64)
    ensures
        fresh(s, s.tick(timers, now_ns).0, s.tick_sealings(timers, now_ns)),
        describes(s.tick_sealings(timers, now_ns), wires_of(s.tick(timers, now_ns).2)),
{
    events::lemma_keepalive_step_keeps();
    events::lemma_ping_step_keeps(now_ns);
    events::lemma_offer_step_keeps();
    lemma_keepalive_is_fresh();
    lemma_ping_is_fresh(now_ns);
    lemma_offer_is_fresh();
    let none = Seq::<Sealing>::empty();
    // Keepalives.
    let step1 = SessionView::keepalive_step();
    let n = s.mgr.peers.len();
    lemma_fresh_for_peers(s, n, step1, SessionView::keepalive_sealing());
    let kept = outgoing::for_peers(s, n, step1).0;
    let sealed1 = sealings_for_peers(s, n, step1, SessionView::keepalive_sealing());
    assert(counters_go_on(kept, s.keepalives(now_ns).0));
    lemma_fresh_transitive(s, kept, s.keepalives(now_ns).0, sealed1, none);
    assert(sealed1 + none =~= sealed1);
    let (s1, out1, wires1) = if timers.keepalive.due(now_ns) {
        (s.keepalives(now_ns).0, sealed1, s.keepalives(now_ns).1)
    } else {
        (s, none, Seq::empty())
    };
    assert(fresh(s, s1, out1));
    assert(describes(out1, wires_of(wires1)));
    // Pings and offers.
    let step2 = SessionView::ping_step(now_ns);
    let step3 = SessionView::offer_step();
    lemma_fresh_for_peers(s1, s1.mgr.peers.len(), step2, SessionView::ping_sealing());
    let (s2, wires2) = s1.pings(now_ns);
    let out2 = sealings_for_peers(s1, s1.mgr.peers.len(), step2, SessionView::ping_sealing());
    lemma_fresh_for_peers(s2, s2.mgr.peers.len(), step3, SessionView::offer_sealing());
    let (s3, wires3) = s2.offer_keys();
    let out3 = sealings_for_peers(s2, s2.mgr.peers.len(), step3, SessionView::offer_sealing());
    lemma_fresh_transitive(s, s1, s2, out1, out2);
    lemma_fresh_transitive(s, s2, s3, out1 + out2, out3);
    lemma_describes_more(out1, wires_of(wires1), out2, wires_of(wires2));
    lemma_describes_more(out1 + out2, wires_of(wires1) + wires_of(wires2), out3, wires_of(wires3));
    assert(wires_of(wires1) + wires_of(wires2) + wires_of(wires3) =~= wires_of(
        wires1 + wires2 + wires3,
    ));
    assert(wires1 + Seq::<OutgoingView>::empty() + Seq::<OutgoingView>::empty() =~= wires1);
    // The adaptation.
    let elapsed = timers.adapt.spec_elapsed(now_ns);
    assert(counters_go_on(s1, s1.adapt(elapsed)));
    assert(counters_go_on(s3, s3.adapt(elapsed)));
    lemma_fresh_transitive(s, s1, s1.adapt(elapsed), out1, none);
    lemma_fresh_transitive(s, s3, s3.adapt(elapsed), out1 + out2 + out3, none);
    assert(out1 + none =~= out1);
    assert(out1 + out2 + out3 + none =~= out1 + out2 + out3);
}

proof fn lemma_event_is_fresh(s: SessionView, event: Event)
    ensures
        fresh(s, s.after(event), s.sealings(event)),
        describes(s.sealings(event), s.sent(event)),
{
    match event {
        Event::Join { .. } => {
            assert(counters_go_on(s, s.after(event)));
        },
        Event::Packet { wire, src, now_ns } => {
            lemma_packet_is_fresh(s, wire, src, now_ns);
        },
        Event::Welcome { .. } => {
            assert(counters_go_on(s, s.after(event)));
        },
        Event::Greet { id, to, now_ns } => {
            lemma_counters_add_peer(s, id, to, now_ns);
            let s1 = SessionView { mgr: s.mgr.add_peer(id, to, now_ns).0, ..s };
            lemma_session_packet_is_fresh(s, s1, PKT_HELLO, Seq::empty());
        },
        Event::HelloSent { id } => {
            lemma_counters_set_peer(
                s,
                id,
                PeerView { state: PeerState::HelloSent, ..s.mgr.get(id) },
            );
        },
        Event::Deliver { peer_id, seq_num, pcm } => {
            let p = s.mgr.get(peer_id);
            lemma_counters_set_peer(
                s,
                peer_id,
                PeerView { jitter: p.jitter.push(seq_num, pcm), ..p },
            );
        },
        Event::SendAudio { opus } => {
            events::lemma_audio_step_keeps(opus);
            lemma_audio_is_fresh(opus);
            lemma_fresh_for_peers(
                s,
                s.mgr.peers.len(),
                SessionView::audio_step(opus),
                SessionView::audio_sealing(opus),
            );
        },
        Event::Tick { timers, now_ns } => {
            lemma_tick_is_fresh(s, timers, now_ns);
        },
        Event::Playout => {},
    }
}

proof fn lemma_run_is_fresh(s: SessionView, events: Seq<Event>)
    ensures
        fresh(s, s.after_all(events), s.all_sealings(events)),
    decreases events.len(),
{
    if events.len() > 0 {
        let before = s.after_all(events.drop_last());
        lemma_run_is_fresh(s, events.drop_last());
        lemma_event_is_fresh(before, events.last());
        lemma_fresh_transitive(
            s,
            before,
            s.after_all(events),
            s.all_sealings(events.drop_last()),
            before.sealings(events.last()),
        );
    }
}

/// Packets with the same nonce agree in what the nonce is made of.
proof fn lemma_same_nonce(a: Sealing, b: Sealing)
    requires
        a.nonce() == b.nonce(),
    ensures
        a.header.peer_id == b.header.peer_id,
        a.header.counter == b.header.counter,
{
    crypto::law_nonce_is_injective(
        a.session_id,
        a.header.peer_id,
        Direction::Send,
        a.header.seq_num,
        a.header.counter,
        b.session_id,
        b.header.peer_id,
        Direction::Send,
        b.header.seq_num,
        b.header.counter,
    );
}

/// Every packet that is sent upon an event is encrypted as `sealings` says.
pub proof fn law_sealings_describe_what_is_sent(s: SessionView, event: Event)
    ensures
        describes(s.sealings(event), s.sent(event)),
{
    lemma_event_is_fresh(s, event);
}

/// Whatever happens in a session, and in whatever order, no source gives out a counter twice, and
/// so no two packets that have their counters from the same source have the same nonce.
pub proof fn law_counters_are_never_reused(s: SessionView, events: Seq<Event>)
    ensures
        counters_go_on(s, s.after_all(events)),
        forall|j: int, k: int|
            0 <= j < k < s.all_sealings(events).len() && (#[trigger] s.all_sealings(
                events,
            )[j]).source == (#[trigger] s.all_sealings(events)[k]).source ==> s.all_sealings(
                events,
            )[j].nonce() != s.all_sealings(events)[k].nonce(),
{
    lemma_run_is_fresh(s, events);
    let all = s.all_sealings(events);
    assert forall|j: int, k: int|
        0 <= j < k < all.len() && (#[trigger] all[j]).source == (
        #[trigger] all[k]).source implies all[j].nonce() != all[k].nonce() by {
        let (a, b) = (all[j], all[k]);
        assert(a.header.counter < b.header.counter);
        if a.nonce() == b.nonce() {
            lemma_same_nonce(a, b);
        }
    }
}

/// That no two keys are the same by chance: packets under the same key and from the same id have
/// their counters from the same source. The keys of two pairs, or of a pair and of the passphrase,
/// would have to be the same otherwise.
pub open spec fn keys_are_apart(sealings: Seq<Sealing>) -> bool {
    forall|j: int, k: int|
        0 <= j < k < sealings.len() && (#[trigger] sealings[j]).key == (
        #[trigger] sealings[k]).key && sealings[j].header.peer_id == sealings[k].header.peer_id
            ==> sealings[j].source == sealings[k].source
}

/// Whatever happens in a session, and in whatever order, no two packets that a node sends are
/// encrypted under the same key with the same nonce.
pub proof fn law_no_nonce_is_used_twice(s: SessionView, events: Seq<Event>)
    requires
        keys_are_apart(s.all_sealings(events)),
    ensures
        forall|j: int, k: int|
            0 <= j < k < s.all_sealings(events).len() && (#[trigger] s.all_sealings(
                events,
            )[j]).key == (#[trigger] s.all_sealings(events)[k]).key ==> s.all_sealings(
                events,
            )[j].nonce() != s.all_sealings(events)[k].nonce(),
{
    law_counters_are_never_reused(s, events);
    let all = s.all_sealings(events);
    assert forall|j: int, k: int|
        0 <= j < k < all.len() && (#[trigger] all[j]).key == (
        #[trigger] all[k]).key implies all[j].nonce() != all[k].nonce() by {
        let (a, b) = (all[j], all[k]);
        if a.nonce() == b.nonce() {
            lemma_same_nonce(a, b);
        }
    }
}

} // verus!
