//! What can happen in a session, and what holds whatever happens and in whatever order.
use vstd::prelude::*;

use crate::addr::{PeerAddr, PeerIp};
use crate::jitter;
use crate::key_exchange;
use crate::key_exchange::KeyExchangePayload;
use crate::latency;
use crate::latency::PingPayload;
use crate::net;
use crate::net::{PacketHeader, PeerListView};
use crate::outgoing;
use crate::outgoing::{PeerStep, Timers};
use crate::packet;
use crate::peer;
use crate::peer::{ManagerView, PeerState, PeerView, MAX_PEERS};
use crate::session;
use crate::session::SessionView;

verus! {

/// Something that happens in a session.
pub enum Event {
    /// A node asks to be let in.
    Join { listen_port: u16 },
    /// A packet comes from an address.
    Packet { wire: Seq<u8>, src: PeerAddr, now_ns: u64 },
    /// A peer that was let in gets the list of peers.
    Welcome { to: PeerAddr, local: PeerAddr, routable: Option<PeerIp> },
    /// A peer of a list of peers is greeted.
    Greet { id: u8, to: PeerAddr, now_ns: u64 },
    /// The greeting has left.
    HelloSent { id: u8 },
    /// A decoded frame is delivered.
    Deliver { peer_id: u8, seq_num: u16, pcm: Seq<i16> },
    /// An encoded frame is sent.
    SendAudio { opus: Seq<u8> },
    /// What is due is done.
    Tick { timers: Timers, now_ns: u64 },
    /// Frames are played.
    Playout,
}

impl SessionView {
    /// The state after an event.
    pub open spec fn after(self, event: Event) -> SessionView {
        match event {
            Event::Join { listen_port } => self.join_request(listen_port).0,
            Event::Packet { wire, src, now_ns } => self.handle_incoming(wire, src, now_ns).0,
            Event::Welcome { to, local, routable } => self.welcome(to, local, routable).0,
            Event::Greet { id, to, now_ns } => self.greet(id, to, now_ns).0,
            Event::HelloSent { id } => self.hello_sent(id),
            Event::Deliver { peer_id, seq_num, pcm } => self.deliver(peer_id, seq_num, pcm),
            Event::SendAudio { opus } => self.send_audio(opus).0,
            Event::Tick { timers, now_ns } => self.tick(timers, now_ns).0,
            Event::Playout => self.after_playout(),
        }
    }

    /// The state after some events, one after the other.
    pub open spec fn after_all(self, events: Seq<Event>) -> SessionView
        decreases events.len(),
    {
        if events.len() == 0 {
            self
        } else {
            self.after_all(events.drop_last()).after(events.last())
        }
    }
}

/// That one peer of a session came of another: it is the same peer, still holds together, and its
/// replay filters have only been shown more counters.
pub open spec fn came_of(p: PeerView, q: PeerView) -> bool {
    &&& q.id == p.id
    &&& p.wf() ==> q.wf()
    &&& forall|c: int| !(#[trigger] p.replay.accepts(c)) ==> !q.replay.accepts(c)
    &&& forall|c: int| !(#[trigger] p.peer_replay.accepts(c)) ==> !q.peer_replay.accepts(c)
}

/// That the peers of one session came of those of another: they are still there, in their places,
/// and others may have become known.
pub open spec fn peers_came_of(a: Seq<PeerView>, b: Seq<PeerView>) -> bool {
    &&& a.len() <= b.len()
    &&& forall|i: int| 0 <= i < a.len() ==> came_of(a[i], #[trigger] b[i])
}

/// What every event keeps.
pub open spec fn kept(a: SessionView, b: SessionView) -> bool {
    &&& a.wf() ==> b.wf()
    &&& b.key == a.key
    &&& b.secret == a.secret
    &&& b.mgr.is_host == a.mgr.is_host
    &&& b.mgr.next_peer_id >= a.mgr.next_peer_id
    &&& peers_came_of(a.mgr.peers, b.mgr.peers)
}

pub proof fn lemma_kept_set_peer(s: SessionView, id: u8, q: PeerView)
    requires
        s.mgr.has(id) ==> came_of(s.mgr.get(id), q) && q.addr == s.mgr.get(id).addr,
    ensures
        kept(s, s.set_peer(id, q)),
        s.set_peer(id, q).ctx == s.ctx,
        s.set_peer(id, q).mgr.session_id == s.mgr.session_id,
{
    peer::lemma_index(s.mgr, id);
    let t = s.set_peer(id, q);
    assert forall|i: int| 0 <= i < s.mgr.peers.len() implies came_of(
        s.mgr.peers[i],
        #[trigger] t.mgr.peers[i],
    ) by {}
    if s.wf() {
        peer::lemma_set_keeps_wf(s.mgr, id, q);
    }
}

proof fn lemma_kept_transitive(a: SessionView, b: SessionView, c: SessionView)
    requires
        kept(a, b),
        kept(b, c),
    ensures
        kept(a, c),
{
    assert forall|i: int| 0 <= i < a.mgr.peers.len() implies came_of(
        a.mgr.peers[i],
        #[trigger] c.mgr.peers[i],
    ) by {
        assert(came_of(a.mgr.peers[i], b.mgr.peers[i]));
        assert(came_of(b.mgr.peers[i], c.mgr.peers[i]));
    }
}

pub proof fn lemma_kept_add_peer(s: SessionView, id: u8, to: PeerAddr, now_ns: u64)
    ensures
        kept(s, (SessionView { mgr: s.mgr.add_peer(id, to, now_ns).0, ..s })),
{
    let t = SessionView { mgr: s.mgr.add_peer(id, to, now_ns).0, ..s };
    peer::lemma_index(s.mgr, id);
    if s.wf() {
        peer::law_add_peer_keeps_invariant(s.mgr, id, to, now_ns);
    }
    assert forall|i: int| 0 <= i < s.mgr.peers.len() implies came_of(
        s.mgr.peers[i],
        #[trigger] t.mgr.peers[i],
    ) by {}
}

/// Taking a counter.
proof fn lemma_kept_counter(s: SessionView)
    ensures
        kept(s, (SessionView { ctx: s.ctx.next_counter().0, ..s })),
{
}

pub proof fn lemma_kept_greet(s: SessionView, id: u8, to: PeerAddr, now_ns: u64)
    ensures
        kept(s, s.greet(id, to, now_ns).0),
{
    lemma_kept_add_peer(s, id, to, now_ns);
    let s1 = SessionView { mgr: s.mgr.add_peer(id, to, now_ns).0, ..s };
    lemma_kept_counter(s1);
    lemma_kept_transitive(s, s1, SessionView { ctx: s1.ctx.next_counter().0, ..s1 });
}

pub proof fn lemma_kept_join(s: SessionView, payload: Seq<u8>, src: PeerAddr, now_ns: u64)
    ensures
        kept(s, s.on_join(payload, src, now_ns).0),
{
    let (allocated, id) = s.mgr.allocate_peer_id();
    let s1 = SessionView { mgr: allocated, ..s };
    if s.wf() {
        peer::law_invariant_is_kept(s.mgr, 0, s.mgr.session_id, 0);
    }
    assert(kept(s, s1));
    if id is Ok {
        lemma_kept_add_peer(s1, id->Ok_0, src, now_ns);
        let s2 = SessionView { mgr: allocated.add_peer(id->Ok_0, src, now_ns).0, ..s1 };
        lemma_kept_transitive(s, s1, s2);
        lemma_kept_set_peer(s2, id->Ok_0, s2.mgr.get(id->Ok_0).connect(now_ns));
        lemma_kept_transitive(s, s2, s2.set_peer(id->Ok_0, s2.mgr.get(id->Ok_0).connect(now_ns)));
    }
}

pub proof fn lemma_kept_peer_list(s: SessionView, payload: Seq<u8>, sender_id: u8, src: PeerAddr)
    ensures
        kept(s, s.on_peer_list(payload, sender_id, src).0),
{
    if let Ok(list) = PeerListView::from_bytes(payload) {
        net::law_peer_list_bytes_are_exact(payload);
        if s.wf() && list.peers.len() > 0 {
            peer::law_invariant_is_kept(
                s.mgr,
                session::max_id(list.peers),
                list.session_id,
                0,
            );
        }
    }
}

pub proof fn lemma_kept_hello(s: SessionView, sender_id: u8, src: PeerAddr, now_ns: u64)
    ensures
        kept(s, s.on_hello(sender_id, src, now_ns).0),
        kept(s, s.on_hello_ack(sender_id, now_ns)),
{
    lemma_kept_set_peer(s, sender_id, s.mgr.get(sender_id).connect(now_ns));
    let s1 = if s.mgr.has(sender_id) {
        s
    } else {
        lemma_kept_add_peer(s, sender_id, src, now_ns);
        SessionView { mgr: s.mgr.add_peer(sender_id, src, now_ns).0, ..s }
    };
    let s2 = s1.set_peer(sender_id, s1.mgr.get(sender_id).connect(now_ns));
    lemma_kept_set_peer(s1, sender_id, s1.mgr.get(sender_id).connect(now_ns));
    lemma_kept_transitive(s, s1, s2);
    lemma_kept_counter(s2);
    lemma_kept_transitive(s, s2, SessionView { ctx: s2.ctx.next_counter().0, ..s2 });
}

pub proof fn lemma_kept_touch(s: SessionView, src: PeerAddr, now_ns: u64)
    ensures
        kept(s, s.touch_sender(src, now_ns)),
        s.touch_sender(src, now_ns).ctx == s.ctx,
{
    if let Some(id) = peer::lookup(s.mgr.addrs, src) {
        lemma_kept_set_peer(s, id, s.mgr.get(id).touch(now_ns));
    }
}

pub proof fn lemma_kept_ping(s: SessionView, payload: Seq<u8>, src: PeerAddr, now_ns: u64)
    ensures
        kept(s, s.on_ping(payload, src, now_ns).0),
{
    let s1 = SessionView { ctx: s.ctx.next_counter().0, ..s };
    assert(kept(s, s1));
    lemma_kept_touch(s1, src, now_ns);
    lemma_kept_transitive(s, s1, s1.touch_sender(src, now_ns));
}

pub proof fn lemma_kept_pong(s: SessionView, payload: Seq<u8>, sender_id: u8, now_ns: u64)
    ensures
        kept(s, s.on_pong(payload, sender_id, now_ns).0),
{
    if let Ok(pong) = PingPayload::spec_from_bytes(payload) {
        let p = s.mgr.get(sender_id);
        if p.latency.wf() {
            latency::law_invariant_is_kept(p.latency, pong.ping_id, now_ns);
        }
        lemma_kept_set_peer(
            s,
            sender_id,
            PeerView {
                latency: p.latency.pong_received(pong.ping_id, now_ns),
                last_seen_ns: now_ns,
                ..p
            },
        );
    }
}

pub proof fn lemma_kept_install(s: SessionView, sender_id: u8, peer_key: Seq<u8>, src: PeerAddr)
    ensures
        kept(s, s.install_peer_key(sender_id, peer_key, src).0),
{
    let p = s.with_pair_key(s.mgr.get(sender_id), peer_key);
    let s1 = s.set_peer(sender_id, p);
    lemma_kept_set_peer(s, sender_id, p);
    let s2 = s1.key_offer().0;
    lemma_kept_counter(s1);
    lemma_kept_transitive(s, s1, s2);
    let q = PeerView { kx_sent: true, ..s2.mgr.get(sender_id) };
    lemma_kept_set_peer(s2, sender_id, q);
    lemma_kept_transitive(s, s2, s2.set_peer(sender_id, q));
}

pub proof fn lemma_kept_key_exchange(
    s: SessionView,
    payload: Seq<u8>,
    sender_id: u8,
    src: PeerAddr,
)
    ensures
        kept(s, s.on_key_exchange(payload, sender_id, src).0),
{
    if let Ok(public) = KeyExchangePayload::spec_from_bytes(payload) {
        if let Ok(key) = key_exchange::spec_peer_key(
            s.secret,
            public,
            s.mgr.session_id,
            s.mgr.local_id,
            sender_id,
        ) {
            lemma_kept_install(s, sender_id, key, src);
        }
    }
}

pub proof fn lemma_kept_audio(
    s: SessionView,
    header: PacketHeader,
    pair_key: bool,
    opus: Seq<u8>,
    now_ns: u64,
)
    ensures
        kept(s, s.on_audio(header, pair_key, opus, now_ns).0),
{
    let id = header.peer_id;
    if s.mgr.has(id) {
        let p = s.mgr.get(id).touch(now_ns);
        let c = header.counter as int;
        lemma_kept_set_peer(s, id, PeerView { peer_replay: p.peer_replay.after(c), ..p });
        lemma_kept_set_peer(s, id, PeerView { replay: p.replay.after(c), ..p });
    }
}

pub proof fn lemma_kept_control(
    s: SessionView,
    header: PacketHeader,
    payload: Seq<u8>,
    src: PeerAddr,
    now_ns: u64,
)
    ensures
        kept(s, s.on_control(header, payload, src, now_ns).0),
{
    lemma_kept_join(s, payload, src, now_ns);
    lemma_kept_peer_list(s, payload, header.peer_id, src);
    lemma_kept_hello(s, header.peer_id, src, now_ns);
    lemma_kept_touch(s, src, now_ns);
    lemma_kept_ping(s, payload, src, now_ns);
    lemma_kept_pong(s, payload, header.peer_id, now_ns);
    lemma_kept_key_exchange(s, payload, header.peer_id, src);
}

pub proof fn lemma_kept_packet(s: SessionView, wire: Seq<u8>, src: PeerAddr, now_ns: u64)
    ensures
        kept(s, s.handle_incoming(wire, src, now_ns).0),
{
    let header = packet::header_of(wire);
    if let Ok(payload) = s.control_payload(wire) {
        lemma_kept_control(s, header, payload, src, now_ns);
    }
    if let Ok((opus, pair_key)) = s.audio_payload(wire) {
        lemma_kept_audio(s, header, pair_key, opus, now_ns);
    }
}

/// Changing the peer at an index without changing its id and address.
proof fn lemma_kept_set_at(s: SessionView, i: int, q: PeerView)
    requires
        0 <= i < s.mgr.peers.len(),
        came_of(s.mgr.peers[i], q),
        q.addr == s.mgr.peers[i].addr,
    ensures
        kept(s, s.set_at(i, q)),
{
    let t = s.set_at(i, q);
    assert forall|j: int| 0 <= j < s.mgr.peers.len() implies came_of(
        s.mgr.peers[j],
        #[trigger] t.mgr.peers[j],
    ) by {}
    if s.wf() {
        assert forall|j: int| 0 <= j < s.mgr.peers.len() implies peer::contact(
            #[trigger] t.mgr.peers[j],
        ) == peer::contact(s.mgr.peers[j]) && t.mgr.peers[j].wf() by {
            assert(s.mgr.peers[j].wf());
        }
        peer::lemma_wf_same_contacts(s.mgr, t.mgr);
    }
}

/// Changing every peer without changing ids and addresses.
proof fn lemma_kept_all_peers(s: SessionView, t: SessionView)
    requires
        t == (SessionView { mgr: ManagerView { peers: t.mgr.peers, ..s.mgr }, ..s }),
        t.mgr.peers.len() == s.mgr.peers.len(),
        forall|i: int|
            0 <= i < s.mgr.peers.len() ==> came_of(s.mgr.peers[i], #[trigger] t.mgr.peers[i])
                && t.mgr.peers[i].addr == s.mgr.peers[i].addr,
    ensures
        kept(s, t),
{
    if s.wf() {
        assert forall|j: int| 0 <= j < s.mgr.peers.len() implies peer::contact(
            #[trigger] t.mgr.peers[j],
        ) == peer::contact(s.mgr.peers[j]) && t.mgr.peers[j].wf() by {
            assert(s.mgr.peers[j].wf());
        }
        peer::lemma_wf_same_contacts(s.mgr, t.mgr);
    }
}

/// That a step keeps what every event keeps, and the number of peers.
pub open spec fn step_keeps(step: PeerStep) -> bool {
    forall|s: SessionView, i: int|
        0 <= i < s.mgr.peers.len() ==> kept(s, (#[trigger] step(s, i)).0)
            && step(s, i).0.mgr.peers.len() == s.mgr.peers.len()
}

pub proof fn lemma_kept_for_peers(s: SessionView, n: nat, step: PeerStep)
    requires
        n <= s.mgr.peers.len(),
        step_keeps(step),
    ensures
        kept(s, outgoing::for_peers(s, n, step).0),
        outgoing::for_peers(s, n, step).0.mgr.peers.len() == s.mgr.peers.len(),
    decreases n,
{
    if n > 0 {
        lemma_kept_for_peers(s, (n - 1) as nat, step);
        let before = outgoing::for_peers(s, (n - 1) as nat, step).0;
        assert(kept(before, step(before, n - 1).0));
        lemma_kept_transitive(s, before, step(before, n - 1).0);
    }
}

pub proof fn lemma_audio_step_keeps(opus: Seq<u8>)
    ensures
        step_keeps(SessionView::audio_step(opus)),
{
    let step = SessionView::audio_step(opus);
    assert forall|s: SessionView, i: int| 0 <= i < s.mgr.peers.len() implies kept(
        s,
        (#[trigger] step(s, i)).0,
    ) && step(s, i).0.mgr.peers.len() == s.mgr.peers.len() by {
        let p = s.mgr.peers[i];
        let q = PeerView { send_seq: jitter::next_seq(p.send_seq), ..p };
        let ctx = s.audio_context(i).next_counter().0;
        let pair = PeerView { peer_crypto: Some(ctx), ..q };
        if SessionView::sends_with_pair_key(p) {
            lemma_kept_set_at(s, i, pair);
        } else {
            lemma_kept_set_at(s, i, q);
            lemma_kept_transitive(
                s,
                s.set_at(i, q),
                SessionView { ctx, ..s.set_at(i, q) },
            );
        }
    }
}

pub proof fn lemma_keepalive_step_keeps()
    ensures
        step_keeps(SessionView::keepalive_step()),
{
}

pub proof fn lemma_ping_step_keeps(now_ns: u64)
    ensures
        step_keeps(SessionView::ping_step(now_ns)),
{
    let step = SessionView::ping_step(now_ns);
    assert forall|s: SessionView, i: int| 0 <= i < s.mgr.peers.len() implies kept(
        s,
        (#[trigger] step(s, i)).0,
    ) && step(s, i).0.mgr.peers.len() == s.mgr.peers.len() by {
        let p = s.mgr.peers[i];
        let q = PeerView { latency: p.latency.ping_sent(now_ns), ..p };
        if p.latency.wf() {
            latency::law_invariant_is_kept(p.latency, 0, now_ns);
        }
        lemma_kept_set_at(s, i, q);
        lemma_kept_transitive(
            s,
            s.set_at(i, q),
            SessionView { ctx: s.ctx.next_counter().0, ..s.set_at(i, q) },
        );
    }
}

pub proof fn lemma_offer_step_keeps()
    ensures
        step_keeps(SessionView::offer_step()),
{
    let step = SessionView::offer_step();
    assert forall|s: SessionView, i: int| 0 <= i < s.mgr.peers.len() implies kept(
        s,
        (#[trigger] step(s, i)).0,
    ) && step(s, i).0.mgr.peers.len() == s.mgr.peers.len() by {
        let t = s.key_offer().0;
        let q = PeerView { kx_sent: true, ..s.mgr.peers[i] };
        lemma_kept_counter(s);
        lemma_kept_set_at(t, i, q);
        lemma_kept_transitive(s, t, t.set_at(i, q));
    }
}

pub proof fn lemma_kept_keepalives(s: SessionView, now_ns: u64)
    ensures
        kept(s, s.keepalives(now_ns).0),
{
    lemma_keepalive_step_keeps();
    lemma_kept_for_peers(s, s.mgr.peers.len(), SessionView::keepalive_step());
    let t = outgoing::for_peers(s, s.mgr.peers.len(), SessionView::keepalive_step()).0;
    let u = s.keepalives(now_ns).0;
    assert(u =~= SessionView { mgr: ManagerView { peers: u.mgr.peers, ..t.mgr }, ..t });
    lemma_kept_all_peers(t, u);
    lemma_kept_transitive(s, t, u);
}

pub proof fn lemma_kept_pings(s: SessionView, now_ns: u64)
    ensures
        kept(s, s.pings(now_ns).0),
{
    lemma_ping_step_keeps(now_ns);
    lemma_kept_for_peers(s, s.mgr.peers.len(), SessionView::ping_step(now_ns));
}

pub proof fn lemma_kept_offers(s: SessionView)
    ensures
        kept(s, s.offer_keys().0),
{
    lemma_offer_step_keeps();
    lemma_kept_for_peers(s, s.mgr.peers.len(), SessionView::offer_step());
}

pub proof fn lemma_kept_send_audio(s: SessionView, opus: Seq<u8>)
    ensures
        kept(s, s.send_audio(opus).0),
{
    lemma_audio_step_keeps(opus);
    lemma_kept_for_peers(s, s.mgr.peers.len(), SessionView::audio_step(opus));
}

pub proof fn lemma_kept_tick(s: SessionView, timers: Timers, now_ns: u64)
    ensures
        kept(s, s.tick(timers, now_ns).0),
{
    let s1 = if timers.keepalive.due(now_ns) {
        s.keepalives(now_ns).0
    } else {
        s
    };
    lemma_kept_keepalives(s, now_ns);
    let (s2, s3) = if timers.ping.due(now_ns) {
        (s1.pings(now_ns).0, s1.pings(now_ns).0.offer_keys().0)
    } else {
        (s1, s1)
    };
    lemma_kept_pings(s1, now_ns);
    lemma_kept_offers(s2);
    lemma_kept_transitive(s, s1, s2);
    lemma_kept_transitive(s, s2, s3);
    let elapsed = timers.adapt.spec_elapsed(now_ns);
    lemma_kept_adapt(s3, elapsed);
    lemma_kept_transitive(s, s3, s3.adapt(elapsed));
}

pub proof fn lemma_kept_adapt(s: SessionView, elapsed_ns: u64)
    ensures
        kept(s, s.adapt(elapsed_ns)),
{
    let t = s.adapt(elapsed_ns);
    assert forall|i: int| 0 <= i < s.mgr.peers.len() implies came_of(
        s.mgr.peers[i],
        #[trigger] t.mgr.peers[i],
    ) && t.mgr.peers[i].addr == s.mgr.peers[i].addr by {
        if s.mgr.peers[i].jitter.wf() {
            jitter::law_invariant_is_kept(s.mgr.peers[i].jitter, 0, Seq::empty(), elapsed_ns);
        }
    }
    lemma_kept_all_peers(s, t);
}

pub proof fn lemma_kept_playout(s: SessionView)
    ensures
        kept(s, s.after_playout()),
{
    let t = s.after_playout();
    assert forall|i: int| 0 <= i < s.mgr.peers.len() implies came_of(
        s.mgr.peers[i],
        #[trigger] t.mgr.peers[i],
    ) && t.mgr.peers[i].addr == s.mgr.peers[i].addr by {
        if s.mgr.peers[i].jitter.wf() {
            jitter::law_invariant_is_kept(s.mgr.peers[i].jitter, 0, Seq::empty(), 0);
        }
    }
    lemma_kept_all_peers(s, t);
}

pub proof fn lemma_kept_event(s: SessionView, event: Event)
    ensures
        kept(s, s.after(event)),
{
    match event {
        Event::Packet { wire, src, now_ns } => {
            lemma_kept_packet(s, wire, src, now_ns);
        },
        Event::Join { .. } => {
            lemma_kept_counter(s);
        },
        Event::Welcome { .. } => {
            lemma_kept_counter(s);
        },
        Event::Greet { id, to, now_ns } => {
            lemma_kept_greet(s, id, to, now_ns);
        },
        Event::HelloSent { id } => {
            lemma_kept_set_peer(
                s,
                id,
                PeerView { state: PeerState::HelloSent, ..s.mgr.get(id) },
            );
        },
        Event::Deliver { peer_id, seq_num, pcm } => {
            let p = s.mgr.get(peer_id);
            if p.jitter.wf() {
                jitter::law_invariant_is_kept(p.jitter, seq_num, pcm, 0);
            }
            lemma_kept_set_peer(
                s,
                peer_id,
                PeerView { jitter: p.jitter.push(seq_num, pcm), ..p },
            );
        },
        Event::SendAudio { opus } => {
            lemma_kept_send_audio(s, opus);
        },
        Event::Tick { timers, now_ns } => {
            lemma_kept_tick(s, timers, now_ns);
        },
        Event::Playout => {
            lemma_kept_playout(s);
        },
    }
}

pub proof fn lemma_kept_events(s: SessionView, events: Seq<Event>)
    ensures
        kept(s, s.after_all(events)),
    decreases events.len(),
{
    if events.len() > 0 {
        lemma_kept_events(s, events.drop_last());
        lemma_kept_event(s.after_all(events.drop_last()), events.last());
        lemma_kept_transitive(s, s.after_all(events.drop_last()), s.after_all(events));
    }
}

/// Whatever happens in a session, and in whatever order, its invariant holds: no two peers have
/// the same id, there are never more than a session may have, every jitter buffer and latency
/// tracker holds together, and the context has the key and the id of the session.
pub proof fn law_invariant_holds_always(
    key: Seq<u8>,
    is_host: bool,
    session_id: Seq<u8>,
    secret: Seq<u8>,
    events: Seq<Event>,
)
    requires
        key.len() == 32,
        session_id.len() == 8,
    ensures
        SessionView::start(key, is_host, session_id, secret).after_all(events).wf(),
        SessionView::start(key, is_host, session_id, secret).after_all(events).mgr.peers.len()
            < MAX_PEERS,
{
    let s = SessionView::start(key, is_host, session_id, secret);
    peer::law_invariant_is_kept(ManagerView::new_host(session_id), 0, session_id, 0);
    lemma_kept_events(s, events);
}

/// Whatever happens in a session, and in whatever order, there are never more than four other peers,
/// no two have the same id, none has more than eight frames waiting or sixteen pings pending, every
/// depth is from one to four frames, and no address leads to a peer that does not have it.
pub proof fn law_limits_hold_always(
    key: Seq<u8>,
    is_host: bool,
    session_id: Seq<u8>,
    secret: Seq<u8>,
    events: Seq<Event>,
)
    requires
        key.len() == 32,
        session_id.len() == 8,
    ensures
        ({
            let s = SessionView::start(key, is_host, session_id, secret).after_all(events);
            let peers = s.mgr.peers;
            &&& peers.len() <= 4
            &&& forall|i: int, j: int|
                0 <= i < j < peers.len() ==> (#[trigger] peers[i]).id != (#[trigger] peers[j]).id
            &&& forall|i: int|
                0 <= i < peers.len() ==> (#[trigger] peers[i]).jitter.frames.len() <= 8 && 1
                    <= peers[i].jitter.target_depth <= 4 && peers[i].latency.pending.len() <= 16
                    && peers[i].kx_received == peers[i].peer_crypto is Some
            &&& forall|a: PeerAddr| #[trigger]
                s.mgr.addrs.dom().contains(a) ==> exists|i: int|
                    0 <= i < peers.len() && (#[trigger] peers[i]).addr == a && peers[i].id
                        == s.mgr.addrs[a]
            &&& s.ctx.key == key
            &&& s.ctx.session_id == s.mgr.session_id
        }),
{
    law_invariant_holds_always(key, is_host, session_id, secret, events);
    let start = SessionView::start(key, is_host, session_id, secret);
    lemma_kept_events(start, events);
    let s = start.after_all(events);
    let peers = s.mgr.peers;
    assert forall|i: int| 0 <= i < peers.len() implies (#[trigger] peers[i]).jitter.frames.len()
        <= 8 && 1 <= peers[i].jitter.target_depth <= 4 && peers[i].latency.pending.len() <= 16
        && peers[i].kx_received == peers[i].peer_crypto is Some by {
        assert(peers[i].wf());
    }
    assert forall|a: PeerAddr| #[trigger] s.mgr.addrs.dom().contains(a) implies exists|i: int|
        0 <= i < peers.len() && (#[trigger] peers[i]).addr == a && peers[i].id
            == s.mgr.addrs[a] by {
        let id = s.mgr.addrs[a];
        peer::lemma_index(s.mgr, id);
        assert(peers[s.mgr.index(id)].addr == a);
    }
}

/// The key, the key pair and the role of a node stay what they are, and a peer that is known stays
/// known, at its place.
pub proof fn law_peers_are_never_lost(s: SessionView, events: Seq<Event>, i: int)
    requires
        0 <= i < s.mgr.peers.len(),
    ensures
        s.after_all(events).key == s.key,
        s.after_all(events).secret == s.secret,
        s.after_all(events).mgr.is_host == s.mgr.is_host,
        i < s.after_all(events).mgr.peers.len(),
        s.after_all(events).mgr.peers[i].id == s.mgr.peers[i].id,
{
    lemma_kept_events(s, events);
    assert(came_of(s.mgr.peers[i], s.after_all(events).mgr.peers[i]));
}

/// The host gives no id to two peers: whatever happened after it let one in, the id that the next
/// one gets is another.
pub proof fn law_no_id_is_given_twice(
    host: SessionView,
    payload: Seq<u8>,
    src: PeerAddr,
    now_ns: u64,
    events: Seq<Event>,
)
    requires
        host.on_join(payload, src, now_ns).1 is Ok,
        host.on_join(payload, src, now_ns).0.after_all(events).mgr.allocate_peer_id().1 is Ok,
    ensures
        host.mgr.allocate_peer_id().1 is Ok,
        host.on_join(payload, src, now_ns).0.after_all(events).mgr.allocate_peer_id().1->Ok_0
            > host.mgr.allocate_peer_id().1->Ok_0,
{
    lemma_kept_events(host.on_join(payload, src, now_ns).0, events);
}

} // verus!
