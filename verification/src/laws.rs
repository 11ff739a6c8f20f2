//! What holds of the packets that come in and go out.
use vstd::prelude::*;

use crate::addr::PeerAddr;
use crate::crypto::MAX_PLAINTEXT_LEN;
use crate::error::VoiceError;
use crate::events;
use crate::events::Event;
use crate::latency;
use crate::latency::PingPayload;
use crate::net::{PacketHeader, HEADER_LEN, PKT_AUDIO, PKT_KEEPALIVE, PKT_PONG};
use crate::outgoing;
use crate::packet;
use crate::peer;
use crate::peer::{PeerState, PeerView};
use crate::session::{OutgoingView, ReactionView, SessionView};

verus! {

/// Whether a packet is authentic to a node: it has a header of a known type, and its payload and
/// header pass under the context that the type calls for.
pub open spec fn authentic(s: SessionView, wire: Seq<u8>) -> bool {
    &&& wire.len() >= HEADER_LEN
    &&& SessionView::known_type(packet::header_of(wire).pkt_type)
    &&& if packet::header_of(wire).pkt_type == PKT_AUDIO {
        s.audio_payload(wire) is Ok
    } else {
        s.control_payload(wire) is Ok
    }
}

/// A packet that is not authentic is turned down and changes nothing, whatever its type.
pub proof fn law_unauthentic_packet_changes_nothing(
    s: SessionView,
    wire: Seq<u8>,
    src: PeerAddr,
    now_ns: u64,
)
    requires
        !authentic(s, wire),
    ensures
        s.handle_incoming(wire, src, now_ns).0 == s,
        s.handle_incoming(wire, src, now_ns).1 is Err,
{
}

/// Whether a node has accepted an audio packet with a counter from a peer, under the key of the
/// pair or under the passphrase key, or could no longer tell.
pub open spec fn is_spent(s: SessionView, id: u8, pair_key: bool, counter: u32) -> bool {
    s.mgr.has(id) && !(if pair_key {
        s.mgr.get(id).peer_replay.accepts(counter as int)
    } else {
        s.mgr.get(id).replay.accepts(counter as int)
    })
}

proof fn lemma_spent_stays_spent(s: SessionView, t: SessionView, id: u8, pair_key: bool, counter: u32)
    requires
        is_spent(s, id, pair_key, counter),
        events::kept(s, t),
    ensures
        is_spent(t, id, pair_key, counter),
{
    peer::lemma_index(s.mgr, id);
    let at = s.mgr.index(id);
    assert forall|i: int| 0 <= i < at implies (#[trigger] t.mgr.peers[i]).id != id by {
        assert(events::came_of(s.mgr.peers[i], t.mgr.peers[i]));
    }
    assert(events::came_of(s.mgr.peers[at], t.mgr.peers[at]));
    peer::lemma_index_is(t.mgr, id, at);
}

/// An audio packet is decoded once. After it was accepted, and whatever happened since, the same
/// packet is turned down as a replay as long as it is still authentic under the same key; and if
/// it is not, it is turned down as that.
pub proof fn law_audio_packet_is_decoded_once(
    s: SessionView,
    wire: Seq<u8>,
    src: PeerAddr,
    now_ns: u64,
    events: Seq<Event>,
    again_src: PeerAddr,
    again_ns: u64,
)
    requires
        wire.len() >= HEADER_LEN,
        packet::header_of(wire).pkt_type == PKT_AUDIO,
        s.handle_incoming(wire, src, now_ns).1 matches Ok(ReactionView::Decode { .. }),
    ensures
        ({
            let later = s.handle_incoming(wire, src, now_ns).0.after_all(events);
            let again = later.handle_incoming(wire, again_src, again_ns).1;
            match later.audio_payload(wire) {
                Ok((_, pair_key)) => pair_key == s.audio_payload(wire)->Ok_0.1 ==> again == Err::<
                    ReactionView,
                    VoiceError,
                >(VoiceError::ReplayDetected { peer_id: packet::header_of(wire).peer_id }),
                Err(e) => again == Err::<ReactionView, VoiceError>(e),
            }
        }),
{
    let header = packet::header_of(wire);
    let id = header.peer_id;
    let (opus, pair_key) = s.audio_payload(wire)->Ok_0;
    let t = s.handle_incoming(wire, src, now_ns).0;
    let p = s.mgr.get(id).touch(now_ns);
    let q = if pair_key {
        PeerView { peer_replay: p.peer_replay.after(header.counter as int), ..p }
    } else {
        PeerView { replay: p.replay.after(header.counter as int), ..p }
    };
    assert(t == s.set_peer(id, q));
    peer::lemma_index(s.mgr, id);
    assert forall|i: int| 0 <= i < s.mgr.index(id) implies (#[trigger] t.mgr.peers[i]).id != id by {
        assert(t.mgr.peers[i] == s.mgr.peers[i]);
    }
    peer::lemma_index_is(t.mgr, id, s.mgr.index(id));
    assert(is_spent(t, id, pair_key, header.counter));
    events::lemma_kept_events(t, events);
    lemma_spent_stays_spent(t, t.after_all(events), id, pair_key, header.counter);
}

/// An audio packet arrives: whoever knows the sender and has the key under which the packet was
/// encrypted hands the frame on to be decoded, unless the counter was used before. Where the
/// receiver has a key with the sender but the sender does not use it yet, the packet must not
/// happen to pass under that key.
pub proof fn law_audio_arrives(
    s: SessionView,
    wire: Seq<u8>,
    key: Seq<u8>,
    session_id: Seq<u8>,
    header: PacketHeader,
    opus: Seq<u8>,
    src: PeerAddr,
    now_ns: u64,
)
    requires
        packet::reads_as(wire, key, session_id, header, opus),
        header.pkt_type == PKT_AUDIO,
        s.mgr.has(header.peer_id),
        if s.has_pair_key(header.peer_id) && packet::opened(
            s.mgr.get(header.peer_id).peer_crypto->0,
            wire,
        ) is Ok {
            &&& s.mgr.get(header.peer_id).peer_crypto->0.key == key
            &&& s.mgr.get(header.peer_id).peer_crypto->0.session_id == session_id
            &&& s.mgr.get(header.peer_id).peer_replay.accepts(header.counter as int)
        } else {
            &&& s.ctx.key == key
            &&& s.ctx.session_id == session_id
            &&& s.mgr.get(header.peer_id).replay.accepts(header.counter as int)
        },
    ensures
        s.handle_incoming(wire, src, now_ns).1 == Ok::<ReactionView, VoiceError>(
            ReactionView::Decode { peer_id: header.peer_id, seq_num: header.seq_num, opus },
        ),
{
}

/// A ping comes back: the peer answers it with its own payload as long as it has counters left,
/// and the sender, having got the answer, has measured the time that passed.
pub proof fn law_ping_is_answered_and_measured(
    a: SessionView,
    b: SessionView,
    i: int,
    b_src: PeerAddr,
    sent_ns: u64,
    got_ns: u64,
    back_ns: u64,
)
    requires
        a.wf(),
        0 <= i < a.mgr.peers.len(),
        a.mgr.peers[i].state == PeerState::Connected,
        b.ctx.send_counter < u32::MAX,
        sent_ns <= back_ns,
    ensures
        ({
            let ping = PingPayload { ping_id: a.mgr.peers[i].latency.next_ping_id };
            let id = a.mgr.peers[i].id;
            let a1 = a.ping_at(i, sent_ns).0;
            let a2 = a1.on_pong(ping.spec_to_bytes(), id, back_ns).0;
            &&& b.on_ping(ping.spec_to_bytes(), b_src, got_ns).1 == Ok::<ReactionView, VoiceError>(
                match packet::sealed(
                    b.ctx,
                    PacketHeader::spec_new(
                        PKT_PONG,
                        b.mgr.local_id,
                        0,
                        b.ctx.send_counter,
                    ),
                    ping.spec_to_bytes(),
                ) {
                    Ok(wire) => ReactionView::Reply(OutgoingView { to: b_src, wire }),
                    Err(_) => ReactionView::Quiet,
                },
            )
            &&& a2.mgr.get(id).latency.stats == a.mgr.peers[i].latency.stats.with_sample(
                ((back_ns - sent_ns) / 1000) as u64,
            )
            &&& a2.mgr.get(id).last_seen_ns == back_ns
        }),
{
    let p = a.mgr.peers[i];
    let id = p.id;
    let ping = PingPayload { ping_id: p.latency.next_ping_id };
    latency::law_ping_roundtrip(ping);
    let tracker = p.latency;
    latency::law_answered_ping_is_measured(tracker, sent_ns, Seq::empty(), back_ns);
    let a1 = a.ping_at(i, sent_ns).0;
    assert forall|j: int| 0 <= j < i implies (#[trigger] a1.mgr.peers[j]).id != id by {
        assert(a.mgr.peers[j].id != a.mgr.peers[i].id);
    }
    peer::lemma_index_is(a1.mgr, id, i);
    let q = a1.mgr.get(id);
    peer::lemma_set_is_there(
        a1.mgr,
        id,
        PeerView {
            latency: q.latency.pong_received(ping.ping_id, back_ns),
            last_seen_ns: back_ns,
            ..q
        },
    );
}

/// The addresses that packets go to.
pub open spec fn destinations(packets: Seq<OutgoingView>) -> Seq<PeerAddr> {
    packets.map_values(|o: OutgoingView| o.to)
}

/// The addresses of the connected ones of some peers.
pub open spec fn connected_addrs(peers: Seq<PeerView>) -> Seq<PeerAddr> {
    peer::connected_contacts(peers).map_values(|c: (u8, PeerAddr)| c.1)
}

proof fn lemma_audio_goes_to(s: SessionView, opus: Seq<u8>, n: nat)
    requires
        n <= s.mgr.peers.len(),
        opus.len() <= MAX_PLAINTEXT_LEN,
        s.ctx.send_counter + s.mgr.peers.len() <= u32::MAX,
        forall|i: int|
            0 <= i < s.mgr.peers.len() && (#[trigger] s.mgr.peers[i]).peer_crypto is Some
                ==> s.mgr.peers[i].peer_crypto->0.send_counter < u32::MAX,
    ensures
        ({
            let (t, packets) = outgoing::for_peers(s, n, SessionView::audio_step(opus));
            &&& destinations(packets) == connected_addrs(s.mgr.peers.take(n as int))
            &&& t.mgr.peers.len() == s.mgr.peers.len()
            &&& t.ctx.send_counter <= s.ctx.send_counter + n
            &&& forall|i: int|
                n <= i < s.mgr.peers.len() ==> (#[trigger] t.mgr.peers[i]) == s.mgr.peers[i]
        }),
    decreases n,
{
    let step = SessionView::audio_step(opus);
    let first = s.mgr.peers.take(n as int);
    if n == 0 {
        assert(first =~= Seq::<PeerView>::empty());
        assert(destinations(Seq::empty()) =~= connected_addrs(first));
    } else {
        lemma_audio_goes_to(s, opus, (n - 1) as nat);
        let (before, packets) = outgoing::for_peers(s, (n - 1) as nat, step);
        let (after, packet) = step(before, n - 1);
        let p = s.mgr.peers[n - 1];
        assert(before.mgr.peers[n - 1] == p);
        assert(first.drop_last() =~= s.mgr.peers.take(n - 1));
        assert(first.last() == p);
        if p.state == PeerState::Connected {
            assert(packet is Some && packet->0.to == p.addr);
            assert(destinations(packets.push(packet->0)) =~= destinations(packets).push(p.addr));
            assert(connected_addrs(first) =~= connected_addrs(s.mgr.peers.take(n - 1)).push(
                p.addr,
            ));
        }
    }
}

/// A frame goes to every connected peer once and to no one else, as long as there are counters
/// left and the frame is not too long to be encrypted.
pub proof fn law_audio_goes_to_every_connected_peer(s: SessionView, opus: Seq<u8>)
    requires
        opus.len() <= MAX_PLAINTEXT_LEN,
        s.ctx.send_counter + s.mgr.peers.len() <= u32::MAX,
        forall|i: int|
            0 <= i < s.mgr.peers.len() && (#[trigger] s.mgr.peers[i]).peer_crypto is Some
                ==> s.mgr.peers[i].peer_crypto->0.send_counter < u32::MAX,
    ensures
        destinations(s.send_audio(opus).1) == connected_addrs(s.mgr.peers),
{
    lemma_audio_goes_to(s, opus, s.mgr.peers.len());
    assert(s.mgr.peers.take(s.mgr.peers.len() as int) =~= s.mgr.peers);
}

/// A keepalive that arrives keeps its sender connected: at no time up to ten seconds later is the
/// sender taken for gone.
pub proof fn law_keepalive_keeps_sender_connected(
    s: SessionView,
    wire: Seq<u8>,
    src: PeerAddr,
    arrival_ns: u64,
    later_ns: u64,
)
    requires
        s.wf(),
        authentic(s, wire),
        packet::header_of(wire).pkt_type == PKT_KEEPALIVE,
        peer::lookup(s.mgr.addrs, src) is Some,
        s.mgr.get(peer::lookup(s.mgr.addrs, src)->0).state == PeerState::Connected,
        later_ns - arrival_ns <= peer::PEER_TIMEOUT_NS,
    ensures
        ({
            let id = peer::lookup(s.mgr.addrs, src)->0;
            let after = s.handle_incoming(wire, src, arrival_ns).0.mgr.check_timeouts(later_ns);
            after.has(id) && after.get(id).state == PeerState::Connected
        }),
{
    let id = peer::lookup(s.mgr.addrs, src)->0;
    assert(s.mgr.addrs.dom().contains(src));
    peer::lemma_index(s.mgr, id);
    let touched = s.mgr.get(id).touch(arrival_ns);
    peer::lemma_set_is_there(s.mgr, id, touched);
    let t = s.handle_incoming(wire, src, arrival_ns).0;
    assert(t == s.set_peer(id, touched));
    let u = t.mgr.check_timeouts(later_ns);
    assert forall|i: int| 0 <= i < t.mgr.peers.len() implies (#[trigger] t.mgr.peers[i]).id
        == u.peers[i].id by {}
    peer::lemma_index_same(t.mgr, u, id);
}

} // verus!
