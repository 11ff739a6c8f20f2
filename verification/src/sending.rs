//! Who gets what of the packets that a node sends, and what it plays.
use vstd::prelude::*;

use crate::bytes;
use crate::crypto::{CryptoView, MAX_PLAINTEXT_LEN};
use crate::jitter;
use crate::key_exchange;
use crate::net;
use crate::net::PacketHeader;
use crate::outgoing;
use crate::outgoing::{PeerDisplayInfo, PeerStep, Timer, Timers};
use crate::packet;
use crate::peer::{ManagerView, PeerState, PeerView};
use crate::session::{Outgoing, OutgoingView, SessionState, SessionView};

verus! {

/// The packet of a type with a number under a context.
pub open spec fn packet_of(ctx: CryptoView, header: PacketHeader, payload: Seq<u8>) -> Seq<u8> {
    packet::sealed(ctx, header, payload)->Ok_0
}

/// A packet begins with the bytes of its header, so that whoever gets it reads them.
pub proof fn law_header_is_read(ctx: CryptoView, header: PacketHeader, payload: Seq<u8>)
    requires
        payload.len() <= 0x3f_ffff_ff80,
    ensures
        packet::sealed(ctx, header, payload) is Ok,
        packet::header_of(packet_of(ctx, header, payload)) == header,
        packet_of(ctx, header, payload).len() >= 8,
{
    let wire = packet_of(ctx, header, payload);
    net::law_header_roundtrip(header);
    assert(wire.subrange(0, 8) =~= header.spec_to_bytes());
}

/// How many of the first `n` peers are chosen.
spec fn count_chosen(peers: Seq<PeerView>, chosen: spec_fn(PeerView) -> bool, n: int) -> nat {
    peers.take(n).filter(chosen).len()
}

/// The peers, of which the first `n` that are chosen have changed.
spec fn changed_peers(
    peers: Seq<PeerView>,
    chosen: spec_fn(PeerView) -> bool,
    change: spec_fn(PeerView) -> PeerView,
    n: int,
) -> Seq<PeerView> {
    Seq::new(
        peers.len(),
        |i: int|
            if i < n && chosen(peers[i]) {
                change(peers[i])
            } else {
                peers[i]
            },
    )
}

/// That a step sends the chosen peers a packet of a type under the context of the session.
spec fn is_broadcast(
    step: PeerStep,
    chosen: spec_fn(PeerView) -> bool,
    pkt_type: u8,
    payload: spec_fn(PeerView) -> Seq<u8>,
    change: spec_fn(PeerView) -> PeerView,
    secret: Seq<u8>,
) -> bool {
    forall|t: SessionView, i: int|
        0 <= i < t.mgr.peers.len() && t.ctx.send_counter < u32::MAX && t.secret == secret && payload(
            t.mgr.peers[i],
        ).len() <= MAX_PLAINTEXT_LEN ==> #[trigger] step(t, i) == (if chosen(t.mgr.peers[i]) {
            (
                SessionView {
                    ctx: CryptoView { send_counter: (t.ctx.send_counter + 1) as u32, ..t.ctx },
                    mgr: ManagerView {
                        peers: t.mgr.peers.update(i, change(t.mgr.peers[i])),
                        ..t.mgr
                    },
                    ..t
                },
                Some(
                    OutgoingView {
                        to: t.mgr.peers[i].addr,
                        wire: packet_of(
                            t.ctx,
                            PacketHeader {
                                pkt_type,
                                peer_id: t.mgr.local_id,
                                seq_num: 0,
                                counter: t.ctx.send_counter,
                            },
                            payload(t.mgr.peers[i]),
                        ),
                    },
                ),
            )
        } else {
            (t, None)
        })
}

proof fn lemma_chosen_push(peers: Seq<PeerView>, chosen: spec_fn(PeerView) -> bool, n: int)
    requires
        0 <= n < peers.len(),
    ensures
        peers.take(n + 1).filter(chosen) == (if chosen(peers[n]) {
            peers.take(n).filter(chosen).push(peers[n])
        } else {
            peers.take(n).filter(chosen)
        }),
        count_chosen(peers, chosen, n) <= n,
{
    reveal(Seq::filter);
    assert(peers.take(n + 1).drop_last() =~= peers.take(n));
    peers.take(n).lemma_filter_len(chosen);
}

proof fn lemma_broadcast(
    s: SessionView,
    n: nat,
    step: PeerStep,
    chosen: spec_fn(PeerView) -> bool,
    pkt_type: u8,
    payload: spec_fn(PeerView) -> Seq<u8>,
    change: spec_fn(PeerView) -> PeerView,
)
    requires
        n <= s.mgr.peers.len(),
        s.ctx.send_counter + s.mgr.peers.len() <= u32::MAX,
        forall|p: PeerView| (#[trigger] payload(p)).len() <= MAX_PLAINTEXT_LEN,
        is_broadcast(step, chosen, pkt_type, payload, change, s.secret),
    ensures
        ({
            let (t, packets) = outgoing::for_peers(s, n, step);
            let some = s.mgr.peers.take(n as int).filter(chosen);
            &&& packets.len() == some.len()
            &&& forall|k: int|
                0 <= k < some.len() ==> (#[trigger] packets[k]) == (OutgoingView {
                    to: some[k].addr,
                    wire: packet_of(
                        s.ctx,
                        PacketHeader {
                            pkt_type,
                            peer_id: s.mgr.local_id,
                            seq_num: 0,
                            counter: (s.ctx.send_counter + k) as u32,
                        },
                        payload(some[k]),
                    ),
                })
            &&& t == (SessionView {
                ctx: CryptoView {
                    send_counter: (s.ctx.send_counter + some.len()) as u32,
                    ..s.ctx
                },
                mgr: ManagerView {
                    peers: changed_peers(s.mgr.peers, chosen, change, n as int),
                    ..s.mgr
                },
                ..s
            })
        }),
    decreases n,
{
    let peers = s.mgr.peers;
    if n == 0 {
        reveal(Seq::filter);
        assert(peers.take(0).filter(chosen) =~= Seq::<PeerView>::empty());
        assert(changed_peers(peers, chosen, change, 0) =~= peers);
    } else {
        let m = n - 1;
        lemma_broadcast(s, m as nat, step, chosen, pkt_type, payload, change);
        lemma_chosen_push(peers, chosen, m);
        let (before, packets) = outgoing::for_peers(s, m as nat, step);
        let some = peers.take(m).filter(chosen);
        let p = peers[m];
        assert(before.mgr.peers[m] == p);
        assert(payload(p).len() <= MAX_PLAINTEXT_LEN);
        let (after, packet) = step(before, m);
        if chosen(p) {
            assert(before.mgr.peers.update(m, change(p)) =~= changed_peers(
                peers,
                chosen,
                change,
                n as int,
            ));
            let last = packet->0;
            assert(last.wire == packet_of(
                s.ctx,
                PacketHeader {
                    pkt_type,
                    peer_id: s.mgr.local_id,
                    seq_num: 0,
                    counter: (s.ctx.send_counter + some.len()) as u32,
                },
                payload(p),
            ));
        } else {
            assert(before.mgr.peers =~= changed_peers(peers, chosen, change, n as int));
        }
    }
}

/// Whether a peer is connected.
spec fn is_connected() -> spec_fn(PeerView) -> bool {
    |p: PeerView| p.state == PeerState::Connected
}

/// Every connected peer gets one keepalive, at its address, with a counter of its own; no one else
/// gets one, and of the peers no more is changed than who is connected.
pub proof fn law_keepalives_go_to_every_connected_peer(s: SessionView, now_ns: u64)
    requires
        s.ctx.send_counter + s.mgr.peers.len() <= u32::MAX,
    ensures
        ({
            let (t, packets) = s.keepalives(now_ns);
            let connected = s.mgr.peers.filter(|p: PeerView| p.state == PeerState::Connected);
            &&& packets.len() == connected.len()
            &&& forall|k: int|
                0 <= k < connected.len() ==> (#[trigger] packets[k]).to == connected[k].addr
                    && packets[k].wire == packet_of(
                    s.ctx,
                    PacketHeader {
                        pkt_type: 5,
                        peer_id: s.mgr.local_id,
                        seq_num: 0,
                        counter: (s.ctx.send_counter + k) as u32,
                    },
                    Seq::empty(),
                )
            &&& t.ctx.send_counter == s.ctx.send_counter + connected.len()
            &&& t.mgr.peers.len() == s.mgr.peers.len()
            &&& forall|i: int|
                0 <= i < s.mgr.peers.len() ==> (#[trigger] t.mgr.peers[i]) == (PeerView {
                    state: if s.mgr.peers[i].state == PeerState::Connected && now_ns
                        - s.mgr.peers[i].last_seen_ns > 10_000_000_000 {
                        PeerState::Disconnected
                    } else {
                        s.mgr.peers[i].state
                    },
                    ..s.mgr.peers[i]
                })
        }),
{
    let step = SessionView::keepalive_step();
    let payload = |p: PeerView| Seq::<u8>::empty();
    let change = |p: PeerView| p;
    let n = s.mgr.peers.len();
    assert forall|t: SessionView, i: int|
        0 <= i < t.mgr.peers.len() && t.ctx.send_counter < u32::MAX && t.secret == s.secret implies (
    #[trigger] step(t, i)) == (if is_connected()(t.mgr.peers[i]) {
        (
            SessionView {
                ctx: CryptoView { send_counter: (t.ctx.send_counter + 1) as u32, ..t.ctx },
                mgr: ManagerView {
                    peers: t.mgr.peers.update(i, change(t.mgr.peers[i])),
                    ..t.mgr
                },
                ..t
            },
            Some(
                OutgoingView {
                    to: t.mgr.peers[i].addr,
                    wire: packet_of(
                        t.ctx,
                        PacketHeader {
                            pkt_type: 5,
                            peer_id: t.mgr.local_id,
                            seq_num: 0,
                            counter: t.ctx.send_counter,
                        },
                        payload(t.mgr.peers[i]),
                    ),
                },
            ),
        )
    } else {
        (t, None)
    }) by {
        assert(t.mgr.peers.update(i, t.mgr.peers[i]) =~= t.mgr.peers);
    }
    lemma_broadcast(s, n, step, is_connected(), 5, payload, change);
    assert(s.mgr.peers.take(n as int) =~= s.mgr.peers);
    assert((|p: PeerView| p.state == PeerState::Connected) =~= is_connected());
    assert(changed_peers(s.mgr.peers, is_connected(), change, n as int) =~= s.mgr.peers);
}

/// Every connected peer gets one ping, at its address, with the id that the tracker of this peer
/// notes, together with the time; no one else gets one, and nothing else is changed.
pub proof fn law_pings_go_to_every_connected_peer(s: SessionView, now_ns: u64)
    requires
        s.ctx.send_counter + s.mgr.peers.len() <= u32::MAX,
    ensures
        ({
            let (t, packets) = s.pings(now_ns);
            let connected = s.mgr.peers.filter(|p: PeerView| p.state == PeerState::Connected);
            &&& packets.len() == connected.len()
            &&& forall|k: int|
                0 <= k < connected.len() ==> (#[trigger] packets[k]).to == connected[k].addr
                    && packets[k].wire == packet_of(
                    s.ctx,
                    PacketHeader {
                        pkt_type: 7,
                        peer_id: s.mgr.local_id,
                        seq_num: 0,
                        counter: (s.ctx.send_counter + k) as u32,
                    },
                    bytes::be_bytes(connected[k].latency.next_ping_id as nat, 4),
                )
            &&& t.ctx.send_counter == s.ctx.send_counter + connected.len()
            &&& t.mgr.peers.len() == s.mgr.peers.len()
            &&& forall|i: int|
                0 <= i < s.mgr.peers.len() ==> {
                    let p = s.mgr.peers[i];
                    let q = #[trigger] t.mgr.peers[i];
                    &&& q == (PeerView { latency: q.latency, ..p })
                    &&& p.state != PeerState::Connected ==> q == p
                    &&& p.state == PeerState::Connected ==> q.latency.pending.len() > 0
                        && q.latency.pending.last() == (p.latency.next_ping_id, now_ns)
                        && q.latency.next_ping_id == (p.latency.next_ping_id + 1) % 0x1_0000_0000
                        && q.latency.stats == p.latency.stats
                }
        }),
{
    let step = SessionView::ping_step(now_ns);
    let payload = |p: PeerView| bytes::be_bytes(p.latency.next_ping_id as nat, 4);
    let change = |p: PeerView| PeerView { latency: p.latency.ping_sent(now_ns), ..p };
    let n = s.mgr.peers.len();
    assert forall|p: PeerView| (#[trigger] payload(p)).len() <= MAX_PLAINTEXT_LEN by {
        bytes::lemma_be_bytes_len(p.latency.next_ping_id as nat, 4);
    }
    lemma_broadcast(s, n, step, is_connected(), 7, payload, change);
    assert(s.mgr.peers.take(n as int) =~= s.mgr.peers);
    assert((|p: PeerView| p.state == PeerState::Connected) =~= is_connected());
}

/// Our public key goes to every connected peer to which it did not go yet, at its address, and to
/// no one else; it is then noted of these that it went to them, and nothing else is changed.
pub proof fn law_offers_go_to_those_without_our_key(s: SessionView)
    requires
        s.ctx.send_counter + s.mgr.peers.len() <= u32::MAX,
        key_exchange::x25519_public(s.secret).len() == 32,
    ensures
        ({
            let (t, packets) = s.offer_keys();
            let waiting = s.mgr.peers.filter(
                |p: PeerView| p.state == PeerState::Connected && !p.kx_sent,
            );
            &&& packets.len() == waiting.len()
            &&& forall|k: int|
                0 <= k < waiting.len() ==> (#[trigger] packets[k]).to == waiting[k].addr
                    && packets[k].wire == packet_of(
                    s.ctx,
                    PacketHeader {
                        pkt_type: 9,
                        peer_id: s.mgr.local_id,
                        seq_num: 0,
                        counter: (s.ctx.send_counter + k) as u32,
                    },
                    key_exchange::x25519_public(s.secret),
                )
            &&& t.ctx.send_counter == s.ctx.send_counter + waiting.len()
            &&& t.mgr.peers.len() == s.mgr.peers.len()
            &&& forall|i: int|
                0 <= i < s.mgr.peers.len() ==> (#[trigger] t.mgr.peers[i]) == (PeerView {
                    kx_sent: s.mgr.peers[i].kx_sent || s.mgr.peers[i].state
                        == PeerState::Connected,
                    ..s.mgr.peers[i]
                })
        }),
{
    let step = SessionView::offer_step();
    let chosen = |p: PeerView| p.state == PeerState::Connected && !p.kx_sent;
    let payload = |p: PeerView| key_exchange::x25519_public(s.secret);
    let change = |p: PeerView| PeerView { kx_sent: true, ..p };
    let n = s.mgr.peers.len();
    lemma_broadcast(s, n, step, chosen, 9, payload, change);
    assert(s.mgr.peers.take(n as int) =~= s.mgr.peers);
}

/// The peer after an audio packet was made for it, if it is connected.
spec fn after_audio(p: PeerView) -> PeerView {
    if p.state == PeerState::Connected {
        PeerView {
            send_seq: ((p.send_seq + 1) % 0x1_0000) as u16,
            peer_crypto: if p.kx_sent && p.kx_received && p.peer_crypto is Some {
                Some(p.peer_crypto->0.next_counter().0)
            } else {
                p.peer_crypto
            },
            ..p
        }
    } else {
        p
    }
}

/// That a packet carries an encoded frame to a peer: at its address, with our id and the peer's
/// next sequence number, under the key of the pair exactly if both public keys were exchanged and
/// the key is known.
pub open spec fn carries_audio_to(
    s: SessionView,
    out: OutgoingView,
    p: PeerView,
    opus: Seq<u8>,
) -> bool {
    let header = packet::header_of(out.wire);
    &&& out.to == p.addr
    &&& header.pkt_type == 1
    &&& header.peer_id == s.mgr.local_id
    &&& header.seq_num == p.send_seq
    &&& if p.kx_sent && p.kx_received && p.peer_crypto is Some {
        out.wire == packet_of(p.peer_crypto->0, header, opus) && header.counter
            == p.peer_crypto->0.send_counter
    } else {
        out.wire == packet_of(s.ctx, header, opus) && header.counter >= s.ctx.send_counter
    }
}

proof fn lemma_audio(s: SessionView, opus: Seq<u8>, n: nat)
    requires
        n <= s.mgr.peers.len(),
        opus.len() <= MAX_PLAINTEXT_LEN,
        s.ctx.send_counter + s.mgr.peers.len() <= u32::MAX,
        forall|i: int|
            0 <= i < s.mgr.peers.len() && (#[trigger] s.mgr.peers[i]).peer_crypto is Some
                ==> s.mgr.peers[i].peer_crypto->0.send_counter < u32::MAX,
    ensures
        ({
            let (t, packets) = outgoing::for_peers(s, n, SessionView::audio_step(opus));
            let some = s.mgr.peers.take(n as int).filter(is_connected());
            &&& packets.len() == some.len()
            &&& forall|k: int|
                0 <= k < some.len() ==> carries_audio_to(s, #[trigger] packets[k], some[k], opus)
            &&& t == (SessionView {
                ctx: t.ctx,
                mgr: ManagerView { peers: t.mgr.peers, ..s.mgr },
                ..s
            })
            &&& t.ctx.same_key(s.ctx)
            &&& s.ctx.send_counter <= t.ctx.send_counter <= s.ctx.send_counter + n
            &&& t.mgr.peers.len() == s.mgr.peers.len()
            &&& forall|i: int|
                0 <= i < s.mgr.peers.len() ==> (#[trigger] t.mgr.peers[i]) == (if i < n {
                    after_audio(s.mgr.peers[i])
                } else {
                    s.mgr.peers[i]
                })
        }),
    decreases n,
{
    let peers = s.mgr.peers;
    let step = SessionView::audio_step(opus);
    if n == 0 {
        reveal(Seq::filter);
        assert(peers.take(0).filter(is_connected()) =~= Seq::<PeerView>::empty());
    } else {
        let m = n - 1;
        lemma_audio(s, opus, m as nat);
        lemma_chosen_push(peers, is_connected(), m);
        let (before, packets) = outgoing::for_peers(s, m as nat, step);
        let some = peers.take(m).filter(is_connected());
        let p = peers[m];
        assert(before.mgr.peers[m] == p);
        let (after, packet) = step(before, m);
        assert(step(before, m) == before.audio_at(m, opus));
        if p.state == PeerState::Connected {
            let ctx = before.audio_context(m);
            let header = PacketHeader {
                pkt_type: 1,
                peer_id: s.mgr.local_id,
                seq_num: p.send_seq,
                counter: ctx.send_counter,
            };
            law_header_is_read(ctx, header, opus);
            let last = packet->0;
            assert(last.wire == packet_of(ctx, header, opus));
            assert(carries_audio_to(s, last, p, opus));
        }
    }
}

/// An encoded frame goes to every connected peer once, at its address and under the key that is
/// in use with it, and to no one else. The sequence number of every connected peer goes on by one,
/// whichever key is in use, and nothing else of a peer is changed but the counter of the pair.
pub proof fn law_audio_goes_out_numbered(s: SessionView, opus: Seq<u8>)
    requires
        opus.len() <= 0x3f_ffff_ff80,
        s.ctx.send_counter + s.mgr.peers.len() <= u32::MAX,
        forall|i: int|
            0 <= i < s.mgr.peers.len() && (#[trigger] s.mgr.peers[i]).peer_crypto is Some
                ==> s.mgr.peers[i].peer_crypto->0.send_counter < u32::MAX,
    ensures
        ({
            let (t, packets) = s.send_audio(opus);
            let connected = s.mgr.peers.filter(|p: PeerView| p.state == PeerState::Connected);
            &&& packets.len() == connected.len()
            &&& forall|k: int|
                0 <= k < connected.len() ==> carries_audio_to(
                    s,
                    #[trigger] packets[k],
                    connected[k],
                    opus,
                )
            &&& t.mgr.peers.len() == s.mgr.peers.len()
            &&& forall|i: int|
                0 <= i < s.mgr.peers.len() ==> {
                    let p = s.mgr.peers[i];
                    let q = #[trigger] t.mgr.peers[i];
                    &&& q == (PeerView {
                        send_seq: q.send_seq,
                        peer_crypto: q.peer_crypto,
                        ..p
                    })
                    &&& p.state == PeerState::Connected ==> q.send_seq == (p.send_seq + 1)
                        % 0x1_0000
                    &&& p.state != PeerState::Connected ==> q == p
                    &&& q.peer_crypto is Some == p.peer_crypto is Some
                    &&& q.peer_crypto is Some ==> q.peer_crypto->0.same_key(p.peer_crypto->0)
                        && q.peer_crypto->0.send_counter <= p.peer_crypto->0.send_counter + 1
                }
            &&& t.ctx.same_key(s.ctx)
            &&& t.mgr.local_id == s.mgr.local_id
        }),
{
    lemma_audio(s, opus, s.mgr.peers.len());
    assert(s.mgr.peers.take(s.mgr.peers.len() as int) =~= s.mgr.peers);
    assert((|p: PeerView| p.state == PeerState::Connected) =~= is_connected());
}

/// The sequence number of a peer goes on even where no packet can be made, so that the receiver
/// takes the frame for lost.
pub proof fn law_sequence_numbers_always_go_on(s: SessionView, i: int, opus: Seq<u8>)
    requires
        0 <= i < s.mgr.peers.len(),
        s.mgr.peers[i].state == PeerState::Connected,
    ensures
        s.send_audio(opus).0.mgr.peers.len() == s.mgr.peers.len(),
        s.send_audio(opus).0.mgr.peers[i].send_seq == (s.mgr.peers[i].send_seq + 1) % 0x1_0000,
{
    lemma_sequence_number(s, s.mgr.peers.len(), i, opus);
}

proof fn lemma_sequence_number(s: SessionView, n: nat, i: int, opus: Seq<u8>)
    requires
        n <= s.mgr.peers.len(),
        0 <= i < s.mgr.peers.len(),
        s.mgr.peers[i].state == PeerState::Connected,
    ensures
        ({
            let t = outgoing::for_peers(s, n, SessionView::audio_step(opus)).0;
            &&& t.mgr.peers.len() == s.mgr.peers.len()
            &&& t.mgr.peers[i].state == PeerState::Connected
            &&& t.mgr.peers[i].addr == s.mgr.peers[i].addr
            &&& t.mgr.peers[i].send_seq == (if i < n {
                (s.mgr.peers[i].send_seq + 1) % 0x1_0000
            } else {
                s.mgr.peers[i].send_seq as int
            })
        }),
    decreases n,
{
    if n > 0 {
        lemma_sequence_number(s, (n - 1) as nat, i, opus);
        let before = outgoing::for_peers(s, (n - 1) as nat, SessionView::audio_step(opus)).0;
        assert(SessionView::audio_step(opus)(before, n - 1) == before.audio_at(n - 1, opus));
    }
}

/// The state after some frames were sent, one after the other.
pub open spec fn after_frames(s: SessionView, frames: Seq<Seq<u8>>) -> SessionView
    decreases frames.len(),
{
    if frames.len() == 0 {
        s
    } else {
        after_frames(s, frames.drop_last()).send_audio(frames.last()).0
    }
}

/// Of the audio packets to one peer, each has the sequence number after that of the one before,
/// whichever keys they are encrypted under: after `n` frames the number has gone on by `n`.
pub proof fn law_frames_are_numbered_in_a_row(s: SessionView, i: int, frames: Seq<Seq<u8>>)
    requires
        0 <= i < s.mgr.peers.len(),
        s.mgr.peers[i].state == PeerState::Connected,
    ensures
        after_frames(s, frames).mgr.peers.len() == s.mgr.peers.len(),
        after_frames(s, frames).mgr.peers[i].state == PeerState::Connected,
        after_frames(s, frames).mgr.peers[i].addr == s.mgr.peers[i].addr,
        after_frames(s, frames).mgr.peers[i].send_seq == (s.mgr.peers[i].send_seq + frames.len())
            % 0x1_0000,
    decreases frames.len(),
{
    if frames.len() > 0 {
        law_frames_are_numbered_in_a_row(s, i, frames.drop_last());
        let t = after_frames(s, frames.drop_last());
        lemma_sequence_number(t, t.mgr.peers.len(), i, frames.last());
    }
}

/// The sequence numbers of the audio packets to the peer at a place, when some frames are sent.
pub open spec fn numbers_sent(s: SessionView, i: int, frames: Seq<Seq<u8>>) -> Seq<u16> {
    Seq::new(
        frames.len(),
        |k: int| after_frames(s, frames.take(k)).mgr.peers[i].send_seq,
    )
}

/// The frames that a buffer gives when frames with some numbers come and are asked for in turn.
pub open spec fn played(
    buffer: jitter::JitterView,
    numbers: Seq<u16>,
    pcms: Seq<Seq<i16>>,
) -> Seq<Option<Seq<i16>>>
    decreases numbers.len(),
{
    if numbers.len() == 0 {
        Seq::empty()
    } else {
        let (after, frame) = buffer.push(numbers[0], pcms[0]).pop();
        seq![frame] + played(after, numbers.drop_first(), pcms.drop_first())
    }
}

/// Frames that are sent, arrive and are delivered in order are all played: a fresh buffer that gets
/// the decoded frames under the numbers that were sent gives every one of them.
pub proof fn law_what_is_sent_in_order_is_all_played(
    s: SessionView,
    i: int,
    frames: Seq<Seq<u8>>,
    pcms: Seq<Seq<i16>>,
)
    requires
        0 <= i < s.mgr.peers.len(),
        s.mgr.peers[i].state == PeerState::Connected,
        pcms.len() == frames.len(),
    ensures
        played(jitter::JitterView::new(), numbers_sent(s, i, frames), pcms) == pcms.map_values(
            |pcm: Seq<i16>| Some(pcm),
        ),
{
    let numbers = numbers_sent(s, i, frames);
    let start = s.mgr.peers[i].send_seq;
    assert forall|k: int| 0 <= k < numbers.len() implies #[trigger] numbers[k] == (start + k)
        % 0x1_0000 by {
        law_frames_are_numbered_in_a_row(s, i, frames.take(k));
    }
    lemma_consecutive(jitter::JitterView::new(), start, numbers, pcms);
    jitter::law_consecutive_frames_are_all_played(jitter::JitterView::new(), start, pcms);
}

proof fn lemma_consecutive(
    buffer: jitter::JitterView,
    start: u16,
    numbers: Seq<u16>,
    pcms: Seq<Seq<i16>>,
)
    requires
        numbers.len() == pcms.len(),
        forall|k: int| 0 <= k < numbers.len() ==> #[trigger] numbers[k] == (start + k) % 0x1_0000,
    ensures
        played(buffer, numbers, pcms) == jitter::played_in_turn(buffer, start, pcms),
    decreases numbers.len(),
{
    if numbers.len() > 0 {
        assert(numbers[0] == start);
        let next = ((start + 1) % 0x1_0000) as u16;
        let after = buffer.push(start, pcms[0]).pop().0;
        let rest = numbers.drop_first();
        assert forall|k: int| 0 <= k < rest.len() implies #[trigger] rest[k] == (next + k)
            % 0x1_0000 by {
            assert(rest[k] == numbers[k + 1]);
        }
        lemma_consecutive(after, next, rest, pcms.drop_first());
    }
}

/// Of every connected peer one frame is played, namely what its jitter buffer gives, and of no
/// other; only their buffers change, each by one request.
pub proof fn law_every_connected_peer_is_played(s: SessionView)
    ensures
        ({
            let frames = outgoing::playout_frames(s.mgr.peers);
            let connected = s.mgr.peers.filter(|p: PeerView| p.state == PeerState::Connected);
            let t = s.after_playout();
            &&& frames.len() == connected.len()
            &&& forall|k: int|
                0 <= k < connected.len() ==> (#[trigger] frames[k]) == (
                    connected[k].id,
                    connected[k].jitter.pop().1,
                )
            &&& t.mgr.peers.len() == s.mgr.peers.len()
            &&& forall|i: int|
                0 <= i < s.mgr.peers.len() ==> {
                    let p = s.mgr.peers[i];
                    let q = #[trigger] t.mgr.peers[i];
                    &&& q == (PeerView { jitter: q.jitter, ..p })
                    &&& p.state == PeerState::Connected ==> q.jitter == p.jitter.pop().0
                    &&& p.state != PeerState::Connected ==> q == p
                }
            &&& t == (SessionView { mgr: ManagerView { peers: t.mgr.peers, ..s.mgr }, ..s })
        }),
{
    lemma_playout(s.mgr.peers);
    assert((|p: PeerView| p.state == PeerState::Connected) =~= is_connected());
}

proof fn lemma_playout(peers: Seq<PeerView>)
    ensures
        outgoing::playout_frames(peers).len() == peers.filter(is_connected()).len(),
        forall|k: int|
            0 <= k < peers.filter(is_connected()).len() ==> (#[trigger] outgoing::playout_frames(
                peers,
            )[k]) == (
                peers.filter(is_connected())[k].id,
                peers.filter(is_connected())[k].jitter.pop().1,
            ),
    decreases peers.len(),
{
    reveal(Seq::filter);
    if peers.len() > 0 {
        lemma_playout(peers.drop_last());
    }
}

/// The jitter buffer of every peer, connected or not, is adapted to the time that has passed, and
/// nothing else is changed.
pub proof fn law_every_buffer_is_adapted(s: SessionView, elapsed_ns: u64, i: int)
    requires
        0 <= i < s.mgr.peers.len(),
    ensures
        s.adapt(elapsed_ns).mgr.peers.len() == s.mgr.peers.len(),
        s.adapt(elapsed_ns).mgr.peers[i] == (PeerView {
            jitter: s.mgr.peers[i].jitter.adapt(elapsed_ns),
            ..s.mgr.peers[i]
        }),
        s.adapt(elapsed_ns).ctx == s.ctx,
{
}

/// A timer is due when its interval has passed since it was last restarted, and is restarted at
/// the time that is given.
pub proof fn law_timer_is_due_after_its_interval(timer: Timer, now_ns: u64)
    ensures
        now_ns >= timer.last_ns ==> timer.due(now_ns) == (now_ns - timer.last_ns
            >= timer.interval_ns),
        now_ns >= timer.last_ns ==> timer.spec_elapsed(now_ns) == now_ns - timer.last_ns,
        timer.restarted(now_ns).last_ns == now_ns,
        timer.restarted(now_ns).interval_ns == timer.interval_ns,
{
}

/// What is sent from time to time: keepalives when it is time for these, then pings and offers of
/// our public key when it is time for pings, and nothing at other times. Each timer is restarted
/// exactly when its time has come.
pub proof fn law_what_is_due_is_sent(s: SessionView, timers: Timers, now_ns: u64)
    requires
        timers.keepalive.last_ns <= now_ns,
        timers.ping.last_ns <= now_ns,
        timers.adapt.last_ns <= now_ns,
    ensures
        ({
            let keepalive_due = now_ns - timers.keepalive.last_ns >= timers.keepalive.interval_ns;
            let ping_due = now_ns - timers.ping.last_ns >= timers.ping.interval_ns;
            let adapt_due = now_ns - timers.adapt.last_ns >= timers.adapt.interval_ns;
            let (t, later, packets) = s.tick(timers, now_ns);
            let (s1, alive) = s.keepalives(now_ns);
            let s0 = if keepalive_due {
                s1
            } else {
                s
            };
            let first = if keepalive_due {
                alive.len()
            } else {
                0
            };
            let (s2, pings) = s0.pings(now_ns);
            let (s3, offers) = s2.offer_keys();
            let reached = if ping_due {
                s3
            } else {
                s0
            };
            &&& keepalive_due ==> packets.take(first as int) == alive
            &&& ping_due ==> packets.skip(first as int) == pings + offers
            &&& !ping_due ==> packets.len() == first
            &&& !adapt_due ==> t == reached
            &&& adapt_due ==> t == reached.adapt((now_ns - timers.adapt.last_ns) as u64)
            &&& later.keepalive.last_ns == (if keepalive_due {
                now_ns
            } else {
                timers.keepalive.last_ns
            })
            &&& later.ping.last_ns == (if ping_due {
                now_ns
            } else {
                timers.ping.last_ns
            })
            &&& later.adapt.last_ns == (if adapt_due {
                now_ns
            } else {
                timers.adapt.last_ns
            })
            &&& later.keepalive.interval_ns == timers.keepalive.interval_ns
            &&& later.ping.interval_ns == timers.ping.interval_ns
            &&& later.adapt.interval_ns == timers.adapt.interval_ns
            &&& later.display == timers.display
        }),
{
    let (t, later, packets) = s.tick(timers, now_ns);
    let (s1, alive) = s.keepalives(now_ns);
    let keepalive_due = timers.keepalive.due(now_ns);
    let (s0, first) = if keepalive_due {
        (s1, alive)
    } else {
        (s, Seq::empty())
    };
    let (s2, pings) = s0.pings(now_ns);
    let (s3, offers) = s2.offer_keys();
    if timers.ping.due(now_ns) {
        assert(packets =~= first + pings + offers);
        assert(packets.take(first.len() as int) =~= first);
        assert(packets.skip(first.len() as int) =~= pings + offers);
    } else {
        assert(packets =~= first);
        assert(packets.take(first.len() as int) =~= first);
    }
}

/// Keepalives go out every second, pings every two seconds, the jitter buffers are adapted twice a
/// second, and what is displayed is updated four times a second.
pub proof fn law_intervals()
    ensures
        outgoing::KEEPALIVE_INTERVAL_NS == 1_000_000_000,
        outgoing::PING_INTERVAL_NS == 2_000_000_000,
        outgoing::ADAPT_INTERVAL_NS == 500_000_000,
        outgoing::DISPLAY_INTERVAL_NS == 250_000_000,
{
}

/// The packets that are handed over are those of the step, one for one, with address and bytes.
pub proof fn law_packets_one_for_one(packets: Seq<Outgoing>, k: int)
    requires
        0 <= k < packets.len(),
    ensures
        outgoing::packets_view(packets).len() == packets.len(),
        outgoing::packets_view(packets)[k].to == packets[k].to,
        outgoing::packets_view(packets)[k].wire == packets[k].wire@,
{
}

/// What is displayed are all peers, connected or not, each as it is.
pub proof fn law_every_peer_is_displayed(s: &SessionState, info: Vec<PeerDisplayInfo>, i: int)
    requires
        call_ensures(SessionState::peer_info, (s,), info),
        0 <= i < s@.mgr.peers.len(),
    ensures
        info@.len() == s@.mgr.peers.len(),
        info@[i].id == s@.mgr.peers[i].id,
        info@[i].addr == s@.mgr.peers[i].addr,
        info@[i].state == s@.mgr.peers[i].state,
        info@[i].latency == s@.mgr.peers[i].latency.stats,
        info@[i].key_exchange_done == (s@.mgr.peers[i].kx_sent && s@.mgr.peers[i].kx_received),
{
}

/// Audio is shown as protected by a key of the pair exactly if keys were exchanged.
pub proof fn law_protection_is_shown(info: &PeerDisplayInfo, label: &'static str)
    requires
        call_ensures(PeerDisplayInfo::security_label, (info,), label),
    ensures
        info.key_exchange_done ==> label@ == "PFS"@,
        !info.key_exchange_done ==> label@ == "PSK"@,
{
}

/// What is displayed of a peer is its own: its id, address, state and round-trip times, and that
/// keys were exchanged once ours was sent and the peer's has come.
pub proof fn law_display_shows_the_peer(p: PeerView)
    ensures
        outgoing::display_info(p).id == p.id,
        outgoing::display_info(p).addr == p.addr,
        outgoing::display_info(p).state == p.state,
        outgoing::display_info(p).latency == p.latency.stats,
        outgoing::display_info(p).key_exchange_done == (p.kx_sent && p.kx_received),
{
}

} // verus!
