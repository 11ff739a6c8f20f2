//! What the handshake and the exchange of keys lead to.
use vstd::prelude::*;

use crate::addr;
use crate::addr::{PeerAddr, PeerIp};
use crate::error::VoiceError;
use crate::events;
use crate::key_exchange;
use crate::net;
use crate::net::{
    JoinPayload, PacketHeader, PKT_HELLO, PKT_HELLO_ACK, PKT_JOIN, PKT_PEER_LIST,
};
use crate::packet;
use crate::peer;
use crate::peer::{PeerState, PeerView, MAX_PEERS};
use crate::session;
use crate::session::{OutgoingView, ReactionView, SessionView};

verus! {

proof fn lemma_max_id_below(peers: Seq<(u8, PeerAddr)>, id: u8)
    requires
        peers.len() > 0,
        forall|i: int| 0 <= i < peers.len() ==> (#[trigger] peers[i]).0 < id,
    ensures
        session::max_id(peers) < id,
    decreases peers.len(),
{
    if peers.len() > 1 {
        assert forall|i: int| 0 <= i < peers.drop_last().len() implies (
        #[trigger] peers.drop_last()[i]).0 < id by {
            assert(peers.drop_last()[i] == peers[i]);
        }
        lemma_max_id_below(peers.drop_last(), id);
        assert(peers.last() == peers[peers.len() - 1]);
    }
}

proof fn lemma_sender_is_greeted_first(
    peers: Seq<(u8, PeerAddr)>,
    my_id: u8,
    sender_id: u8,
    src: PeerAddr,
)
    requires
        peers.len() > 0,
        peers[0].0 == sender_id,
        sender_id != my_id,
    ensures
        session::to_greet(peers, my_id, sender_id, src).len() > 0,
        session::to_greet(peers, my_id, sender_id, src)[0] == (sender_id, src),
    decreases peers.len(),
{
    if peers.len() == 1 {
        assert(peers.drop_last() =~= Seq::<(u8, PeerAddr)>::empty());
        assert(session::to_greet(peers.drop_last(), my_id, sender_id, src) =~= Seq::<
            (u8, PeerAddr),
        >::empty());
    } else {
        assert(peers.drop_last()[0] == peers[0]);
        lemma_sender_is_greeted_first(peers.drop_last(), my_id, sender_id, src);
    }
}

/// Everyone in a list of peers but ourselves is greeted, at the listed address, or if it sent the
/// list at the address that it sent from.
pub proof fn law_everyone_is_greeted(
    peers: Seq<(u8, PeerAddr)>,
    my_id: u8,
    sender_id: u8,
    src: PeerAddr,
    i: int,
)
    requires
        0 <= i < peers.len(),
        peers[i].0 != my_id,
    ensures
        session::to_greet(peers, my_id, sender_id, src).contains(
            (
                peers[i].0,
                if peers[i].0 == sender_id {
                    src
                } else {
                    peers[i].1
                },
            ),
        ),
    decreases peers.len(),
{
    let all = session::to_greet(peers, my_id, sender_id, src);
    let before = session::to_greet(peers.drop_last(), my_id, sender_id, src);
    if i == peers.len() - 1 {
        assert(all[all.len() - 1] == (
            peers[i].0,
            if peers[i].0 == sender_id {
                src
            } else {
                peers[i].1
            },
        ));
    } else {
        assert(peers.drop_last()[i] == peers[i]);
        law_everyone_is_greeted(peers.drop_last(), my_id, sender_id, src, i);
        let x = (
            peers[i].0,
            if peers[i].0 == sender_id {
                src
            } else {
                peers[i].1
            },
        );
        let k = choose|k: int| 0 <= k < before.len() && before[k] == x;
        assert(all[k] == x);
    }
}

/// That a packet is of a type and from a node, and that everyone with a key and a session id reads a
/// payload in it.
pub open spec fn carries(
    wire: Seq<u8>,
    key: Seq<u8>,
    session_id: Seq<u8>,
    pkt_type: u8,
    sender_id: u8,
    payload: Seq<u8>,
) -> bool {
    &&& packet::reads_as(wire, key, session_id, packet::header_of(wire), payload)
    &&& packet::header_of(wire).pkt_type == pkt_type
    &&& packet::header_of(wire).peer_id == sender_id
}

/// Whether a host can let another peer in: it has an id and room, its peers are those that it gave
/// ids to, and all addresses can be written down.
pub open spec fn can_admit(host: SessionView) -> bool {
    &&& host.wf()
    &&& host.mgr.is_host
    &&& host.mgr.local_id < host.mgr.next_peer_id < MAX_PEERS
    &&& host.mgr.peers.len() < MAX_PEERS - 1
    &&& forall|i: int|
        0 <= i < host.mgr.peers.len() ==> (#[trigger] host.mgr.peers[i]).id < host.mgr.next_peer_id
            && net::plain_addr(host.mgr.peers[i].addr)
}

/// The first half of the handshake: the host answers a JOIN with the list of peers, from which the
/// joining node learns its id and the session, and that it is to greet the host first.
pub proof fn law_join_is_admitted(
    host: SessionView,
    joiner: SessionView,
    listen_port: u16,
    join: Seq<u8>,
    joiner_src: PeerAddr,
    local: PeerAddr,
    routable: Option<PeerIp>,
    list: Seq<u8>,
    host_src: PeerAddr,
    join_ns: u64,
    list_ns: u64,
)
    requires
        can_admit(host),
        joiner.key == host.key,
        net::plain_addr(joiner_src),
        addr::spec_reachable_addr(local, routable) matches Some(here) && net::plain_addr(here),
        carries(
            join,
            host.key,
            session::no_session(),
            PKT_JOIN,
            0,
            JoinPayload { listen_port }.spec_to_bytes(),
        ),
        carries(
            list,
            host.key,
            session::no_session(),
            PKT_PEER_LIST,
            host.mgr.local_id,
            host.handle_incoming(join, joiner_src, join_ns).0.mgr.peer_list(
                addr::spec_reachable_addr(local, routable)->0,
            ).to_bytes(),
        ),
    ensures
        ({
            let id = host.mgr.next_peer_id;
            let (h, admitted) = host.handle_incoming(join, joiner_src, join_ns);
            let (j, listed) = joiner.handle_incoming(list, host_src, list_ns);
            &&& admitted == Ok::<ReactionView, VoiceError>(
                ReactionView::Welcome { to: joiner_src },
            )
            &&& h.mgr.has(id)
            &&& h.mgr.get(id).state == PeerState::Connected
            &&& h.mgr.get(id).addr == joiner_src
            &&& h.mgr.session_id == host.mgr.session_id
            &&& h.mgr.local_id == host.mgr.local_id
            &&& listed matches Ok(ReactionView::Greet { peers })
            &&& peers.len() > 0
            &&& peers[0] == (host.mgr.local_id, host_src)
            &&& j.mgr.local_id == id
            &&& j.mgr.session_id == host.mgr.session_id
            &&& h.ctx == host.ctx
            &&& j.ctx == joiner.ctx.rekey(host.key, host.mgr.session_id)
            &&& j.mgr.peers == joiner.mgr.peers
            &&& j.key == joiner.key
        }),
{
    let id = host.mgr.next_peer_id;
    let here = addr::spec_reachable_addr(local, routable)->0;
    let payload = JoinPayload { listen_port }.spec_to_bytes();
    net::law_join_roundtrip(JoinPayload { listen_port });
    assert(packet::opened(host.lobby(), join) == Ok::<Seq<u8>, VoiceError>(payload));
    let allocated = host.mgr.allocate_peer_id().0;
    let added = allocated.add_peer(id, joiner_src, join_ns).0;
    peer::lemma_index(allocated, id);
    assert(!allocated.has(id));
    assert forall|i: int| 0 <= i < host.mgr.peers.len() implies (#[trigger] added.peers[i]).id
        != id by {
        assert(added.peers[i] == host.mgr.peers[i]);
    }
    peer::lemma_index_is(added, id, host.mgr.peers.len() as int);
    events::lemma_kept_packet(host, join, joiner_src, join_ns);
    let h = host.handle_incoming(join, joiner_src, join_ns).0;
    let p = PeerView::new(id, joiner_src, join_ns).connect(join_ns);
    assert(h.mgr.peers =~= host.mgr.peers.push(p));
    assert forall|i: int| 0 <= i < host.mgr.peers.len() implies (#[trigger] h.mgr.peers[i]).id
        != id by {
        assert(h.mgr.peers[i] == host.mgr.peers[i]);
    }
    peer::lemma_index_is(h.mgr, id, host.mgr.peers.len() as int);
    let view = h.mgr.peer_list(here);
    assert forall|i: int| 0 <= i < h.mgr.peers.len() implies net::plain_addr(
        (#[trigger] h.mgr.peers[i]).addr,
    ) by {
        if i < host.mgr.peers.len() {
            assert(h.mgr.peers[i] == host.mgr.peers[i]);
        }
    }
    peer::law_peer_list_is_readable(h.mgr, here);
    assert(packet::opened(joiner.lobby(), list) == Ok::<Seq<u8>, VoiceError>(view.to_bytes()));
    assert forall|i: int| 0 <= i < view.peers.drop_last().len() implies (
    #[trigger] view.peers.drop_last()[i]).0 < id by {
        assert(view.peers.drop_last()[i] == view.peers[i]);
        if i > 0 {
            assert(view.peers[i] == peer::contact(h.mgr.peers[i - 1]));
            assert(h.mgr.peers[i - 1] == host.mgr.peers[i - 1]);
        }
    }
    assert(view.peers.last() == peer::contact(p));
    lemma_max_id_below(view.peers.drop_last(), id);
    assert(session::max_id(view.peers) == id);
    lemma_sender_is_greeted_first(view.peers, id, host.mgr.local_id, host_src);
}

/// The second half of the handshake, between any two nodes of a session: one greets the other, and
/// after the greeting and its answer have arrived each has the other as connected.
pub proof fn law_greeting_connects_both(
    a: SessionView,
    b: SessionView,
    a_id: u8,
    b_id: u8,
    a_src: PeerAddr,
    b_src: PeerAddr,
    hello: Seq<u8>,
    ack: Seq<u8>,
    greet_ns: u64,
    hello_ns: u64,
    ack_ns: u64,
)
    requires
        a.ctx.same_key(b.ctx),
        a.mgr.local_id == a_id,
        b.mgr.local_id == b_id,
        a_id != b_id,
        a.mgr.has(b_id) || a.mgr.peers.len() < MAX_PEERS - 1,
        b.mgr.has(a_id) || b.mgr.peers.len() < MAX_PEERS - 1,
        a.ctx.send_counter < u32::MAX,
        b.ctx.send_counter < u32::MAX,
        carries(hello, a.ctx.key, a.ctx.session_id, PKT_HELLO, a_id, Seq::empty()),
        carries(ack, b.ctx.key, b.ctx.session_id, PKT_HELLO_ACK, b_id, Seq::empty()),
        packet::sealed(
            b.ctx,
            PacketHeader::spec_new(PKT_HELLO_ACK, b_id, 0, b.ctx.send_counter),
            Seq::empty(),
        ) == Ok::<Seq<u8>, VoiceError>(ack),
    ensures
        ({
            let a1 = a.greet(b_id, b_src, greet_ns).0.hello_sent(b_id);
            let (b2, answered) = b.handle_incoming(hello, a_src, hello_ns);
            let (a2, done) = a1.handle_incoming(ack, b_src, ack_ns);
            &&& a.greet(b_id, b_src, greet_ns).1 is Ok
            &&& a1.mgr.has(b_id)
            &&& a1.mgr.get(b_id).state == PeerState::HelloSent
            &&& a1.mgr.get(b_id).addr == b_src
            &&& answered == Ok::<ReactionView, VoiceError>(
                ReactionView::Reply(OutgoingView { to: a_src, wire: ack }),
            )
            &&& b2.mgr.has(a_id)
            &&& b2.mgr.get(a_id).state == PeerState::Connected
            &&& done == Ok::<ReactionView, VoiceError>(ReactionView::Quiet)
            &&& a2.mgr.has(b_id)
            &&& a2.mgr.get(b_id).state == PeerState::Connected
        }),
{
    let added = a.mgr.add_peer(b_id, b_src, greet_ns).0;
    peer::lemma_index(a.mgr, b_id);
    peer::lemma_added_is_there(a.mgr, b_id, b_src, greet_ns);
    let a0 = a.greet(b_id, b_src, greet_ns).0;
    assert(a0.mgr == added);
    let sent = PeerView { state: PeerState::HelloSent, ..added.get(b_id) };
    peer::lemma_set_is_there(added, b_id, sent);
    let a1 = a0.hello_sent(b_id);
    assert(packet::opened(a1.ctx, ack) == Ok::<Seq<u8>, VoiceError>(Seq::empty()));
    peer::lemma_set_is_there(a1.mgr, b_id, a1.mgr.get(b_id).connect(ack_ns));
    assert(packet::opened(b.ctx, hello) == Ok::<Seq<u8>, VoiceError>(Seq::empty()));
    peer::lemma_index(b.mgr, a_id);
    let b1 = if b.mgr.has(a_id) {
        b
    } else {
        peer::lemma_added_is_there(b.mgr, a_id, a_src, hello_ns);
        SessionView { mgr: b.mgr.add_peer(a_id, a_src, hello_ns).0, ..b }
    };
    peer::lemma_set_is_there(b1.mgr, a_id, b1.mgr.get(a_id).connect(hello_ns));
}

/// The handshake: a node that knows the passphrase joins a host that can let it in. After JOIN,
/// PEER_LIST, HELLO and HELLO_ACK have arrived, each has the other as connected, under the id that
/// the host gave out, and both have the same context, so that each reads what the other sends.
pub proof fn law_handshake_connects(
    host: SessionView,
    joiner: SessionView,
    listen_port: u16,
    join: Seq<u8>,
    joiner_src: PeerAddr,
    local: PeerAddr,
    routable: Option<PeerIp>,
    list: Seq<u8>,
    hello: Seq<u8>,
    ack: Seq<u8>,
    host_src: PeerAddr,
    times: (u64, u64, u64, u64, u64),
)
    requires
        can_admit(host),
        joiner.key == host.key,
        joiner.mgr.peers.len() == 0,
        net::plain_addr(joiner_src),
        addr::spec_reachable_addr(local, routable) matches Some(here) && net::plain_addr(here),
        carries(
            join,
            host.key,
            session::no_session(),
            PKT_JOIN,
            0,
            JoinPayload { listen_port }.spec_to_bytes(),
        ),
        carries(
            list,
            host.key,
            session::no_session(),
            PKT_PEER_LIST,
            host.mgr.local_id,
            host.handle_incoming(join, joiner_src, times.0).0.mgr.peer_list(
                addr::spec_reachable_addr(local, routable)->0,
            ).to_bytes(),
        ),
        carries(
            hello,
            host.key,
            host.mgr.session_id,
            PKT_HELLO,
            host.mgr.next_peer_id,
            Seq::empty(),
        ),
        carries(
            ack,
            host.key,
            host.mgr.session_id,
            PKT_HELLO_ACK,
            host.mgr.local_id,
            Seq::empty(),
        ),
        host.ctx.send_counter + 1 < u32::MAX,
        joiner.ctx.send_counter < u32::MAX,
        packet::sealed(
            host.ctx,
            PacketHeader::spec_new(
                PKT_HELLO_ACK,
                host.mgr.local_id,
                0,
                (host.ctx.send_counter + 1) as u32,
            ),
            Seq::empty(),
        ) == Ok::<Seq<u8>, VoiceError>(ack),
    ensures
        ({
            let host_id = host.mgr.local_id;
            let id = host.mgr.next_peer_id;
            let h1 = host.handle_incoming(join, joiner_src, times.0).0.welcome(
                joiner_src,
                local,
                routable,
            ).0;
            let j1 = joiner.handle_incoming(list, host_src, times.1).0;
            let j2 = j1.greet(host_id, host_src, times.2).0.hello_sent(host_id);
            let h2 = h1.handle_incoming(hello, joiner_src, times.3).0;
            let j3 = j2.handle_incoming(ack, host_src, times.4).0;
            &&& h2.mgr.has(id)
            &&& h2.mgr.get(id).state == PeerState::Connected
            &&& j3.mgr.local_id == id
            &&& j3.mgr.has(host_id)
            &&& j3.mgr.get(host_id).state == PeerState::Connected
            &&& j3.ctx.same_key(h2.ctx)
        }),
{
    let host_id = host.mgr.local_id;
    let id = host.mgr.next_peer_id;
    law_join_is_admitted(
        host,
        joiner,
        listen_port,
        join,
        joiner_src,
        local,
        routable,
        list,
        host_src,
        times.0,
        times.1,
    );
    let h0 = host.handle_incoming(join, joiner_src, times.0).0;
    let h1 = h0.welcome(joiner_src, local, routable).0;
    assert(h1.mgr == h0.mgr);
    let j1 = joiner.handle_incoming(list, host_src, times.1).0;
    law_greeting_connects_both(
        j1,
        h1,
        id,
        host_id,
        joiner_src,
        host_src,
        hello,
        ack,
        times.2,
        times.3,
        times.4,
    );
    let j2 = j1.greet(host_id, host_src, times.2).0.hello_sent(host_id);
    assert(packet::opened(host.lobby(), join) is Ok);
    assert(packet::opened(j2.ctx, ack) == Ok::<Seq<u8>, VoiceError>(Seq::empty()));
    assert(packet::opened(h1.ctx, hello) == Ok::<Seq<u8>, VoiceError>(Seq::empty()));
}

/// A key that was installed is there.
proof fn lemma_pair_key_is_there(s: SessionView, id: u8, key: Seq<u8>, src: PeerAddr)
    requires
        s.mgr.has(id),
    ensures
        ({
            let p = s.install_peer_key(id, key, src).0.mgr.get(id);
            &&& p.kx_received
            &&& p.peer_crypto matches Some(ctx)
            &&& ctx.key == key
            &&& ctx.session_id == s.mgr.session_id
        }),
{
    peer::lemma_index(s.mgr, id);
    let p = s.with_pair_key(s.mgr.get(id), key);
    peer::lemma_set_is_there(s.mgr, id, p);
    let t = s.set_peer(id, p);
    peer::lemma_set_is_there(t.mgr, id, PeerView { kx_sent: true, ..p });
}

/// After two nodes of a session have got each other's public keys, both have the same key with
/// each other, or neither has one; given that the two derivations come to the same, which taking
/// in a public key promises.
pub proof fn law_both_sides_get_the_same_key(
    a: SessionView,
    b: SessionView,
    a_src: PeerAddr,
    b_src: PeerAddr,
)
    requires
        a.mgr.session_id == b.mgr.session_id,
        a.mgr.has(b.mgr.local_id),
        b.mgr.has(a.mgr.local_id),
        a.has_key_pair(),
        b.has_key_pair(),
        a.keys_agree(key_exchange::x25519_public(b.secret), b.mgr.local_id),
    ensures
        ({
            let (a1, got_b) = a.on_key_exchange(
                key_exchange::x25519_public(b.secret),
                b.mgr.local_id,
                b_src,
            );
            let (b1, got_a) = b.on_key_exchange(
                key_exchange::x25519_public(a.secret),
                a.mgr.local_id,
                a_src,
            );
            let with_b = a1.mgr.get(b.mgr.local_id);
            let with_a = b1.mgr.get(a.mgr.local_id);
            &&& got_a is Ok == got_b is Ok
            &&& got_a is Ok ==> with_b.kx_received && with_a.kx_received
                && with_b.peer_crypto is Some && with_a.peer_crypto is Some
                && with_a.peer_crypto->0.same_key(with_b.peer_crypto->0)
        }),
{
    let pa = key_exchange::x25519_public(a.secret);
    let pb = key_exchange::x25519_public(b.secret);
    assert(pa.subrange(0, 32) =~= pa);
    assert(pb.subrange(0, 32) =~= pb);
    let sid = a.mgr.session_id;
    if let Ok(key) = key_exchange::spec_peer_key(
        a.secret,
        pb,
        sid,
        a.mgr.local_id,
        b.mgr.local_id,
    ) {
        lemma_pair_key_is_there(a, b.mgr.local_id, key, b_src);
        lemma_pair_key_is_there(b, a.mgr.local_id, key, a_src);
    }
}

} // verus!
