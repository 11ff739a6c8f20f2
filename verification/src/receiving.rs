//! Whom and what the packets that come in change, and what is answered to whom.
use vstd::prelude::*;

use crate::addr;
use crate::addr::{PeerAddr, PeerIp};
use crate::bytes;
use crate::crypto::CryptoView;
use crate::error::VoiceError;
use crate::key_exchange;
use crate::latency::PingPayload;
use crate::net;
use crate::net::{PacketHeader, PeerListView};
use crate::packet;
use crate::peer;
use crate::peer::{ManagerView, PeerState, PeerView};
use crate::sending;
use crate::session;
use crate::session::{OutgoingView, Reaction, ReactionView, SessionView};

verus! {

/// The id of a session before there is one: eight zero bytes.
pub open spec fn zeros() -> Seq<u8> {
    seq![0u8, 0, 0, 0, 0, 0, 0, 0]
}

/// That of the peers at most the one at a place is another, and that nothing else of a session is
/// but perhaps its next counter.
pub open spec fn only_peer_changes(s: SessionView, t: SessionView, i: int) -> bool {
    &&& t.mgr.peers.len() == s.mgr.peers.len()
    &&& forall|j: int|
        0 <= j < s.mgr.peers.len() && j != i ==> (#[trigger] t.mgr.peers[j]) == s.mgr.peers[j]
    &&& t == (SessionView {
        ctx: CryptoView { send_counter: t.ctx.send_counter, ..s.ctx },
        mgr: ManagerView { peers: t.mgr.peers, ..s.mgr },
        ..s
    })
}

/// Where ids are distinct, a peer is found under its id.
proof fn lemma_found(mgr: ManagerView, i: int)
    requires
        mgr.wf(),
        0 <= i < mgr.peers.len(),
    ensures
        mgr.index(mgr.peers[i].id) == i,
        mgr.has(mgr.peers[i].id),
        mgr.get(mgr.peers[i].id) == mgr.peers[i],
{
    let id = mgr.peers[i].id;
    assert forall|j: int| 0 <= j < i implies (#[trigger] mgr.peers[j]).id != id by {
        assert(mgr.peers[j].id != mgr.peers[i].id);
    }
    peer::lemma_index_is(mgr, id, i);
}

/// A peer that no one has the id of is not found.
proof fn lemma_not_found(mgr: ManagerView, id: u8)
    requires
        forall|j: int| 0 <= j < mgr.peers.len() ==> (#[trigger] mgr.peers[j]).id != id,
    ensures
        !mgr.has(id),
{
    peer::lemma_index_is(mgr, id, mgr.peers.len() as int);
}

/// A node asks to be let in with a JOIN that tells its port and that everyone with the passphrase
/// reads.
pub proof fn law_join_tells_the_port(s: SessionView, listen_port: u16)
    requires
        s.ctx.send_counter < u32::MAX,
    ensures
        s.join_request(listen_port).1 == Ok::<Seq<u8>, VoiceError>(
            sending::packet_of(
                CryptoView::new(s.key, zeros()),
                PacketHeader {
                    pkt_type: 2,
                    peer_id: 0,
                    seq_num: 0,
                    counter: s.ctx.send_counter,
                },
                bytes::be_bytes(listen_port as nat, 2),
            ),
        ),
        s.join_request(listen_port).0.mgr == s.mgr,
{
    bytes::lemma_be_bytes_len(listen_port as nat, 2);
}

/// A host that has an id left and room takes the sender of a JOIN in, at the address that it sent
/// from, as connected and under the next id, and it is to be welcomed there. The other peers stay
/// as they are.
pub proof fn law_join_adds_its_sender(
    host: SessionView,
    payload: Seq<u8>,
    src: PeerAddr,
    now_ns: u64,
)
    requires
        payload.len() >= 2,
        host.mgr.is_host,
        host.mgr.next_peer_id < 5,
        host.mgr.peers.len() < 4,
        host.mgr.local_id != host.mgr.next_peer_id,
        forall|i: int|
            0 <= i < host.mgr.peers.len() ==> (#[trigger] host.mgr.peers[i]).id
                != host.mgr.next_peer_id,
    ensures
        ({
            let (t, res) = host.on_join(payload, src, now_ns);
            let n = host.mgr.peers.len() as int;
            let p = t.mgr.peers[n];
            &&& res == Ok::<ReactionView, VoiceError>(ReactionView::Welcome { to: src })
            &&& t.mgr.peers.len() == n + 1
            &&& forall|i: int| 0 <= i < n ==> (#[trigger] t.mgr.peers[i]) == host.mgr.peers[i]
            &&& p.id == host.mgr.next_peer_id
            &&& p.addr == src
            &&& p.state == PeerState::Connected
            &&& p.last_seen_ns == now_ns
            &&& p.send_seq == 0
            &&& p.jitter.frames.len() == 0
            &&& p.peer_crypto is None
            &&& !p.kx_sent
            &&& !p.kx_received
            &&& t.mgr.next_peer_id == host.mgr.next_peer_id + 1
            &&& t.mgr.addrs == host.mgr.addrs.insert(src, host.mgr.next_peer_id)
            &&& t.mgr.local_id == host.mgr.local_id
            &&& t.mgr.session_id == host.mgr.session_id
            &&& t.ctx == host.ctx
        }),
{
    let id = host.mgr.next_peer_id;
    let allocated = host.mgr.allocate_peer_id().0;
    lemma_not_found(allocated, id);
    let added = allocated.add_peer(id, src, now_ns).0;
    assert forall|i: int| 0 <= i < host.mgr.peers.len() implies (#[trigger] added.peers[i]).id
        != id by {
        assert(added.peers[i] == host.mgr.peers[i]);
    }
    peer::lemma_index_is(added, id, host.mgr.peers.len() as int);
}

/// A JOIN whose sender cannot be let in is refused: where it is too short, where the node is not
/// the host, and where all four ids are given out. No peer becomes known then.
pub proof fn law_join_is_refused(s: SessionView, payload: Seq<u8>, src: PeerAddr, now_ns: u64)
    ensures
        payload.len() < 2 ==> s.on_join(payload, src, now_ns) == (
            s,
            Err::<ReactionView, VoiceError>(VoiceError::JoinTooShort),
        ),
        payload.len() >= 2 && !s.mgr.is_host ==> s.on_join(payload, src, now_ns) == (
            s,
            Err::<ReactionView, VoiceError>(VoiceError::OnlyHostAllocates),
        ),
        payload.len() >= 2 && s.mgr.is_host && s.mgr.next_peer_id >= 5 ==> s.on_join(
            payload,
            src,
            now_ns,
        ) == (s, Err::<ReactionView, VoiceError>(VoiceError::NoPeerIdLeft)),
{
}

/// A JOIN that finds no room among the peers uses up an id and is refused; one whose id someone has
/// already moves this one to the address that it came from, connected.
pub proof fn law_join_with_a_taken_id(
    host: SessionView,
    payload: Seq<u8>,
    i: int,
    src: PeerAddr,
    now_ns: u64,
)
    requires
        host.wf(),
        payload.len() >= 2,
        host.mgr.is_host,
        host.mgr.next_peer_id < 5,
        host.mgr.local_id != host.mgr.next_peer_id,
        0 <= i < host.mgr.peers.len(),
    ensures
        ({
            let (t, res) = host.on_join(payload, src, now_ns);
            let id = host.mgr.next_peer_id;
            &&& t.mgr.next_peer_id == id + 1
            &&& host.mgr.peers[i].id == id ==> {
                &&& res == Ok::<ReactionView, VoiceError>(ReactionView::Welcome { to: src })
                &&& t.mgr.peers.len() == host.mgr.peers.len()
                &&& t.mgr.peers[i] == (PeerView {
                    addr: src,
                    state: PeerState::Connected,
                    last_seen_ns: now_ns,
                    ..host.mgr.peers[i]
                })
            }
            &&& host.mgr.peers.len() >= 4 && (forall|j: int|
                0 <= j < host.mgr.peers.len() ==> (#[trigger] host.mgr.peers[j]).id != id) ==> res
                == Err::<ReactionView, VoiceError>(VoiceError::MaxPeersReached) && t.mgr.peers
                == host.mgr.peers
        }),
{
    let id = host.mgr.next_peer_id;
    let allocated = host.mgr.allocate_peer_id().0;
    peer::law_invariant_is_kept(host.mgr, 0, host.mgr.session_id, 0);
    peer::lemma_index(allocated, id);
    if host.mgr.peers[i].id == id {
        lemma_found(allocated, i);
        let added = allocated.add_peer(id, src, now_ns).0;
        peer::law_add_peer_keeps_invariant(allocated, id, src, now_ns);
        assert(added.peers[i].id == id);
        lemma_found(added, i);
    }
}

/// Where no address is known at which we are reached, no list is sent, and nothing changes.
pub proof fn law_no_list_without_an_address(
    s: SessionView,
    to: PeerAddr,
    local: PeerAddr,
    routable: Option<PeerIp>,
)
    requires
        addr::spec_reachable_addr(local, routable) is None,
    ensures
        s.welcome(to, local, routable) == (
            s,
            Err::<OutgoingView, VoiceError>(VoiceError::NoLocalAddress),
        ),
{
}

/// What an executable step says of itself is the step: the same state and the same result.
pub proof fn law_steps_are_exact(
    step: session::Step,
    after: SessionView,
    res: Result<Reaction, VoiceError>,
)
    ensures
        session::stepped(step, after, res) == (after == step.0 && match res {
            Ok(reaction) => step.1 == Ok::<ReactionView, VoiceError>(reaction@),
            Err(e) => step.1 == Err::<ReactionView, VoiceError>(e),
        }),
{
}

/// A peer that was let in gets the session id and the list of everyone, ourselves first at an
/// address that it reaches, then all others, at the address that it sent from.
pub proof fn law_welcome_lists_everyone(
    s: SessionView,
    to: PeerAddr,
    local: PeerAddr,
    routable: Option<PeerIp>,
    here: PeerAddr,
)
    requires
        s.wf(),
        s.ctx.send_counter < u32::MAX,
        addr::spec_reachable_addr(local, routable) == Some(here),
    ensures
        ({
            let list = PeerListView {
                session_id: s.mgr.session_id,
                peers: Seq::new(
                    (s.mgr.peers.len() + 1) as nat,
                    |i: int|
                        if i == 0 {
                            (s.mgr.local_id, here)
                        } else {
                            (s.mgr.peers[i - 1].id, s.mgr.peers[i - 1].addr)
                        },
                ),
            };
            &&& s.welcome(to, local, routable).1 == Ok::<OutgoingView, VoiceError>(
                OutgoingView {
                    to,
                    wire: sending::packet_of(
                        CryptoView::new(s.key, zeros()),
                        PacketHeader {
                            pkt_type: 4,
                            peer_id: s.mgr.local_id,
                            seq_num: 0,
                            counter: s.ctx.send_counter,
                        },
                        list.to_bytes(),
                    ),
                },
            )
            &&& s.welcome(to, local, routable).0.mgr == s.mgr
        }),
{
    let list = PeerListView {
        session_id: s.mgr.session_id,
        peers: Seq::new(
            (s.mgr.peers.len() + 1) as nat,
            |i: int|
                if i == 0 {
                    (s.mgr.local_id, here)
                } else {
                    (s.mgr.peers[i - 1].id, s.mgr.peers[i - 1].addr)
                },
        ),
    };
    assert(s.mgr.peer_list(here).peers =~= list.peers);
    net::law_list_is_short(list);
}

proof fn lemma_max_id(peers: Seq<(u8, PeerAddr)>)
    requires
        peers.len() > 0,
    ensures
        exists|i: int| 0 <= i < peers.len() && (#[trigger] peers[i]).0 == session::max_id(peers),
        forall|i: int| 0 <= i < peers.len() ==> (#[trigger] peers[i]).0 <= session::max_id(peers),
    decreases peers.len(),
{
    if peers.len() == 1 {
        assert(peers[0].0 == session::max_id(peers));
    } else {
        let before = peers.drop_last();
        lemma_max_id(before);
        let k = choose|i: int|
            0 <= i < before.len() && (#[trigger] before[i]).0 == session::max_id(before);
        assert(peers[k] == before[k]);
        assert(peers[peers.len() - 1] == peers.last());
        assert forall|i: int| 0 <= i < peers.len() implies (#[trigger] peers[i]).0
            <= session::max_id(peers) by {
            if i < before.len() {
                assert(before[i] == peers[i]);
            }
        }
    }
}

/// From a list of peers a node takes the largest id for its own and the session id, under which it
/// goes on counting. The peers that it knows stay as they are.
pub proof fn law_list_gives_id_and_session(
    s: SessionView,
    list: PeerListView,
    sender_id: u8,
    src: PeerAddr,
)
    requires
        list.wf(),
        list.peers.len() > 0,
    ensures
        ({
            let (t, res) = s.on_peer_list(list.to_bytes(), sender_id, src);
            &&& res is Ok
            &&& res->Ok_0 is Greet
            &&& exists|i: int|
                0 <= i < list.peers.len() && (#[trigger] list.peers[i]).0 == t.mgr.local_id
            &&& forall|i: int|
                0 <= i < list.peers.len() ==> (#[trigger] list.peers[i]).0 <= t.mgr.local_id
            &&& t.mgr.session_id == list.session_id
            &&& t.mgr.peers == s.mgr.peers
            &&& t.mgr.addrs == s.mgr.addrs
            &&& t.key == s.key
            &&& t.secret == s.secret
            &&& t.ctx == (CryptoView {
                key: s.key,
                session_id: list.session_id,
                send_counter: s.ctx.send_counter,
            })
        }),
{
    net::law_peer_list_roundtrip(list);
    lemma_max_id(list.peers);
}

/// Exactly the others of a list are to be greeted, in its order: the sender of the list where it
/// sent from, and everyone else where the list says.
pub proof fn law_exactly_the_others_are_greeted(
    s: SessionView,
    list: PeerListView,
    sender_id: u8,
    src: PeerAddr,
)
    requires
        list.wf(),
        list.peers.len() > 0,
    ensures
        ({
            let (t, res) = s.on_peer_list(list.to_bytes(), sender_id, src);
            let others = list.peers.filter(|p: (u8, PeerAddr)| p.0 != t.mgr.local_id);
            &&& res matches Ok(ReactionView::Greet { peers })
            &&& peers.len() == others.len()
            &&& forall|k: int|
                0 <= k < others.len() ==> (#[trigger] peers[k]) == (
                    others[k].0,
                    if others[k].0 == sender_id {
                        src
                    } else {
                        others[k].1
                    },
                )
        }),
{
    net::law_peer_list_roundtrip(list);
    let my_id = s.on_peer_list(list.to_bytes(), sender_id, src).0.mgr.local_id;
    lemma_others(list.peers, my_id, sender_id, src);
    assert((|p: (u8, PeerAddr)| p.0 != my_id) =~= is_other(my_id));
}

spec fn is_other(my_id: u8) -> spec_fn((u8, PeerAddr)) -> bool {
    |p: (u8, PeerAddr)| p.0 != my_id
}

proof fn lemma_others(peers: Seq<(u8, PeerAddr)>, my_id: u8, sender_id: u8, src: PeerAddr)
    ensures
        session::to_greet(peers, my_id, sender_id, src).len() == peers.filter(
            is_other(my_id),
        ).len(),
        forall|k: int|
            0 <= k < peers.filter(is_other(my_id)).len() ==> (#[trigger] session::to_greet(
                peers,
                my_id,
                sender_id,
                src,
            )[k]) == (
                peers.filter(is_other(my_id))[k].0,
                if peers.filter(is_other(my_id))[k].0 == sender_id {
                    src
                } else {
                    peers.filter(is_other(my_id))[k].1
                },
            ),
    decreases peers.len(),
{
    reveal(Seq::filter);
    if peers.len() > 0 {
        lemma_others(peers.drop_last(), my_id, sender_id, src);
    }
}

/// An empty list, or one that cannot be read, is refused and changes nothing.
pub proof fn law_bad_list_is_refused(
    s: SessionView,
    payload: Seq<u8>,
    sender_id: u8,
    src: PeerAddr,
)
    requires
        payload.len() < 9 || payload[8] == 0,
    ensures
        s.on_peer_list(payload, sender_id, src).0 == s,
        s.on_peer_list(payload, sender_id, src).1 is Err,
{
}

/// A greeting goes to the address that is greeted, and everyone in the session reads in it nothing
/// but who greets.
pub proof fn law_greeting_goes_to_the_peer(s: SessionView, id: u8, to: PeerAddr, now_ns: u64)
    requires
        s.ctx.send_counter < u32::MAX,
        s.greet(id, to, now_ns).1 is Ok,
    ensures
        s.greet(id, to, now_ns).1->Ok_0.to == to,
        s.greet(id, to, now_ns).1->Ok_0.wire == sending::packet_of(
            s.ctx,
            PacketHeader {
                pkt_type: 3,
                peer_id: s.mgr.local_id,
                seq_num: 0,
                counter: s.ctx.send_counter,
            },
            Seq::empty(),
        ),
{
}

/// Greeting makes a peer known that was not, at the address that is greeted, if there is room.
pub proof fn law_greeting_makes_known(s: SessionView, id: u8, to: PeerAddr, now_ns: u64)
    requires
        id != s.mgr.local_id,
        s.mgr.peers.len() < 4,
        forall|i: int| 0 <= i < s.mgr.peers.len() ==> (#[trigger] s.mgr.peers[i]).id != id,
    ensures
        ({
            let t = s.greet(id, to, now_ns).0;
            let n = s.mgr.peers.len() as int;
            &&& t.mgr.peers.len() == n + 1
            &&& forall|i: int| 0 <= i < n ==> (#[trigger] t.mgr.peers[i]) == s.mgr.peers[i]
            &&& t.mgr.peers[n].id == id
            &&& t.mgr.peers[n].addr == to
            &&& t.mgr.peers[n].state == PeerState::Discovered
            &&& t.mgr.addrs == s.mgr.addrs.insert(to, id)
        }),
{
    lemma_not_found(s.mgr, id);
}

/// Greeting a known peer again, also in a full session, changes no more of it than the address, to
/// the one that is greeted, and of no other peer anything.
pub proof fn law_greeting_updates_the_address(s: SessionView, i: int, to: PeerAddr, now_ns: u64)
    requires
        s.wf(),
        0 <= i < s.mgr.peers.len(),
        s.mgr.peers[i].id != s.mgr.local_id,
        s.ctx.send_counter < u32::MAX,
    ensures
        ({
            let p = s.mgr.peers[i];
            let (t, res) = s.greet(p.id, to, now_ns);
            &&& res is Ok
            &&& t.mgr.peers.len() == s.mgr.peers.len()
            &&& t.mgr.peers[i] == (PeerView { addr: to, ..p })
            &&& forall|j: int|
                0 <= j < s.mgr.peers.len() && j != i ==> (#[trigger] t.mgr.peers[j])
                    == s.mgr.peers[j]
        }),
{
    lemma_found(s.mgr, i);
}

/// That a greeting has left is noted of the peer that it went to, and of no other.
pub proof fn law_greeting_is_noted(s: SessionView, i: int)
    requires
        s.wf(),
        0 <= i < s.mgr.peers.len(),
    ensures
        ({
            let t = s.hello_sent(s.mgr.peers[i].id);
            &&& only_peer_changes(s, t, i)
            &&& t.mgr.peers[i] == (PeerView { state: PeerState::HelloSent, ..s.mgr.peers[i] })
        }),
{
    lemma_found(s.mgr, i);
}

/// The answer to a greeting goes to where it came from, with our id.
pub proof fn law_greeting_is_answered(s: SessionView, sender_id: u8, src: PeerAddr, now_ns: u64)
    requires
        s.ctx.send_counter < u32::MAX,
        s.on_hello(sender_id, src, now_ns).1 is Ok,
    ensures
        s.on_hello(sender_id, src, now_ns).1 == Ok::<ReactionView, VoiceError>(
            ReactionView::Reply(
                OutgoingView {
                    to: src,
                    wire: sending::packet_of(
                        s.ctx,
                        PacketHeader {
                            pkt_type: 6,
                            peer_id: s.mgr.local_id,
                            seq_num: 0,
                            counter: s.ctx.send_counter,
                        },
                        Seq::empty(),
                    ),
                },
            ),
        ),
        s.on_hello(sender_id, src, now_ns).0.ctx.send_counter == s.ctx.send_counter + 1,
{
}

/// A known peer that greets is connected and was heard just now; nothing else of it changes, not
/// even its address, and no other peer does.
pub proof fn law_greeting_connects_a_known_peer(
    s: SessionView,
    i: int,
    src: PeerAddr,
    now_ns: u64,
)
    requires
        s.wf(),
        0 <= i < s.mgr.peers.len(),
        s.ctx.send_counter < u32::MAX,
    ensures
        ({
            let (t, res) = s.on_hello(s.mgr.peers[i].id, src, now_ns);
            &&& res is Ok
            &&& only_peer_changes(s, t, i)
            &&& t.mgr.peers[i] == (PeerView {
                state: PeerState::Connected,
                last_seen_ns: now_ns,
                ..s.mgr.peers[i]
            })
        }),
{
    lemma_found(s.mgr, i);
}

/// A stranger that greets becomes known at the address that it sent from, connected, if there is
/// room; and otherwise is refused.
pub proof fn law_greeting_of_a_stranger(
    s: SessionView,
    sender_id: u8,
    src: PeerAddr,
    now_ns: u64,
)
    requires
        sender_id != s.mgr.local_id,
        s.ctx.send_counter < u32::MAX,
        forall|i: int| 0 <= i < s.mgr.peers.len() ==> (#[trigger] s.mgr.peers[i]).id != sender_id,
    ensures
        ({
            let (t, res) = s.on_hello(sender_id, src, now_ns);
            let n = s.mgr.peers.len() as int;
            if n >= 4 {
                t == s && res == Err::<ReactionView, VoiceError>(VoiceError::MaxPeersReached)
            } else {
                &&& res is Ok
                &&& t.mgr.peers.len() == n + 1
                &&& forall|i: int| 0 <= i < n ==> (#[trigger] t.mgr.peers[i]) == s.mgr.peers[i]
                &&& t.mgr.peers[n].id == sender_id
                &&& t.mgr.peers[n].addr == src
                &&& t.mgr.peers[n].state == PeerState::Connected
                &&& t.mgr.peers[n].last_seen_ns == now_ns
                &&& t.mgr.addrs == s.mgr.addrs.insert(src, sender_id)
            }
        }),
{
    lemma_not_found(s.mgr, sender_id);
    if s.mgr.peers.len() < 4 {
        let added = s.mgr.add_peer(sender_id, src, now_ns).0;
        assert forall|i: int| 0 <= i < s.mgr.peers.len() implies (#[trigger] added.peers[i]).id
            != sender_id by {
            assert(added.peers[i] == s.mgr.peers[i]);
        }
        peer::lemma_index_is(added, sender_id, s.mgr.peers.len() as int);
    }
}

/// The answer to a greeting connects the peer that it is from, and no other. From a stranger it
/// changes nothing.
pub proof fn law_answer_connects_its_sender(s: SessionView, i: int, now_ns: u64)
    requires
        s.wf(),
        0 <= i < s.mgr.peers.len(),
    ensures
        ({
            let t = s.on_hello_ack(s.mgr.peers[i].id, now_ns);
            &&& only_peer_changes(s, t, i)
            &&& t.ctx == s.ctx
            &&& t.mgr.peers[i] == (PeerView {
                state: PeerState::Connected,
                last_seen_ns: now_ns,
                ..s.mgr.peers[i]
            })
        }),
{
    lemma_found(s.mgr, i);
}

/// What comes with the id of a stranger changes no peer, be it an answer to a greeting, a PONG, a
/// public key, audio or a frame.
pub proof fn law_strangers_change_nothing(
    s: SessionView,
    header: PacketHeader,
    payload: Seq<u8>,
    pair_key: bool,
    pcm: Seq<i16>,
    src: PeerAddr,
    now_ns: u64,
)
    requires
        forall|i: int|
            0 <= i < s.mgr.peers.len() ==> (#[trigger] s.mgr.peers[i]).id != header.peer_id,
    ensures
        s.on_hello_ack(header.peer_id, now_ns) == s,
        s.hello_sent(header.peer_id) == s,
        s.on_pong(payload, header.peer_id, now_ns).0 == s,
        s.on_key_exchange(payload, header.peer_id, src).0 == s,
        s.on_audio(header, pair_key, payload, now_ns) == (
            s,
            Ok::<ReactionView, VoiceError>(ReactionView::Quiet),
        ),
        s.deliver(header.peer_id, header.seq_num, pcm) == s,
{
    lemma_not_found(s.mgr, header.peer_id);
}

/// A keepalive tells that the peer that sends from its address was heard just now, and nothing
/// else; from an address that no one has it changes nothing.
pub proof fn law_keepalive_is_noted(s: SessionView, i: int, src: PeerAddr, now_ns: u64)
    requires
        s.wf(),
        0 <= i < s.mgr.peers.len(),
    ensures
        s.mgr.addrs.dom().contains(src) && s.mgr.addrs[src] == s.mgr.peers[i].id ==> ({
            let t = s.touch_sender(src, now_ns);
            &&& only_peer_changes(s, t, i)
            &&& t.ctx == s.ctx
            &&& t.mgr.peers[i] == (PeerView { last_seen_ns: now_ns, ..s.mgr.peers[i] })
        }),
        !s.mgr.addrs.dom().contains(src) ==> s.touch_sender(src, now_ns) == s,
{
    lemma_found(s.mgr, i);
}

/// A ping is answered to where it came from, with the id that it carried.
pub proof fn law_ping_is_answered_with_its_id(
    s: SessionView,
    ping_id: u32,
    src: PeerAddr,
    now_ns: u64,
)
    requires
        s.ctx.send_counter < u32::MAX,
    ensures
        s.on_ping(bytes::be_bytes(ping_id as nat, 4), src, now_ns).1 == Ok::<
            ReactionView,
            VoiceError,
        >(
            ReactionView::Reply(
                OutgoingView {
                    to: src,
                    wire: sending::packet_of(
                        s.ctx,
                        PacketHeader {
                            pkt_type: 8,
                            peer_id: s.mgr.local_id,
                            seq_num: 0,
                            counter: s.ctx.send_counter,
                        },
                        bytes::be_bytes(ping_id as nat, 4),
                    ),
                },
            ),
        ),
        s.on_ping(bytes::be_bytes(ping_id as nat, 4), src, now_ns).0.mgr == s.touch_sender(
            src,
            now_ns,
        ).mgr,
{
    crate::latency::law_ping_roundtrip(PingPayload { ping_id });
    bytes::lemma_be_bytes_len(ping_id as nat, 4);
}

/// The answer to a ping is measured at the peer that it is from, which was heard just now, and at
/// no other.
pub proof fn law_pong_is_measured_at_its_sender(
    s: SessionView,
    i: int,
    ping_id: u32,
    now_ns: u64,
)
    requires
        s.wf(),
        0 <= i < s.mgr.peers.len(),
    ensures
        ({
            let (t, res) = s.on_pong(
                bytes::be_bytes(ping_id as nat, 4),
                s.mgr.peers[i].id,
                now_ns,
            );
            &&& res == Ok::<ReactionView, VoiceError>(ReactionView::Quiet)
            &&& only_peer_changes(s, t, i)
            &&& t.mgr.peers[i] == (PeerView {
                latency: s.mgr.peers[i].latency.pong_received(ping_id, now_ns),
                last_seen_ns: now_ns,
                ..s.mgr.peers[i]
            })
        }),
{
    crate::latency::law_ping_roundtrip(PingPayload { ping_id });
    lemma_found(s.mgr, i);
}

/// A public key gives the key of the pair with the peer that it is from: X25519 and then HKDF, with
/// the session id as salt, and with a label and both ids, the smaller one first. Its counters go
/// on. No other peer changes.
pub proof fn law_public_key_gives_the_pair_key(
    s: SessionView,
    i: int,
    public: Seq<u8>,
    src: PeerAddr,
)
    requires
        s.wf(),
        0 <= i < s.mgr.peers.len(),
        public.len() == 32,
        s.on_key_exchange(public, s.mgr.peers[i].id, src).1 is Ok,
    ensures
        ({
            let p = s.mgr.peers[i];
            let t = s.on_key_exchange(public, p.id, src).0;
            let q = t.mgr.peers[i];
            let (low, high) = if s.mgr.local_id < p.id {
                (s.mgr.local_id, p.id)
            } else {
                (p.id, s.mgr.local_id)
            };
            &&& only_peer_changes(s, t, i)
            &&& q == (PeerView {
                peer_crypto: q.peer_crypto,
                kx_received: true,
                kx_sent: q.kx_sent,
                ..p
            })
            &&& q.peer_crypto matches Some(ctx)
            &&& ctx.session_id == s.mgr.session_id
            &&& ctx.key == key_exchange::hkdf_sha256(
                s.mgr.session_id,
                key_exchange::x25519_shared(s.secret, public),
                seq![
                    118u8,
                    111,
                    105,
                    99,
                    101,
                    99,
                    104,
                    97,
                    116,
                    45,
                    97,
                    117,
                    100,
                    105,
                    111,
                    low,
                    high,
                ],
            )
            &&& ctx.send_counter == (match p.peer_crypto {
                Some(before) => before.send_counter,
                None => 0,
            })
        }),
{
    let p = s.mgr.peers[i];
    lemma_found(s.mgr, i);
    assert(public.subrange(0, 32) =~= public);
    let (low, high) = if s.mgr.local_id < p.id {
        (s.mgr.local_id, p.id)
    } else {
        (p.id, s.mgr.local_id)
    };
    assert(key_exchange::spec_peer_key_info(s.mgr.local_id, p.id) =~= seq![
        118u8,
        111,
        105,
        99,
        101,
        99,
        104,
        97,
        116,
        45,
        97,
        117,
        100,
        105,
        111,
        low,
        high,
    ]);
    let key = key_exchange::spec_peer_key(
        s.secret,
        public,
        s.mgr.session_id,
        s.mgr.local_id,
        p.id,
    )->Ok_0;
    let q = s.with_pair_key(p, key);
    let s1 = s.set_peer(p.id, q);
    peer::lemma_set_keeps_wf(s.mgr, p.id, q);
}

/// A public key is answered with ours, to where it came from, exactly if ours did not go to its
/// sender yet; afterwards it did.
pub proof fn law_public_key_is_answered_once(
    s: SessionView,
    i: int,
    public: Seq<u8>,
    src: PeerAddr,
)
    requires
        s.wf(),
        0 <= i < s.mgr.peers.len(),
        public.len() == 32,
        s.ctx.send_counter < u32::MAX,
        key_exchange::x25519_public(s.secret).len() == 32,
        s.on_key_exchange(public, s.mgr.peers[i].id, src).1 is Ok,
    ensures
        ({
            let p = s.mgr.peers[i];
            let (t, res) = s.on_key_exchange(public, p.id, src);
            &&& t.mgr.peers.len() == s.mgr.peers.len()
            &&& t.mgr.peers[i].kx_sent
            &&& res->Ok_0 == (if p.kx_sent {
                ReactionView::Quiet
            } else {
                ReactionView::Reply(
                    OutgoingView {
                        to: src,
                        wire: sending::packet_of(
                            s.ctx,
                            PacketHeader {
                                pkt_type: 9,
                                peer_id: s.mgr.local_id,
                                seq_num: 0,
                                counter: s.ctx.send_counter,
                            },
                            key_exchange::x25519_public(s.secret),
                        ),
                    },
                )
            })
        }),
{
    let p = s.mgr.peers[i];
    lemma_found(s.mgr, i);
    assert(public.subrange(0, 32) =~= public);
    let key = key_exchange::spec_peer_key(
        s.secret,
        public,
        s.mgr.session_id,
        s.mgr.local_id,
        p.id,
    )->Ok_0;
    let q = s.with_pair_key(p, key);
    peer::lemma_set_keeps_wf(s.mgr, p.id, q);
}

/// A public key leads to a key exactly if it is not too short and what is shared with its owner is
/// not all zeros; otherwise it is refused and changes nothing.
pub proof fn law_bad_public_key_is_refused(
    s: SessionView,
    payload: Seq<u8>,
    sender_id: u8,
    src: PeerAddr,
)
    ensures
        s.on_key_exchange(payload, sender_id, src).1 is Ok <==> payload.len() >= 32 && exists|i: int|
            0 <= i < key_exchange::x25519_shared(s.secret, payload.subrange(0, 32)).len() && (
            #[trigger] key_exchange::x25519_shared(s.secret, payload.subrange(0, 32))[i]) != 0,
        s.on_key_exchange(payload, sender_id, src).1 is Err ==> s.on_key_exchange(
            payload,
            sender_id,
            src,
        ).0 == s,
{
}

/// Audio of a peer tells that it was heard just now, and is handed on with its own id, number and
/// frame exactly if the filter for its key accepts its counter, which it then no longer does. The
/// filter for the other key stays as it is, and so does every other peer.
pub proof fn law_audio_is_filtered_by_its_key(
    s: SessionView,
    i: int,
    seq_num: u16,
    counter: u32,
    pair_key: bool,
    opus: Seq<u8>,
    now_ns: u64,
)
    requires
        s.wf(),
        0 <= i < s.mgr.peers.len(),
    ensures
        ({
            let p = s.mgr.peers[i];
            let header = PacketHeader { pkt_type: 1, peer_id: p.id, seq_num, counter };
            let (t, res) = s.on_audio(header, pair_key, opus, now_ns);
            let q = t.mgr.peers[i];
            let accepted = if pair_key {
                p.peer_replay.accepts(counter as int)
            } else {
                p.replay.accepts(counter as int)
            };
            &&& only_peer_changes(s, t, i)
            &&& t.ctx == s.ctx
            &&& q == (PeerView {
                last_seen_ns: now_ns,
                replay: q.replay,
                peer_replay: q.peer_replay,
                ..p
            })
            &&& pair_key ==> q.replay == p.replay && !q.peer_replay.accepts(counter as int)
            &&& !pair_key ==> q.peer_replay == p.peer_replay && !q.replay.accepts(counter as int)
            &&& accepted ==> res == Ok::<ReactionView, VoiceError>(
                ReactionView::Decode { peer_id: p.id, seq_num, opus },
            )
            &&& !accepted ==> res == Err::<ReactionView, VoiceError>(
                VoiceError::ReplayDetected { peer_id: p.id },
            )
        }),
{
    lemma_found(s.mgr, i);
}

/// Audio is tried with the key of the pair first, if the peer's public key has come, and if it does
/// not open then, or if there is no such key, with that of the session.
pub proof fn law_audio_is_opened_with_either_key(s: SessionView, wire: Seq<u8>, i: int)
    requires
        s.wf(),
        0 <= i < s.mgr.peers.len(),
        packet::header_of(wire).peer_id == s.mgr.peers[i].id,
    ensures
        ({
            let p = s.mgr.peers[i];
            let pair = packet::opened(p.peer_crypto->0, wire);
            let session = packet::opened(s.ctx, wire);
            if p.kx_received && pair is Ok {
                s.audio_payload(wire) == Ok::<(Seq<u8>, bool), VoiceError>((pair->Ok_0, true))
            } else if session is Ok {
                s.audio_payload(wire) == Ok::<(Seq<u8>, bool), VoiceError>((session->Ok_0, false))
            } else {
                s.audio_payload(wire) is Err
            }
        }),
{
    lemma_found(s.mgr, i);
    assert(s.mgr.peers[i].wf());
}

/// A decoded frame goes to the jitter buffer of the peer that it is from, under its number, and
/// changes nothing else.
pub proof fn law_frame_goes_to_its_sender(s: SessionView, i: int, seq_num: u16, pcm: Seq<i16>)
    requires
        s.wf(),
        0 <= i < s.mgr.peers.len(),
    ensures
        ({
            let t = s.deliver(s.mgr.peers[i].id, seq_num, pcm);
            &&& only_peer_changes(s, t, i)
            &&& t.ctx == s.ctx
            &&& t.mgr.peers[i] == (PeerView {
                jitter: s.mgr.peers[i].jitter.push(seq_num, pcm),
                ..s.mgr.peers[i]
            })
        }),
{
    lemma_found(s.mgr, i);
}

/// What is done with a packet other than audio that is authentic goes by its type.
pub proof fn law_type_decides(s: SessionView, wire: Seq<u8>, src: PeerAddr, now_ns: u64)
    requires
        wire.len() >= 8,
        s.control_payload(wire) is Ok,
    ensures
        ({
            let header = packet::header_of(wire);
            let t = header.pkt_type;
            let id = header.peer_id;
            let payload = s.control_payload(wire)->Ok_0;
            let quiet = Ok::<ReactionView, VoiceError>(ReactionView::Quiet);
            let step = s.handle_incoming(wire, src, now_ns);
            &&& t == 2 && s.mgr.is_host ==> step == s.on_join(payload, src, now_ns)
            &&& t == 2 && !s.mgr.is_host ==> step == (
                s,
                Err::<ReactionView, VoiceError>(VoiceError::NonHostJoin),
            )
            &&& t == 3 ==> step == s.on_hello(id, src, now_ns)
            &&& t == 4 ==> step == s.on_peer_list(payload, id, src)
            &&& t == 5 ==> step == (s.touch_sender(src, now_ns), quiet)
            &&& t == 6 ==> step == (s.on_hello_ack(id, now_ns), quiet)
            &&& t == 7 ==> step == s.on_ping(payload, src, now_ns)
            &&& t == 8 ==> step == s.on_pong(payload, id, now_ns)
            &&& t == 9 ==> step == s.on_key_exchange(payload, id, src)
            &&& t == 0 || t > 9 ==> step == (
                s,
                Err::<ReactionView, VoiceError>(VoiceError::UnknownPacketType { pkt_type: t }),
            )
        }),
{
}

/// JOIN and PEER_LIST are opened with the key alone, every other packet but audio with the key and
/// the session id.
pub proof fn law_context_goes_by_the_type(s: SessionView, wire: Seq<u8>)
    ensures
        packet::header_of(wire).pkt_type == 2 || packet::header_of(wire).pkt_type == 4
            ==> s.control_payload(wire) == packet::opened(CryptoView::new(s.key, zeros()), wire),
        packet::header_of(wire).pkt_type != 2 && packet::header_of(wire).pkt_type != 4
            ==> s.control_payload(wire) == packet::opened(s.ctx, wire),
{
}

/// An audio packet that opens is taken for what it says, and one that does not is refused.
pub proof fn law_audio_is_taken_in(s: SessionView, wire: Seq<u8>, src: PeerAddr, now_ns: u64)
    requires
        wire.len() >= 8,
        packet::header_of(wire).pkt_type == 1,
    ensures
        match s.audio_payload(wire) {
            Ok((opus, pair_key)) => s.handle_incoming(wire, src, now_ns) == s.on_audio(
                packet::header_of(wire),
                pair_key,
                opus,
                now_ns,
            ),
            Err(e) => s.handle_incoming(wire, src, now_ns) == (s, Err::<ReactionView, VoiceError>(e)),
        },
{
}

/// A session starts alone: the host with the id 0 in the session that it made, giving out ids from
/// 1 on, and a joining node without an id and a session.
pub proof fn law_session_starts_alone(
    key: Seq<u8>,
    is_host: bool,
    session_id: Seq<u8>,
    secret: Seq<u8>,
)
    ensures
        ({
            let s = SessionView::start(key, is_host, session_id, secret);
            &&& s.key == key
            &&& s.secret == secret
            &&& s.ctx.key == key
            &&& s.ctx.send_counter == 0
            &&& s.ctx.session_id == s.mgr.session_id
            &&& s.mgr.session_id == (if is_host {
                session_id
            } else {
                zeros()
            })
            &&& s.mgr.is_host == is_host
            &&& s.mgr.local_id == 0
            &&& s.mgr.peers.len() == 0
            &&& s.mgr.addrs == Map::<PeerAddr, u8>::empty()
            &&& is_host ==> s.mgr.next_peer_id == 1
        }),
{
}

} // verus!
