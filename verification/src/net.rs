//! The wire format: packet headers, and the payloads of the control packets.
use vstd::prelude::*;

use crate::addr::PeerAddr;
use crate::bytes;
use crate::error::VoiceError;

verus! {

pub const PKT_AUDIO: u8 = 0x01;

pub const PKT_JOIN: u8 = 0x02;

pub const PKT_HELLO: u8 = 0x03;

pub const PKT_PEER_LIST: u8 = 0x04;

pub const PKT_KEEPALIVE: u8 = 0x05;

pub const PKT_HELLO_ACK: u8 = 0x06;

pub const PKT_PING: u8 = 0x07;

pub const PKT_PONG: u8 = 0x08;

pub const PKT_KEY_EXCHANGE: u8 = 0x09;

pub const HEADER_LEN: usize = 8;

/// The largest datagram that is received, well under an MTU.
pub const MAX_PACKET_LEN: usize = 1200;

/// That an executable result is the one that a spec function gives, up to views.
pub open spec fn agrees<T: View>(got: Result<T, VoiceError>, want: Result<T::V, VoiceError>) -> bool {
    match want {
        Ok(v) => got is Ok && got->Ok_0@ == v,
        Err(e) => got is Err && got->Err_0 == e,
    }
}

/// Results agree exactly if both succeed with the same value, or both fail with the same error.
pub proof fn law_results_agree<T: View>(got: Result<T, VoiceError>, want: Result<T::V, VoiceError>)
    ensures
        agrees(got, want) == (match got {
            Ok(value) => want == Ok::<T::V, VoiceError>(value@),
            Err(e) => want == Err::<T::V, VoiceError>(e),
        }),
{
}

/// The header of every packet, eight bytes on the wire.
///
/// `counter` is the sender's nonce counter. The receiver needs it to build the nonce with which
/// the packet was encrypted. The header is authenticated with the payload, so a packet whose
/// counter was changed does not decrypt.
#[derive(Clone, Copy, Debug, PartialEq, Eq, Structural)]
pub struct PacketHeader {
    pub pkt_type: u8,
    pub peer_id: u8,
    pub seq_num: u16,
    pub counter: u32,
}

impl PacketHeader {
    pub open spec fn spec_new(
        pkt_type: u8,
        peer_id: u8,
        seq_num: u16,
        counter: u32,
    ) -> PacketHeader {
        PacketHeader { pkt_type, peer_id, seq_num, counter }
    }

    pub fn new(pkt_type: u8, peer_id: u8, seq_num: u16, counter: u32) -> (header: Self)
        ensures
            header == PacketHeader::spec_new(pkt_type, peer_id, seq_num, counter),
    {
        PacketHeader { pkt_type, peer_id, seq_num, counter }
    }

    /// Type, peer id, sequence number and counter, the numbers big-endian.
    pub open spec fn spec_to_bytes(self) -> Seq<u8> {
        seq![self.pkt_type, self.peer_id] + bytes::be_bytes(self.seq_num as nat, 2) + bytes::be_bytes(
            self.counter as nat,
            4,
        )
    }

    pub open spec fn spec_from_bytes(buf: Seq<u8>) -> Result<PacketHeader, VoiceError> {
        if buf.len() < HEADER_LEN {
            Err(VoiceError::HeaderTooShort { len: buf.len() as usize })
        } else {
            Ok(
                PacketHeader {
                    pkt_type: buf[0],
                    peer_id: buf[1],
                    seq_num: bytes::be_value(buf.subrange(2, 4)) as u16,
                    counter: bytes::be_value(buf.subrange(4, 8)) as u32,
                },
            )
        }
    }

    /// The bytes of the header.
    pub fn to_bytes(&self) -> (buf: [u8; HEADER_LEN])
        ensures
            buf@ == self.spec_to_bytes(),
            buf@.len() == HEADER_LEN,
    {
        let s: u16 = self.seq_num;
        let c: u32 = self.counter;
        let buf: [u8; 8] = [
            self.pkt_type,
            self.peer_id,
            ((s / 256) % 256) as u8,
            (s % 256) as u8,
            ((c / 0x100_0000) % 256) as u8,
            ((c / 0x1_0000) % 256) as u8,
            ((c / 256) % 256) as u8,
            (c % 256) as u8,
        ];
        proof {
            bytes::lemma_be_bytes_2(s as nat);
            bytes::lemma_be_bytes_4(c as nat);
            assert(buf@ =~= self.spec_to_bytes());
        }
        buf
    }

    /// Reads the header at the start of `buf`.
    pub fn from_bytes(buf: &[u8]) -> (res: Result<Self, VoiceError>)
        ensures
            res == PacketHeader::spec_from_bytes(buf@),
    {
        if buf.len() < HEADER_LEN {
            return Err(VoiceError::HeaderTooShort { len: buf.len() });
        }
        proof {
            bytes::lemma_byte_limits();
        }
        let seq_num: u128 = bytes::read_be(buf, 2, 2);
        let counter: u128 = bytes::read_be(buf, 4, 4);
        Ok(
            PacketHeader {
                pkt_type: buf[0],
                peer_id: buf[1],
                seq_num: seq_num as u16,
                counter: counter as u32,
            },
        )
    }
}

/// Reading the bytes of a header gives the header back.
pub proof fn law_header_roundtrip(header: PacketHeader)
    ensures
        header.spec_to_bytes().len() == HEADER_LEN,
        PacketHeader::spec_from_bytes(header.spec_to_bytes()) == Ok::<PacketHeader, VoiceError>(header),
{
    let b = header.spec_to_bytes();
    let s = bytes::be_bytes(header.seq_num as nat, 2);
    let c = bytes::be_bytes(header.counter as nat, 4);
    bytes::lemma_be_bytes_len(header.seq_num as nat, 2);
    bytes::lemma_be_bytes_len(header.counter as nat, 4);
    bytes::lemma_byte_limits();
    bytes::lemma_be_value_of_bytes(header.seq_num as nat, 2);
    bytes::lemma_be_value_of_bytes(header.counter as nat, 4);
    assert(b.subrange(2, 4) =~= s);
    assert(b.subrange(4, 8) =~= c);
}

/// A header that was read has the bytes that it was read from.
pub proof fn law_header_bytes_are_exact(buf: Seq<u8>)
    requires
        buf.len() == HEADER_LEN,
    ensures
        PacketHeader::spec_from_bytes(buf) matches Ok(header) && header.spec_to_bytes() == buf,
{
    let header = PacketHeader::spec_from_bytes(buf)->Ok_0;
    bytes::lemma_byte_limits();
    bytes::lemma_be_value_bound(buf.subrange(2, 4));
    bytes::lemma_be_value_bound(buf.subrange(4, 8));
    bytes::lemma_be_bytes_of_value(buf.subrange(2, 4));
    bytes::lemma_be_bytes_of_value(buf.subrange(4, 8));
    assert(header.spec_to_bytes() =~= buf);
}

/// The types of packets have these numbers on the wire.
pub proof fn law_packet_types()
    ensures
        PKT_AUDIO == 1,
        PKT_JOIN == 2,
        PKT_HELLO == 3,
        PKT_PEER_LIST == 4,
        PKT_KEEPALIVE == 5,
        PKT_HELLO_ACK == 6,
        PKT_PING == 7,
        PKT_PONG == 8,
        PKT_KEY_EXCHANGE == 9,
        HEADER_LEN == 8,
{
}

/// A header is eight bytes: the type, the id of the sender, two bytes of sequence number and four
/// of counter, the most significant first.
pub proof fn law_header_layout(header: PacketHeader)
    ensures
        ({
            let b = header.spec_to_bytes();
            &&& b.len() == 8
            &&& b[0] == header.pkt_type
            &&& b[1] == header.peer_id
            &&& header.seq_num == b[2] * 0x100 + b[3]
            &&& header.counter == b[4] * 0x100_0000 + b[5] * 0x1_0000 + b[6] * 0x100 + b[7]
        }),
{
    bytes::lemma_be_bytes_2(header.seq_num as nat);
    bytes::lemma_be_bytes_4(header.counter as nat);
}

/// A datagram: the header, then the encrypted payload.
pub fn build_wire_packet(header: &[u8; HEADER_LEN], encrypted_payload: &[u8]) -> (pkt: Vec<u8>)
    ensures
        pkt@ == header@ + encrypted_payload@,
{
    let mut pkt: Vec<u8> = bytes::copy_of(header.as_slice());
    bytes::extend_from(&mut pkt, encrypted_payload);
    pkt
}

/// Splits a datagram into the header's bytes and the encrypted payload.
pub fn parse_wire_packet(data: &[u8]) -> (res: Result<([u8; HEADER_LEN], &[u8]), VoiceError>)
    ensures
        match res {
            Ok((header, payload)) => data@.len() >= HEADER_LEN && header@ == data@.subrange(
                0,
                HEADER_LEN as int,
            ) && payload@ == data@.subrange(HEADER_LEN as int, data@.len() as int),
            Err(e) => data@.len() < HEADER_LEN && e == (VoiceError::PacketTooShort {
                len: data@.len() as usize,
            }),
        },
{
    if data.len() < HEADER_LEN {
        return Err(VoiceError::PacketTooShort { len: data.len() });
    }
    let header: [u8; 8] = bytes::array_8(data, 0);
    let payload = vstd::slice::slice_subrange(data, HEADER_LEN, data.len());
    Ok((header, payload))
}

/// The largest datagram that is received.
pub proof fn law_packet_limit()
    ensures
        MAX_PACKET_LEN == 1200,
{
}

/// A datagram that was put together splits into the header and the payload that went in.
pub proof fn law_wire_roundtrip(header: Seq<u8>, payload: Seq<u8>)
    requires
        header.len() == HEADER_LEN,
    ensures
        (header + payload).subrange(0, HEADER_LEN as int) == header,
        (header + payload).subrange(HEADER_LEN as int, (header + payload).len() as int) == payload,
{
    assert((header + payload).subrange(0, HEADER_LEN as int) =~= header);
    assert((header + payload).subrange(HEADER_LEN as int, (header + payload).len() as int)
        =~= payload);
}

/// The payload of a JOIN packet: the port on which the joining peer listens.
#[derive(Clone, Copy, Debug, PartialEq, Eq, Structural)]
pub struct JoinPayload {
    pub listen_port: u16,
}

impl JoinPayload {
    pub open spec fn spec_to_bytes(self) -> Seq<u8> {
        bytes::be_bytes(self.listen_port as nat, 2)
    }

    pub open spec fn spec_from_bytes(data: Seq<u8>) -> Result<JoinPayload, VoiceError> {
        if data.len() < 2 {
            Err(VoiceError::JoinTooShort)
        } else {
            Ok(JoinPayload { listen_port: bytes::be_value(data.subrange(0, 2)) as u16 })
        }
    }

    /// The port, big-endian.
    pub fn to_bytes(&self) -> (buf: Vec<u8>)
        ensures
            buf@ == self.spec_to_bytes(),
    {
        let mut buf: Vec<u8> = Vec::new();
        bytes::push_be(&mut buf, self.listen_port as u128, 2);
        assert(buf@ =~= self.spec_to_bytes());
        buf
    }

    /// Reads the port in the first two bytes.
    pub fn from_bytes(data: &[u8]) -> (res: Result<Self, VoiceError>)
        ensures
            res == JoinPayload::spec_from_bytes(data@),
    {
        if data.len() < 2 {
            return Err(VoiceError::JoinTooShort);
        }
        proof {
            bytes::lemma_byte_limits();
        }
        let port: u128 = bytes::read_be(data, 0, 2);
        Ok(JoinPayload { listen_port: port as u16 })
    }
}

/// Reading the bytes of a JOIN payload gives the payload back.
pub proof fn law_join_roundtrip(join: JoinPayload)
    ensures
        JoinPayload::spec_from_bytes(join.spec_to_bytes()) == Ok::<JoinPayload, VoiceError>(join),
{
    let b = join.spec_to_bytes();
    bytes::lemma_be_bytes_len(join.listen_port as nat, 2);
    bytes::lemma_byte_limits();
    bytes::lemma_be_value_of_bytes(join.listen_port as nat, 2);
    assert(b.subrange(0, 2) =~= b);
}

/// The payload of a JOIN is the port in two bytes, the more significant first.
pub proof fn law_join_bytes(join: JoinPayload)
    ensures
        join.spec_to_bytes().len() == 2,
        join.listen_port == join.spec_to_bytes()[0] * 0x100 + join.spec_to_bytes()[1],
{
    bytes::lemma_be_bytes_2(join.listen_port as nat);
}

/// The payload of a PEER_LIST packet: the session id and the peers of the session.
#[derive(Clone, Debug)]
pub struct PeerListPayload {
    pub session_id: [u8; 8],
    pub peers: Vec<(u8, PeerAddr)>,
}

/// What a PEER_LIST payload says.
#[verifier::ext_equal]
pub struct PeerListView {
    pub session_id: Seq<u8>,
    pub peers: Seq<(u8, PeerAddr)>,
}

impl View for PeerListPayload {
    type V = PeerListView;

    open spec fn view(&self) -> PeerListView {
        PeerListView { session_id: self.session_id@, peers: self.peers@ }
    }
}

/// The bytes of an address in a PEER_LIST entry: the IP version, the IP address and the port.
pub open spec fn addr_bytes(addr: PeerAddr) -> Seq<u8> {
    match addr {
        PeerAddr::V4 { ip, port } => seq![4u8] + bytes::be_bytes(ip as nat, 4) + bytes::be_bytes(port as nat, 2),
        PeerAddr::V6 { ip, port, .. } => seq![6u8] + bytes::be_bytes(ip as nat, 16) + bytes::be_bytes(
            port as nat,
            2,
        ),
    }
}

/// The bytes of the entries of a PEER_LIST, each the peer id and the address.
pub open spec fn entries_bytes(peers: Seq<(u8, PeerAddr)>) -> Seq<u8>
    decreases peers.len(),
{
    if peers.len() == 0 {
        Seq::empty()
    } else {
        seq![peers[0].0] + addr_bytes(peers[0].1) + entries_bytes(peers.drop_first())
    }
}

/// What a PEER_LIST entry that begins at `at` says, and where it ends.
pub open spec fn parse_entry(data: Seq<u8>, at: int) -> Result<((u8, PeerAddr), int), VoiceError> {
    if at + 2 > data.len() {
        Err(VoiceError::PeerListTruncated)
    } else if data[at + 1] == 4 {
        if at + 8 > data.len() {
            Err(VoiceError::PeerListTruncatedV4)
        } else {
            let ip = bytes::be_value(data.subrange(at + 2, at + 6)) as u32;
            let port = bytes::be_value(data.subrange(at + 6, at + 8)) as u16;
            Ok(((data[at], PeerAddr::V4 { ip, port }), at + 8))
        }
    } else if data[at + 1] == 6 {
        if at + 20 > data.len() {
            Err(VoiceError::PeerListTruncatedV6)
        } else {
            let ip = bytes::be_value(data.subrange(at + 2, at + 18)) as u128;
            let port = bytes::be_value(data.subrange(at + 18, at + 20)) as u16;
            Ok(((data[at], PeerAddr::V6 { ip, port, flowinfo: 0, scope_id: 0 }), at + 20))
        }
    } else {
        Err(VoiceError::UnknownIpVersion { marker: data[at + 1] })
    }
}

/// What the `count` PEER_LIST entries from `at` on say; the first that cannot be read decides
/// the error.
pub open spec fn parse_entries(data: Seq<u8>, at: int, count: nat) -> Result<
    Seq<(u8, PeerAddr)>,
    VoiceError,
>
    decreases count,
{
    if count == 0 {
        Ok(Seq::empty())
    } else {
        match parse_entry(data, at) {
            Err(e) => Err(e),
            Ok((entry, next)) => match parse_entries(data, next, (count - 1) as nat) {
                Err(e) => Err(e),
                Ok(rest) => Ok(seq![entry] + rest),
            },
        }
    }
}

impl PeerListView {
    /// Session id, number of entries in one byte, and the entries.
    pub open spec fn to_bytes(self) -> Seq<u8> {
        self.session_id + seq![(self.peers.len() % 256) as u8] + entries_bytes(self.peers)
    }

    pub open spec fn from_bytes(data: Seq<u8>) -> Result<PeerListView, VoiceError> {
        if data.len() < 9 {
            Err(VoiceError::PeerListTooShort)
        } else {
            match parse_entries(data, 9, data[8] as nat) {
                Err(e) => Err(e),
                Ok(peers) => Ok(PeerListView { session_id: data.subrange(0, 8), peers }),
            }
        }
    }

    /// A list that the wire format can express: the number of entries fits into its byte, and no
    /// IPv6 address carries flow info or a scope id.
    pub open spec fn wf(self) -> bool {
        &&& self.session_id.len() == 8
        &&& self.peers.len() <= 255
        &&& forall|i: int|
            0 <= i < self.peers.len() ==> plain_addr((#[trigger] self.peers[i]).1)
    }
}

/// An address without flow info and scope id.
pub open spec fn plain_addr(addr: PeerAddr) -> bool {
    addr matches PeerAddr::V6 { flowinfo, scope_id, .. } ==> flowinfo == 0 && scope_id == 0
}

proof fn lemma_addr_bytes_len(addr: PeerAddr)
    ensures
        addr is V4 ==> addr_bytes(addr).len() == 7,
        addr is V6 ==> addr_bytes(addr).len() == 19,
{
    match addr {
        PeerAddr::V4 { ip, port } => {
            bytes::lemma_be_bytes_len(ip as nat, 4);
            bytes::lemma_be_bytes_len(port as nat, 2);
        },
        PeerAddr::V6 { ip, port, .. } => {
            bytes::lemma_be_bytes_len(ip as nat, 16);
            bytes::lemma_be_bytes_len(port as nat, 2);
        },
    }
}

proof fn lemma_entries_bytes_push(peers: Seq<(u8, PeerAddr)>, entry: (u8, PeerAddr))
    ensures
        entries_bytes(peers.push(entry)) == entries_bytes(peers) + (seq![entry.0] + addr_bytes(
            entry.1,
        )),
    decreases peers.len(),
{
    let all = peers.push(entry);
    if peers.len() == 0 {
        assert(all.drop_first() =~= peers);
        assert(entries_bytes(peers) =~= Seq::<u8>::empty());
        assert(entries_bytes(all) =~= entries_bytes(peers) + (seq![entry.0] + addr_bytes(entry.1)));
    } else {
        lemma_entries_bytes_push(peers.drop_first(), entry);
        assert(all.drop_first() =~= peers.drop_first().push(entry));
        assert(entries_bytes(all) =~= entries_bytes(peers) + (seq![entry.0] + addr_bytes(entry.1)));
    }
}

/// An entry that was written is read back, wherever it stands.
proof fn lemma_parse_written_entry(data: Seq<u8>, at: int, entry: (u8, PeerAddr))
    requires
        0 <= at,
        plain_addr(entry.1),
        at + 1 + addr_bytes(entry.1).len() <= data.len(),
        data.subrange(at, at + 1 + addr_bytes(entry.1).len()) == seq![entry.0] + addr_bytes(entry.1),
    ensures
        parse_entry(data, at) == Ok::<_, VoiceError>((entry, at + 1 + addr_bytes(entry.1).len())),
{
    let a = addr_bytes(entry.1);
    let w = data.subrange(at, at + 1 + a.len());
    lemma_addr_bytes_len(entry.1);
    bytes::lemma_byte_limits();
    assert(w[0] == data[at]);
    assert(w[1] == data[at + 1]);
    match entry.1 {
        PeerAddr::V4 { ip, port } => {
            bytes::lemma_be_bytes_len(ip as nat, 4);
            bytes::lemma_be_bytes_len(port as nat, 2);
            bytes::lemma_be_value_of_bytes(ip as nat, 4);
            bytes::lemma_be_value_of_bytes(port as nat, 2);
            assert(data.subrange(at + 2, at + 6) =~= w.subrange(2, 6));
            assert(w.subrange(2, 6) =~= bytes::be_bytes(ip as nat, 4));
            assert(data.subrange(at + 6, at + 8) =~= w.subrange(6, 8));
            assert(w.subrange(6, 8) =~= bytes::be_bytes(port as nat, 2));
        },
        PeerAddr::V6 { ip, port, .. } => {
            bytes::lemma_be_bytes_len(ip as nat, 16);
            bytes::lemma_be_bytes_len(port as nat, 2);
            bytes::lemma_be_value_of_bytes(ip as nat, 16);
            bytes::lemma_be_value_of_bytes(port as nat, 2);
            assert(data.subrange(at + 2, at + 18) =~= w.subrange(2, 18));
            assert(w.subrange(2, 18) =~= bytes::be_bytes(ip as nat, 16));
            assert(data.subrange(at + 18, at + 20) =~= w.subrange(18, 20));
            assert(w.subrange(18, 20) =~= bytes::be_bytes(port as nat, 2));
        },
    }
}

proof fn lemma_parse_written_entries(data: Seq<u8>, at: int, peers: Seq<(u8, PeerAddr)>)
    requires
        0 <= at,
        forall|i: int| 0 <= i < peers.len() ==> plain_addr((#[trigger] peers[i]).1),
        at + entries_bytes(peers).len() <= data.len(),
        data.subrange(at, at + entries_bytes(peers).len()) == entries_bytes(peers),
    ensures
        parse_entries(data, at, peers.len()) == Ok::<_, VoiceError>(peers),
    decreases peers.len(),
{
    if peers.len() == 0 {
        assert(peers =~= Seq::empty());
    } else {
        let entry = peers[0];
        let rest = peers.drop_first();
        let one = seq![entry.0] + addr_bytes(entry.1);
        let more = entries_bytes(rest);
        let all = entries_bytes(peers);
        assert(all == one + more);
        let w = data.subrange(at, at + all.len());
        let next = at + one.len();
        assert(data.subrange(at, next) =~= w.subrange(0, one.len() as int));
        assert(w.subrange(0, one.len() as int) =~= one);
        assert(data.subrange(next, next + more.len()) =~= w.subrange(
            one.len() as int,
            all.len() as int,
        ));
        assert(w.subrange(one.len() as int, all.len() as int) =~= more);
        lemma_parse_written_entry(data, at, entry);
        assert forall|i: int| 0 <= i < rest.len() implies plain_addr((#[trigger] rest[i]).1) by {
            assert(rest[i] == peers[i + 1]);
        }
        lemma_parse_written_entries(data, next, rest);
        assert(seq![entry] + rest =~= peers);
    }
}

/// What was read of entries is what their bytes are.
proof fn lemma_read_entries_are_exact(data: Seq<u8>, at: int, count: nat)
    requires
        0 <= at <= data.len(),
        parse_entries(data, at, count) is Ok,
    ensures
        parse_entries(data, at, count)->Ok_0.len() == count,
        at + entries_bytes(parse_entries(data, at, count)->Ok_0).len() <= data.len(),
        data.subrange(at, at + entries_bytes(parse_entries(data, at, count)->Ok_0).len())
            == entries_bytes(parse_entries(data, at, count)->Ok_0),
        forall|i: int|
            0 <= i < count ==> plain_addr(
                (#[trigger] parse_entries(data, at, count)->Ok_0[i]).1,
            ),
    decreases count,
{
    let peers = parse_entries(data, at, count)->Ok_0;
    if count == 0 {
        assert(data.subrange(at, at) =~= entries_bytes(peers));
    } else {
        let (entry, next) = parse_entry(data, at)->Ok_0;
        lemma_read_entries_are_exact(data, next, (count - 1) as nat);
        let rest = parse_entries(data, next, (count - 1) as nat)->Ok_0;
        let one = seq![entry.0] + addr_bytes(entry.1);
        let more = entries_bytes(rest);
        lemma_addr_bytes_len(entry.1);
        bytes::lemma_byte_limits();
        match entry.1 {
            PeerAddr::V4 { .. } => {
                bytes::lemma_be_bytes_of_value(data.subrange(at + 2, at + 6));
                bytes::lemma_be_bytes_of_value(data.subrange(at + 6, at + 8));
                bytes::lemma_be_value_bound(data.subrange(at + 2, at + 6));
                bytes::lemma_be_value_bound(data.subrange(at + 6, at + 8));
                assert(data.subrange(at, next) =~= one);
            },
            PeerAddr::V6 { .. } => {
                bytes::lemma_be_bytes_of_value(data.subrange(at + 2, at + 18));
                bytes::lemma_be_bytes_of_value(data.subrange(at + 18, at + 20));
                bytes::lemma_be_value_bound(data.subrange(at + 2, at + 18));
                bytes::lemma_be_value_bound(data.subrange(at + 18, at + 20));
                assert(data.subrange(at, next) =~= one);
            },
        }
        assert(peers.drop_first() =~= rest);
        assert(entries_bytes(peers) == one + more);
        assert(data.subrange(at, next + more.len()) =~= data.subrange(at, next) + data.subrange(
            next,
            next + more.len(),
        ));
        assert forall|i: int| 0 <= i < count implies plain_addr((#[trigger] peers[i]).1) by {
            if i > 0 {
                assert(peers[i] == rest[i - 1]);
            }
        }
    }
}

/// Reading the bytes of a PEER_LIST gives the list back, with the session id and every entry in
/// order.
pub proof fn law_peer_list_roundtrip(list: PeerListView)
    requires
        list.wf(),
    ensures
        PeerListView::from_bytes(list.to_bytes()) == Ok::<PeerListView, VoiceError>(list),
{
    let data = list.to_bytes();
    assert(data.subrange(9, 9 + entries_bytes(list.peers).len() as int) =~= entries_bytes(list.peers));
    lemma_parse_written_entries(data, 9, list.peers);
    assert(data.subrange(0, 8) =~= list.session_id);
}

/// A byte string is read as a PEER_LIST only if it begins with the bytes of that list, and the
/// list is one that the wire format can express.
pub proof fn law_peer_list_bytes_are_exact(data: Seq<u8>)
    requires
        PeerListView::from_bytes(data) is Ok,
    ensures
        PeerListView::from_bytes(data)->Ok_0.wf(),
        PeerListView::from_bytes(data)->Ok_0.to_bytes().is_prefix_of(data),
{
    let list = PeerListView::from_bytes(data)->Ok_0;
    lemma_read_entries_are_exact(data, 9, data[8] as nat);
    let n = entries_bytes(list.peers).len() as int;
    assert(data.subrange(0, 9 + n) =~= data.subrange(0, 8) + seq![data[8]] + data.subrange(
        9,
        9 + n,
    ));
    assert(list.to_bytes() == data.subrange(0, 9 + n));
}

/// A list of peers is the session id, the number of peers, and the peers one after the other, each
/// its id, 4 or 6 for the version of its IP address, that address, and its port, the most
/// significant byte first.
pub proof fn law_peer_list_layout(session_id: Seq<u8>, id: u8, addr: PeerAddr)
    requires
        session_id.len() == 8,
    ensures
        ({
            let b = PeerListView { session_id, peers: seq![(id, addr)] }.to_bytes();
            let none = PeerListView { session_id, peers: Seq::empty() }.to_bytes();
            &&& none == session_id.push(0)
            &&& b.take(8) == session_id
            &&& b[8] == 1
            &&& b[9] == id
            &&& addr matches PeerAddr::V4 { ip, port } ==> {
                &&& b.len() == 17
                &&& b[10] == 4
                &&& ip == b[11] * 0x100_0000 + b[12] * 0x1_0000 + b[13] * 0x100 + b[14]
                &&& port == b[15] * 0x100 + b[16]
            }
            &&& addr matches PeerAddr::V6 { ip, port, .. } ==> {
                &&& b.len() == 29
                &&& b[10] == 6
                &&& ip == bytes::be_value(b.subrange(11, 27))
                &&& port == b[27] * 0x100 + b[28]
            }
        }),
{
    let peers = seq![(id, addr)];
    let b = PeerListView { session_id, peers }.to_bytes();
    assert(peers.drop_first() =~= Seq::<(u8, PeerAddr)>::empty());
    assert(entries_bytes(peers.drop_first()) =~= Seq::<u8>::empty());
    assert(entries_bytes(peers) =~= seq![id] + addr_bytes(addr));
    lemma_addr_bytes_len(addr);
    assert(b.take(8) =~= session_id);
    assert(PeerListView { session_id, peers: Seq::empty() }.to_bytes() =~= session_id.push(0));
    match addr {
        PeerAddr::V4 { ip, port } => {
            bytes::lemma_be_bytes_4(ip as nat);
            bytes::lemma_be_bytes_2(port as nat);
        },
        PeerAddr::V6 { ip, port, .. } => {
            bytes::lemma_be_bytes_len(ip as nat, 16);
            bytes::lemma_be_bytes_2(port as nat);
            bytes::lemma_byte_limits();
            bytes::lemma_be_value_of_bytes(ip as nat, 16);
            assert(b.subrange(11, 27) =~= bytes::be_bytes(ip as nat, 16));
        },
    }
}

/// The entries of a longer list follow one another, and each is written as it is alone.
pub proof fn law_entries_follow_one_another(
    first: Seq<(u8, PeerAddr)>,
    entry: (u8, PeerAddr),
)
    ensures
        entries_bytes(first.push(entry)) == entries_bytes(first) + entries_bytes(seq![entry]),
{
    lemma_entries_bytes_push(first, entry);
    assert(seq![entry].drop_first() =~= Seq::<(u8, PeerAddr)>::empty());
    assert(entries_bytes(seq![entry].drop_first()) =~= Seq::<u8>::empty());
    assert(entries_bytes(seq![entry]) =~= seq![entry.0] + addr_bytes(entry.1));
}

proof fn lemma_entries_are_short(peers: Seq<(u8, PeerAddr)>)
    ensures
        entries_bytes(peers).len() <= 20 * peers.len(),
    decreases peers.len(),
{
    if peers.len() > 0 {
        lemma_addr_bytes_len(peers[0].1);
        lemma_entries_are_short(peers.drop_first());
    }
}

/// A list of peers takes nine bytes and at most twenty more for every peer.
pub proof fn law_list_is_short(list: PeerListView)
    requires
        list.session_id.len() == 8,
    ensures
        list.to_bytes().len() <= 9 + 20 * list.peers.len(),
{
    lemma_entries_are_short(list.peers);
}

/// The entries read so far, followed by what the rest says.
spec fn prepend(
    done: Seq<(u8, PeerAddr)>,
    rest: Result<Seq<(u8, PeerAddr)>, VoiceError>,
) -> Result<Seq<(u8, PeerAddr)>, VoiceError> {
    match rest {
        Ok(rest) => Ok(done + rest),
        Err(e) => Err(e),
    }
}

/// Appends the bytes of an address.
fn push_addr(buf: &mut Vec<u8>, addr: PeerAddr)
    ensures
        final(buf)@ == old(buf)@ + addr_bytes(addr),
{
    let ghost before = buf@;
    match addr {
        PeerAddr::V4 { ip, port } => {
            buf.push(4);
            bytes::push_be(buf, ip as u128, 4);
            bytes::push_be(buf, port as u128, 2);
        },
        PeerAddr::V6 { ip, port, .. } => {
            buf.push(6);
            bytes::push_be(buf, ip, 16);
            bytes::push_be(buf, port as u128, 2);
        },
    }
    assert(buf@ =~= before + addr_bytes(addr));
}

/// Reads one entry; the result also says where the entry ends.
fn read_entry(data: &[u8], at: usize) -> (res: Result<((u8, PeerAddr), usize), VoiceError>)
    requires
        at <= data@.len(),
    ensures
        match parse_entry(data@, at as int) {
            Ok((entry, next)) => res is Ok && res->Ok_0.0 == entry && res->Ok_0.1 == next && next
                <= data@.len(),
            Err(e) => res == Err::<((u8, PeerAddr), usize), VoiceError>(e),
        },
{
    let len: usize = data.len();
    proof {
        bytes::lemma_byte_limits();
    }
    if len - at < 2 {
        return Err(VoiceError::PeerListTruncated);
    }
    let id: u8 = data[at];
    let marker: u8 = data[at + 1];
    if marker == 4 {
        if len - at < 8 {
            return Err(VoiceError::PeerListTruncatedV4);
        }
        let ip: u128 = bytes::read_be(data, at + 2, 4);
        let port: u128 = bytes::read_be(data, at + 6, 2);
        Ok(((id, PeerAddr::V4 { ip: ip as u32, port: port as u16 }), at + 8))
    } else if marker == 6 {
        if len - at < 20 {
            return Err(VoiceError::PeerListTruncatedV6);
        }
        let ip: u128 = bytes::read_be(data, at + 2, 16);
        let port: u128 = bytes::read_be(data, at + 18, 2);
        Ok(((id, PeerAddr::V6 { ip, port: port as u16, flowinfo: 0, scope_id: 0 }), at + 20))
    } else {
        Err(VoiceError::UnknownIpVersion { marker })
    }
}

impl PeerListPayload {
    /// The bytes of the list.
    pub fn to_bytes(&self) -> (buf: Vec<u8>)
        ensures
            buf@ == self@.to_bytes(),
    {
        let mut buf: Vec<u8> = bytes::copy_of(self.session_id.as_slice());
        let n: usize = self.peers.len();
        buf.push((n % 256) as u8);
        let ghost head = buf@;
        let mut i: usize = 0;
        assert(self.peers@.subrange(0, 0) =~= Seq::<(u8, PeerAddr)>::empty());
        while i < n
            invariant
                i <= n,
                n == self.peers@.len(),
                buf@ == head + entries_bytes(self.peers@.subrange(0, i as int)),
            decreases n - i,
        {
            let entry = self.peers[i];
            buf.push(entry.0);
            push_addr(&mut buf, entry.1);
            proof {
                let done = self.peers@.subrange(0, i as int);
                lemma_entries_bytes_push(done, entry);
                assert(self.peers@.subrange(0, i + 1) =~= done.push(entry));
                assert(buf@ =~= head + entries_bytes(done.push(entry)));
            }
            i = i + 1;
        }
        assert(self.peers@.subrange(0, n as int) =~= self.peers@);
        assert(buf@ =~= self@.to_bytes());
        buf
    }

    /// Reads a list. What follows the last entry is ignored.
    pub fn from_bytes(data: &[u8]) -> (res: Result<Self, VoiceError>)
        ensures
            agrees(res, PeerListView::from_bytes(data@)),
    {
        if data.len() < 9 {
            return Err(VoiceError::PeerListTooShort);
        }
        let session_id: [u8; 8] = bytes::array_8(data, 0);
        let count: usize = data[8] as usize;
        let mut peers: Vec<(u8, PeerAddr)> = Vec::new();
        let mut at: usize = 9;
        let mut i: usize = 0;
        proof {
            let all = parse_entries(data@, 9, count as nat);
            assert(all is Ok ==> Seq::empty() + all->Ok_0 =~= all->Ok_0);
        }
        while i < count
            invariant
                i <= count == data@[8],
                9 <= at <= data@.len(),
                parse_entries(data@, 9, count as nat) == prepend(
                    peers@,
                    parse_entries(data@, at as int, (count - i) as nat),
                ),
            decreases count - i,
        {
            match read_entry(data, at) {
                Err(e) => {
                    return Err(e);
                },
                Ok((entry, next)) => {
                    proof {
                        let rest = parse_entries(data@, next as int, (count - i - 1) as nat);
                        if rest is Ok {
                            assert(peers@ + (seq![entry] + rest->Ok_0) =~= peers@.push(entry)
                                + rest->Ok_0);
                        }
                    }
                    peers.push(entry);
                    at = next;
                },
            }
            i = i + 1;
        }
        assert(peers@ + Seq::<(u8, PeerAddr)>::empty() =~= peers@);
        Ok(PeerListPayload { session_id, peers })
    }
}

} // verus!
