//! Whole packets: a header in the clear, and a payload that is encrypted with it.
use vstd::prelude::*;

use crate::crypto;
use crate::crypto::{CryptoContext, CryptoView, Direction};
use crate::error::VoiceError;
use crate::net;
use crate::net::{PacketHeader, HEADER_LEN};

verus! {

/// The header of a packet that is long enough to have one.
pub open spec fn header_of(wire: Seq<u8>) -> PacketHeader {
    PacketHeader::spec_from_bytes(wire.subrange(0, HEADER_LEN as int))->Ok_0
}

/// The packet with a header and a payload.
pub open spec fn sealed(ctx: CryptoView, header: PacketHeader, payload: Seq<u8>) -> Result<
    Seq<u8>,
    VoiceError,
> {
    match ctx.encrypt(
        header.spec_to_bytes(),
        payload,
        header.peer_id,
        header.seq_num,
        header.counter,
    ) {
        Ok(ciphertext) => Ok(header.spec_to_bytes() + ciphertext),
        Err(e) => Err(e),
    }
}

/// The payload of a packet that is long enough to have a header.
pub open spec fn opened(ctx: CryptoView, wire: Seq<u8>) -> Result<Seq<u8>, VoiceError> {
    ctx.decrypt(
        wire.subrange(0, HEADER_LEN as int),
        wire.subrange(HEADER_LEN as int, wire.len() as int),
        header_of(wire).peer_id,
        header_of(wire).seq_num,
        header_of(wire).counter,
    )
}

/// That a packet has a header, and that everyone with a key and a session id reads a payload in
/// it.
pub open spec fn reads_as(
    wire: Seq<u8>,
    key: Seq<u8>,
    session_id: Seq<u8>,
    header: PacketHeader,
    payload: Seq<u8>,
) -> bool {
    &&& wire.len() >= HEADER_LEN
    &&& header_of(wire) == header
    &&& forall|rx: CryptoView|
        rx.key == key && rx.session_id == session_id ==> #[trigger] opened(rx, wire) == Ok::<
            Seq<u8>,
            VoiceError,
        >(payload)
}

/// Whoever has the key and the session id opens a packet that reads as something to just that.
pub proof fn law_reader_opens(
    wire: Seq<u8>,
    rx: CryptoView,
    header: PacketHeader,
    payload: Seq<u8>,
)
    requires
        reads_as(wire, rx.key, rx.session_id, header, payload),
    ensures
        header_of(wire) == header,
        wire.len() >= 8,
        opened(rx, wire) == Ok::<Seq<u8>, VoiceError>(payload),
{
}

/// A packet is the bytes of its header and then the payload, encrypted under the key of the context
/// with these bytes and with the nonce that the session id, the sender's id, the sequence number
/// and the counter make; and it is opened in the same way.
pub proof fn law_packet_layout(ctx: CryptoView, header: PacketHeader, payload: Seq<u8>, wire: Seq<u8>)
    requires
        payload.len() <= 0x3f_ffff_ff80,
        wire.len() >= 8,
    ensures
        sealed(ctx, header, payload) == Ok::<Seq<u8>, VoiceError>(
            header.spec_to_bytes() + crypto::xchacha_seal(
                ctx.key,
                crypto::nonce_bytes(
                    ctx.session_id,
                    header.peer_id,
                    Direction::Send,
                    header.seq_num,
                    header.counter,
                ),
                header.spec_to_bytes(),
                payload,
            ),
        ),
        header_of(wire).spec_to_bytes() == wire.take(8),
        wire.len() <= 0x3f_ffff_ff90 ==> opened(ctx, wire) == (match crypto::xchacha_open(
            ctx.key,
            crypto::nonce_bytes(
                ctx.session_id,
                header_of(wire).peer_id,
                Direction::Send,
                header_of(wire).seq_num,
                header_of(wire).counter,
            ),
            wire.take(8),
            wire.skip(8),
        ) {
            Some(payload) => Ok::<Seq<u8>, VoiceError>(payload),
            None => Err(VoiceError::DecryptFailed),
        }),
{
    net::law_header_bytes_are_exact(wire.subrange(0, 8));
    assert(wire.subrange(0, 8) =~= wire.take(8));
    assert(wire.subrange(8, wire.len() as int) =~= wire.skip(8));
}

/// Makes a packet. The nonce takes peer id, sequence number and counter from the header.
///
/// Everyone with the same key and session id reads the header and the payload in it.
pub fn seal_packet(ctx: &CryptoContext, header: PacketHeader, payload: &[u8]) -> (res: Result<
    Vec<u8>,
    VoiceError,
>)
    ensures
        net::agrees(res, sealed(ctx@, header, payload@)),
        res matches Ok(wire) ==> reads_as(
            wire@,
            ctx@.key,
            ctx@.session_id,
            header,
            payload@,
        ),
{
    let header_bytes: [u8; 8] = header.to_bytes();
    match ctx.encrypt(
        &header_bytes,
        payload,
        header.peer_id,
        header.seq_num,
        header.counter,
    ) {
        Ok(ciphertext) => {
            let wire: Vec<u8> = net::build_wire_packet(&header_bytes, ciphertext.as_slice());
            proof {
                net::law_wire_roundtrip(header_bytes@, ciphertext@);
                net::law_header_roundtrip(header);
                assert forall|rx: CryptoView|
                    rx.key == ctx@.key && rx.session_id == ctx@.session_id implies #[trigger] opened(
                    rx,
                    wire@,
                ) == Ok::<Seq<u8>, VoiceError>(payload@) by {
                    assert(rx.same_key(ctx@));
                    assert(rx.decrypt(
                        header_bytes@,
                        ciphertext@,
                        header.peer_id,
                        header.seq_num,
                        header.counter,
                    ) == Ok::<Seq<u8>, VoiceError>(payload@));
                }
            }
            Ok(wire)
        },
        Err(e) => Err(e),
    }
}

/// Reads the header of a packet.
pub fn read_header(wire: &[u8]) -> (res: Result<PacketHeader, VoiceError>)
    ensures
        if wire@.len() < HEADER_LEN {
            res == Err::<PacketHeader, VoiceError>(
                VoiceError::PacketTooShort { len: wire@.len() as usize },
            )
        } else {
            res == Ok::<PacketHeader, VoiceError>(header_of(wire@))
        },
{
    match net::parse_wire_packet(wire) {
        Ok((header_bytes, _)) => PacketHeader::from_bytes(header_bytes.as_slice()),
        Err(e) => Err(e),
    }
}

/// Reads the payload of a packet, if it is authentic under the key of a context.
pub fn open_packet(ctx: &CryptoContext, wire: &[u8]) -> (res: Result<Vec<u8>, VoiceError>)
    ensures
        if wire@.len() < HEADER_LEN {
            res == Err::<Vec<u8>, VoiceError>(
                VoiceError::PacketTooShort { len: wire@.len() as usize },
            )
        } else {
            net::agrees(res, opened(ctx@, wire@))
        },
{
    match net::parse_wire_packet(wire) {
        Ok((header_bytes, ciphertext)) => match PacketHeader::from_bytes(header_bytes.as_slice()) {
            Ok(header) => ctx.decrypt(
                &header_bytes,
                ciphertext,
                header.peer_id,
                header.seq_num,
                header.counter,
            ),
            Err(e) => Err(e),
        },
        Err(e) => Err(e),
    }
}

} // verus!
