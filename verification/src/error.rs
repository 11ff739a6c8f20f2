//! Everything that can go wrong in the library.
use vstd::prelude::*;

verus! {

/// Why a packet, a payload or a request was turned down.
#[derive(Clone, Copy, Debug, PartialEq, Eq, Structural)]
pub enum VoiceError {
    /// Fewer bytes than a packet header takes.
    HeaderTooShort { len: usize },
    /// A datagram with less than a whole header.
    PacketTooShort { len: usize },
    /// A JOIN payload without a whole port.
    JoinTooShort,
    /// A PEER_LIST payload without session id and count.
    PeerListTooShort,
    /// A PEER_LIST payload that ends before an entry's address marker.
    PeerListTruncated,
    /// A PEER_LIST payload that ends inside an IPv4 address.
    PeerListTruncatedV4,
    /// A PEER_LIST payload that ends inside an IPv6 address.
    PeerListTruncatedV6,
    /// A PEER_LIST entry whose address is neither IPv4 nor IPv6.
    UnknownIpVersion { marker: u8 },
    /// A PEER_LIST without entries.
    EmptyPeerList,
    /// A PING or PONG payload without a whole ping id.
    PingTooShort,
    /// A KEY_EXCHANGE payload without a whole public key.
    KeyExchangeTooShort { len: usize },
    /// A passphrase too long for Argon2.
    PassphraseTooLong,
    /// Every counter value of a crypto context has been used.
    CounterExhausted,
    /// A payload too long to be encrypted.
    EncryptFailed,
    /// A ciphertext that is not authentic under the key, the nonce and the header.
    DecryptFailed,
    /// A public key with which the shared secret is zero.
    BadPublicKey,
    /// HKDF refused to give the key.
    KeyDerivation,
    /// No room for another remote peer.
    MaxPeersReached,
    /// Only the host hands out peer ids.
    OnlyHostAllocates,
    /// The host has handed out every peer id.
    NoPeerIdLeft,
    /// A JOIN packet at a node that is not the host.
    NonHostJoin,
    /// The address under which peers can reach us is not known.
    NoLocalAddress,
    /// An audio packet that was already accepted, or is too old to tell.
    ReplayDetected { peer_id: u8 },
    /// A packet type that the protocol does not have.
    UnknownPacketType { pkt_type: u8 },
    /// An audio frame of the wrong length.
    WrongFrameLen { len: usize },
}

} // verus!
