//! X25519 key exchange, for a key per pair of peers that the passphrase does not give away.
use vstd::prelude::*;

use crate::bytes;
use crate::error::VoiceError;

verus! {

/// The error of the `hkdf` crate.
#[verifier::external_type_specification]
#[verifier::external_body]
pub struct ExInvalidLength(hkdf::InvalidLength);

/// The X25519 public key of a secret key.
pub uninterp spec fn x25519_public(secret: Seq<u8>) -> Seq<u8>;

/// The X25519 shared secret of a secret key and another party's public key.
pub uninterp spec fn x25519_shared(secret: Seq<u8>, public: Seq<u8>) -> Seq<u8>;

/// The first 32 bytes that HKDF-SHA256 gives for a salt, input key material and an info string.
pub uninterp spec fn hkdf_sha256(salt: Seq<u8>, ikm: Seq<u8>, info: Seq<u8>) -> Seq<u8>;

/// `x25519_dalek::StaticSecret::random_from_rng` with `rand::thread_rng`.
///
/// Trusted: nothing. Any 32 bytes can come out.
#[verifier::external_body]
fn random_secret() -> (secret: [u8; 32]) {
    x25519_dalek::StaticSecret::random_from_rng(rand::thread_rng()).to_bytes()
}

/// `x25519_dalek::PublicKey::from` of a `StaticSecret`.
///
/// Trusted: the public key depends on the secret key alone.
#[verifier::external_body]
fn public_key(secret: &[u8; 32]) -> (public: [u8; 32])
    ensures
        public@ == x25519_public(secret@),
{
    x25519_dalek::PublicKey::from(&x25519_dalek::StaticSecret::from(*secret)).to_bytes()
}

/// `x25519_dalek::StaticSecret::diffie_hellman`.
///
/// Trusted: the shared secret depends on the two keys alone, and the owner of the public key gets
/// the same one from our public key.
#[verifier::external_body]
fn shared_secret(secret: &[u8; 32], public: &[u8; 32]) -> (shared: [u8; 32])
    ensures
        shared@ == x25519_shared(secret@, public@),
        forall|other: Seq<u8>|
            other.len() == 32 && public@ == #[trigger] x25519_public(other) ==> shared@
                == x25519_shared(other, x25519_public(secret@)),
{
    let public = x25519_dalek::PublicKey::from(*public);
    x25519_dalek::StaticSecret::from(*secret).diffie_hellman(&public).to_bytes()
}

/// `hkdf::Hkdf::<sha2::Sha256>::expand` into 32 bytes.
///
/// Trusted: it succeeds, and the output depends on salt, input key material and info alone.
#[verifier::external_body]
fn expand_key(salt: &[u8; 8], ikm: &[u8; 32], info: &[u8]) -> (res: Result<
    [u8; 32],
    hkdf::InvalidLength,
>)
    ensures
        res is Ok,
        res->Ok_0@ == hkdf_sha256(salt@, ikm@, info@),
{
    let mut key = [0u8; 32];
    hkdf::Hkdf::<sha2::Sha256>::new(Some(salt), ikm).expand(info, &mut key)?;
    Ok(key)
}

/// The HKDF info string of a pair of peers: `voicechat-audio`, the lower id, the higher id.
pub open spec fn spec_peer_key_info(local_id: u8, peer_id: u8) -> Seq<u8> {
    seq![118u8, 111, 105, 99, 101, 99, 104, 97, 116, 45, 97, 117, 100, 105, 111] + if local_id
        < peer_id {
        seq![local_id, peer_id]
    } else {
        seq![peer_id, local_id]
    }
}

/// The HKDF info string of a pair of peers. It is the same on both sides.
pub fn peer_key_info(local_id: u8, peer_id: u8) -> (info: Vec<u8>)
    ensures
        info@ == spec_peer_key_info(local_id, peer_id),
        info@ == spec_peer_key_info(peer_id, local_id),
{
    let label: [u8; 15] = [
        118u8,
        111,
        105,
        99,
        101,
        99,
        104,
        97,
        116,
        45,
        97,
        117,
        100,
        105,
        111,
    ];
    let mut info: Vec<u8> = bytes::copy_of(label.as_slice());
    if local_id < peer_id {
        info.push(local_id);
        info.push(peer_id);
    } else {
        info.push(peer_id);
        info.push(local_id);
    }
    proof {
        assert(info@ =~= spec_peer_key_info(local_id, peer_id));
        assert(info@ =~= spec_peer_key_info(peer_id, local_id));
    }
    info
}

/// The key of a pair of peers, given what they share. A shared secret of zeros, which only a bad
/// public key leads to, gives none.
pub open spec fn spec_key_from_shared(
    shared: Seq<u8>,
    session_id: Seq<u8>,
    local_id: u8,
    peer_id: u8,
) -> Result<Seq<u8>, VoiceError> {
    if forall|i: int| 0 <= i < shared.len() ==> shared[i] == 0 {
        Err(VoiceError::BadPublicKey)
    } else {
        Ok(hkdf_sha256(session_id, shared, spec_peer_key_info(local_id, peer_id)))
    }
}

/// The key of a pair of peers, given what they share.
pub fn key_from_shared(
    shared: &[u8; 32],
    session_id: &[u8; 8],
    local_id: u8,
    peer_id: u8,
) -> (res: Result<[u8; 32], VoiceError>)
    ensures
        match spec_key_from_shared(shared@, session_id@, local_id, peer_id) {
            Ok(key) => res is Ok && res->Ok_0@ == key,
            Err(e) => res == Err::<[u8; 32], VoiceError>(e),
        },
{
    let mut zero: bool = true;
    let mut i: usize = 0;
    while i < 32
        invariant
            i <= 32,
            zero == (forall|j: int| 0 <= j < i ==> shared@[j] == 0),
        decreases 32 - i,
    {
        if shared[i] != 0 {
            zero = false;
        }
        i = i + 1;
    }
    if zero {
        return Err(VoiceError::BadPublicKey);
    }
    let info: Vec<u8> = peer_key_info(local_id, peer_id);
    match expand_key(session_id, shared, info.as_slice()) {
        Ok(key) => Ok(key),
        Err(_) => Err(VoiceError::KeyDerivation),
    }
}

/// The key that the owner of a secret key has with the owner of a public key.
pub open spec fn spec_peer_key(
    secret: Seq<u8>,
    public: Seq<u8>,
    session_id: Seq<u8>,
    local_id: u8,
    peer_id: u8,
) -> Result<Seq<u8>, VoiceError> {
    spec_key_from_shared(x25519_shared(secret, public), session_id, local_id, peer_id)
}

/// A key pair, made anew for every session.
pub struct KeyExchange {
    secret: [u8; 32],
    public: [u8; 32],
}

impl View for KeyExchange {
    type V = Seq<u8>;

    /// The secret key.
    closed spec fn view(&self) -> Seq<u8> {
        self.secret@
    }
}

impl Default for KeyExchange {
    fn default() -> (kx: Self)
        ensures
            kx@.len() == 32,
            kx.spec_public() == x25519_public(kx@),
            kx.spec_public().len() == 32,
    {
        KeyExchange::new()
    }
}

impl KeyExchange {
    #[verifier::type_invariant]
    spec fn inv(self) -> bool {
        self.public@ == x25519_public(self.secret@)
    }

    /// The public key.
    pub closed spec fn spec_public(self) -> Seq<u8> {
        self.public@
    }

    /// A fresh random key pair.
    pub fn new() -> (kx: Self)
        ensures
            kx@.len() == 32,
            kx.spec_public() == x25519_public(kx@),
            kx.spec_public().len() == 32,
    {
        KeyExchange::from_secret(random_secret())
    }

    /// The key pair of a secret key.
    pub fn from_secret(secret: [u8; 32]) -> (kx: Self)
        ensures
            kx@ == secret@,
            kx.spec_public() == x25519_public(kx@),
            kx.spec_public().len() == 32,
    {
        let public: [u8; 32] = public_key(&secret);
        KeyExchange { secret, public }
    }

    /// The public key, to be sent to the peers.
    pub fn public_key_bytes(&self) -> (public: [u8; 32])
        ensures
            self@.len() == 32,
            public@ == x25519_public(self@),
            public@ == self.spec_public(),
    {
        proof {
            use_type_invariant(self);
        }
        self.public
    }

    /// Derives the key that we have with a peer from the peer's public key: X25519, then
    /// HKDF-SHA256 with the session id as salt and both ids in the info string.
    ///
    /// The peer derives the same key, or fails in the same way, from our public key.
    pub fn derive_peer_key(
        &self,
        peer_public_bytes: &[u8; 32],
        session_id: &[u8; 8],
        local_id: u8,
        peer_id: u8,
    ) -> (res: Result<[u8; 32], VoiceError>)
        ensures
            match spec_peer_key(self@, peer_public_bytes@, session_id@, local_id, peer_id) {
                Ok(key) => res is Ok && res->Ok_0@ == key,
                Err(e) => res == Err::<[u8; 32], VoiceError>(e),
            },
            forall|other: Seq<u8>|
                other.len() == 32 && peer_public_bytes@ == #[trigger] x25519_public(other)
                    ==> spec_peer_key(self@, peer_public_bytes@, session_id@, local_id, peer_id)
                    == spec_peer_key(other, x25519_public(self@), session_id@, peer_id, local_id),
            forall|other: KeyExchange|
                peer_public_bytes@ == #[trigger] x25519_public(other@) ==> spec_peer_key(
                    self@,
                    peer_public_bytes@,
                    session_id@,
                    local_id,
                    peer_id,
                ) == spec_peer_key(other@, x25519_public(self@), session_id@, peer_id, local_id),
    {
        let shared: [u8; 32] = shared_secret(&self.secret, peer_public_bytes);
        let res = key_from_shared(&shared, session_id, local_id, peer_id);
        proof {
            assert(spec_peer_key_info(local_id, peer_id) =~= spec_peer_key_info(peer_id, local_id));
            assert forall|other: KeyExchange|
                peer_public_bytes@ == #[trigger] x25519_public(other@) implies spec_peer_key(
                self@,
                peer_public_bytes@,
                session_id@,
                local_id,
                peer_id,
            ) == spec_peer_key(other@, x25519_public(self@), session_id@, peer_id, local_id) by {
                assert(other@.len() == 32);
            }
        }
        res
    }
}

/// The payload of a KEY_EXCHANGE packet: a public key.
#[derive(Clone, Copy, Debug)]
pub struct KeyExchangePayload {
    pub public_key: [u8; 32],
}

impl View for KeyExchangePayload {
    type V = Seq<u8>;

    /// The public key.
    open spec fn view(&self) -> Seq<u8> {
        self.public_key@
    }
}

impl KeyExchangePayload {
    /// The public key in the first 32 bytes.
    pub open spec fn spec_from_bytes(data: Seq<u8>) -> Result<Seq<u8>, VoiceError> {
        if data.len() < 32 {
            Err(VoiceError::KeyExchangeTooShort { len: data.len() as usize })
        } else {
            Ok(data.subrange(0, 32))
        }
    }

    /// The bytes of the public key.
    pub fn to_bytes(&self) -> (buf: Vec<u8>)
        ensures
            buf@ == self@,
    {
        bytes::copy_of(self.public_key.as_slice())
    }

    /// Reads the public key in the first 32 bytes.
    pub fn from_bytes(data: &[u8]) -> (res: Result<Self, VoiceError>)
        ensures
            crate::net::agrees(res, KeyExchangePayload::spec_from_bytes(data@)),
    {
        if data.len() < 32 {
            return Err(VoiceError::KeyExchangeTooShort { len: data.len() });
        }
        Ok(KeyExchangePayload { public_key: bytes::array_32(data, 0) })
    }
}

/// Reading the bytes of a KEY_EXCHANGE payload gives the public key back.
pub proof fn law_key_exchange_payload_roundtrip(payload: KeyExchangePayload)
    ensures
        KeyExchangePayload::spec_from_bytes(payload@) == Ok::<Seq<u8>, VoiceError>(payload@),
{
    assert(payload@.subrange(0, 32) =~= payload@);
}

} // verus!
