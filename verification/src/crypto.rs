//! Packet encryption with XChaCha20-Poly1305, the passphrase key, and replay protection.
use chacha20poly1305::aead::{Aead, KeyInit, Payload};
use vstd::prelude::*;

use crate::bytes;
use crate::error::VoiceError;

verus! {

/// Bytes that encryption adds to a payload.
pub const AUTH_TAG_LEN: usize = 16;

/// Counters below the highest accepted one by this much or more are too old to be accepted.
pub const SLIDING_WINDOW_SIZE: u64 = 64;

/// The longest payload that one key stream of ChaCha20 covers: 64 bytes for each value of its
/// block counter but the first and the last.
pub const MAX_PLAINTEXT_LEN: u64 = 0x3f_ffff_ff80;

/// Argon2id memory cost in KiB.
pub const ARGON2_MEMORY_KIB: u32 = 65536;

/// Argon2id number of passes.
pub const ARGON2_PASSES: u32 = 3;

/// Argon2id degree of parallelism.
pub const ARGON2_LANES: u32 = 1;

/// The error of the `argon2` crate.
#[verifier::external_type_specification]
#[verifier::external_body]
pub struct ExArgon2Error(argon2::Error);

/// The error of the `aead` crate.
#[verifier::external_type_specification]
#[verifier::external_body]
pub struct ExAeadError(chacha20poly1305::aead::Error);

/// The 32-byte Argon2id hash, version 0x13, without secret and associated data, of a password and
/// a salt, with a memory cost in KiB, a number of passes and a degree of parallelism.
pub uninterp spec fn argon2id_hash(
    password: Seq<u8>,
    salt: Seq<u8>,
    memory_kib: u32,
    passes: u32,
    lanes: u32,
) -> Seq<u8>;

/// The ciphertext and tag that XChaCha20-Poly1305 gives for a key, a nonce, associated data and a
/// message.
pub uninterp spec fn xchacha_seal(
    key: Seq<u8>,
    nonce: Seq<u8>,
    aad: Seq<u8>,
    msg: Seq<u8>,
) -> Seq<u8>;

/// The message in a ciphertext with tag, or `None` if it is not authentic.
pub uninterp spec fn xchacha_open(
    key: Seq<u8>,
    nonce: Seq<u8>,
    aad: Seq<u8>,
    ciphertext: Seq<u8>,
) -> Option<Seq<u8>>;

/// `argon2::Argon2::hash_password_into` with the algorithm Argon2id, version 0x13 and an output of
/// 32 bytes.
///
/// Trusted: with a salt and parameters in the ranges below, it fails exactly on passwords of more
/// than 2^32 - 1 bytes, and the output depends on the arguments alone.
#[verifier::external_body]
fn hash_password(
    password: &[u8],
    salt: &[u8],
    memory_kib: u32,
    passes: u32,
    lanes: u32,
) -> (res: Result<[u8; 32], argon2::Error>)
    requires
        8 <= salt@.len() <= 0xffff_ffff,
        1 <= lanes,
        8 * lanes <= memory_kib <= 65536,
        1 <= passes,
    ensures
        match res {
            Ok(key) => password@.len() <= 0xffff_ffff && key@ == argon2id_hash(
                password@,
                salt@,
                memory_kib,
                passes,
                lanes,
            ),
            Err(_) => password@.len() > 0xffff_ffff,
        },
{
    let params = argon2::Params::new(memory_kib, passes, lanes, Some(32))?;
    let argon = argon2::Argon2::new(argon2::Algorithm::Argon2id, argon2::Version::V0x13, params);
    let mut key = [0u8; 32];
    argon.hash_password_into(password, salt, &mut key)?;
    Ok(key)
}

/// `chacha20poly1305::XChaCha20Poly1305::encrypt`.
///
/// Trusted: within the length limit it succeeds, the result depends on the arguments alone, is 16
/// bytes longer than the message, and is opened again under the same key, nonce and associated
/// data to the message.
#[verifier::external_body]
fn aead_encrypt(key: &[u8; 32], nonce: &[u8; 24], aad: &[u8; 8], msg: &[u8]) -> (res: Result<
    Vec<u8>,
    chacha20poly1305::aead::Error,
>)
    requires
        msg@.len() <= MAX_PLAINTEXT_LEN,
    ensures
        res is Ok,
        res->Ok_0@ == xchacha_seal(key@, nonce@, aad@, msg@),
        res->Ok_0@.len() == msg@.len() + AUTH_TAG_LEN,
        xchacha_open(key@, nonce@, aad@, res->Ok_0@) == Some(msg@),
{
    let cipher = chacha20poly1305::XChaCha20Poly1305::new(key.into());
    cipher.encrypt(chacha20poly1305::XNonce::from_slice(nonce), Payload { msg, aad })
}

/// `chacha20poly1305::XChaCha20Poly1305::decrypt`.
///
/// Trusted: within the length limit the result depends on the arguments alone, and a message is
/// returned only if encrypting it under the same key, nonce and associated data gives the
/// ciphertext.
#[verifier::external_body]
fn aead_decrypt(key: &[u8; 32], nonce: &[u8; 24], aad: &[u8; 8], ciphertext: &[u8]) -> (res: Result<
    Vec<u8>,
    chacha20poly1305::aead::Error,
>)
    requires
        ciphertext@.len() <= MAX_PLAINTEXT_LEN + AUTH_TAG_LEN,
    ensures
        match res {
            Ok(msg) => {
                &&& xchacha_open(key@, nonce@, aad@, ciphertext@) == Some(msg@)
                &&& ciphertext@ == xchacha_seal(key@, nonce@, aad@, msg@)
                &&& ciphertext@.len() == msg@.len() + AUTH_TAG_LEN
            },
            Err(_) => xchacha_open(key@, nonce@, aad@, ciphertext@) is None,
        },
{
    let cipher = chacha20poly1305::XChaCha20Poly1305::new(key.into());
    cipher.decrypt(chacha20poly1305::XNonce::from_slice(nonce), Payload { msg: ciphertext, aad })
}

/// The fixed salt: the bytes of `voicechat-v1`.
pub open spec fn passphrase_salt() -> Seq<u8> {
    seq![118u8, 111, 105, 99, 101, 99, 104, 97, 116, 45, 118, 49]
}

/// The key that everyone who knows the passphrase has.
pub open spec fn passphrase_key(passphrase: Seq<u8>) -> Seq<u8> {
    argon2id_hash(
        passphrase,
        passphrase_salt(),
        ARGON2_MEMORY_KIB,
        ARGON2_PASSES,
        ARGON2_LANES,
    )
}

/// Derives the 256-bit session key from a passphrase, with Argon2id over its UTF-8 bytes.
pub fn derive_key_from_passphrase(passphrase: &str) -> (res: Result<[u8; 32], VoiceError>)
    ensures
        match res {
            Ok(key) => vstd::utf8::encode_utf8(passphrase@).len() <= 0xffff_ffff && key@ == passphrase_key(
                vstd::utf8::encode_utf8(passphrase@),
            ),
            Err(e) => vstd::utf8::encode_utf8(passphrase@).len() > 0xffff_ffff && e == VoiceError::PassphraseTooLong,
        },
{
    let salt: [u8; 12] = [118u8, 111, 105, 99, 101, 99, 104, 97, 116, 45, 118, 49];
    assert(salt@ =~= passphrase_salt());
    match hash_password(
        passphrase.as_bytes(),
        salt.as_slice(),
        ARGON2_MEMORY_KIB,
        ARGON2_PASSES,
        ARGON2_LANES,
    ) {
        Ok(key) => Ok(key),
        Err(_) => Err(VoiceError::PassphraseTooLong),
    }
}

/// Which way a packet goes, seen from the peer whose id is in the nonce.
#[derive(Clone, Copy, Debug, PartialEq, Eq, Structural)]
pub enum Direction {
    Send,
    Recv,
}

impl Direction {
    pub open spec fn spec_byte(self) -> u8 {
        match self {
            Direction::Send => 0,
            Direction::Recv => 1,
        }
    }

    /// The byte that stands for the direction in a nonce.
    pub fn byte(self) -> (b: u8)
        ensures
            b == self.spec_byte(),
    {
        match self {
            Direction::Send => 0,
            Direction::Recv => 1,
        }
    }
}

/// The 24 bytes of a nonce: session id, peer id, direction, sequence number, counter, and eight
/// zero bytes.
pub open spec fn nonce_bytes(
    session_id: Seq<u8>,
    peer_id: u8,
    direction: Direction,
    seq_num: u16,
    counter: u32,
) -> Seq<u8> {
    session_id + seq![peer_id, direction.spec_byte()] + bytes::be_bytes(seq_num as nat, 2)
        + bytes::be_bytes(counter as nat, 4) + seq![0u8, 0, 0, 0, 0, 0, 0, 0]
}

/// Builds the nonce of a packet.
pub fn build_nonce(
    session_id: &[u8; 8],
    peer_id: u8,
    direction: Direction,
    seq_num: u16,
    counter: u32,
) -> (nonce: [u8; 24])
    ensures
        nonce@ == nonce_bytes(session_id@, peer_id, direction, seq_num, counter),
{
    let s: u16 = seq_num;
    let c: u32 = counter;
    let mut nonce: [u8; 24] = [0u8; 24];
    let mut i: usize = 0;
    while i < 8
        invariant
            i <= 8,
            forall|j: int| 0 <= j < i ==> nonce@[j] == session_id@[j],
            forall|j: int| 8 <= j < 24 ==> nonce@[j] == 0,
        decreases 8 - i,
    {
        nonce[i] = session_id[i];
        i = i + 1;
    }
    nonce[8] = peer_id;
    nonce[9] = direction.byte();
    nonce[10] = ((s / 256) % 256) as u8;
    nonce[11] = (s % 256) as u8;
    nonce[12] = ((c / 0x100_0000) % 256) as u8;
    nonce[13] = ((c / 0x1_0000) % 256) as u8;
    nonce[14] = ((c / 256) % 256) as u8;
    nonce[15] = (c % 256) as u8;
    proof {
        bytes::lemma_be_bytes_2(s as nat);
        bytes::lemma_be_bytes_4(c as nat);
        assert(nonce@ =~= nonce_bytes(session_id@, peer_id, direction, seq_num, counter));
    }
    nonce
}

/// Two packets have the same nonce only if they agree in session, peer, direction, sequence
/// number and counter.
pub proof fn law_nonce_is_injective(
    session_a: Seq<u8>,
    peer_a: u8,
    direction_a: Direction,
    seq_a: u16,
    counter_a: u32,
    session_b: Seq<u8>,
    peer_b: u8,
    direction_b: Direction,
    seq_b: u16,
    counter_b: u32,
)
    requires
        nonce_bytes(session_a, peer_a, direction_a, seq_a, counter_a) == nonce_bytes(
            session_b,
            peer_b,
            direction_b,
            seq_b,
            counter_b,
        ),
    ensures
        session_a == session_b,
        peer_a == peer_b,
        direction_a == direction_b,
        seq_a == seq_b,
        counter_a == counter_b,
{
    let a = nonce_bytes(session_a, peer_a, direction_a, seq_a, counter_a);
    let b = nonce_bytes(session_b, peer_b, direction_b, seq_b, counter_b);
    bytes::lemma_byte_limits();
    bytes::lemma_be_bytes_len(seq_a as nat, 2);
    bytes::lemma_be_bytes_len(seq_b as nat, 2);
    bytes::lemma_be_bytes_len(counter_a as nat, 4);
    bytes::lemma_be_bytes_len(counter_b as nat, 4);
    bytes::lemma_be_value_of_bytes(seq_a as nat, 2);
    bytes::lemma_be_value_of_bytes(seq_b as nat, 2);
    bytes::lemma_be_value_of_bytes(counter_a as nat, 4);
    bytes::lemma_be_value_of_bytes(counter_b as nat, 4);
    let n = session_a.len() as int;
    assert(a.len() == n + 16 && b.len() == session_b.len() + 16);
    assert(a.subrange(0, n) =~= session_a);
    assert(b.subrange(0, n) =~= session_b);
    assert(a[n] == peer_a && b[n] == peer_b);
    assert(a[n + 1] == direction_a.spec_byte() && b[n + 1] == direction_b.spec_byte());
    assert(a.subrange(n + 2, n + 4) =~= bytes::be_bytes(seq_a as nat, 2));
    assert(b.subrange(n + 2, n + 4) =~= bytes::be_bytes(seq_b as nat, 2));
    assert(a.subrange(n + 4, n + 8) =~= bytes::be_bytes(counter_a as nat, 4));
    assert(b.subrange(n + 4, n + 8) =~= bytes::be_bytes(counter_b as nat, 4));
}

/// A nonce of a session with an id of eight bytes has 24: the session id, the id of the sender, the
/// direction, two bytes of sequence number, four of counter, the most significant first, and zeros.
pub proof fn law_nonce_layout(
    session_id: Seq<u8>,
    peer_id: u8,
    direction: Direction,
    seq_num: u16,
    counter: u32,
)
    requires
        session_id.len() == 8,
    ensures
        ({
            let b = nonce_bytes(session_id, peer_id, direction, seq_num, counter);
            &&& b.len() == 24
            &&& b.take(8) == session_id
            &&& b[8] == peer_id
            &&& b[9] == (if direction is Send {
                0u8
            } else {
                1
            })
            &&& seq_num == b[10] * 0x100 + b[11]
            &&& counter == b[12] * 0x100_0000 + b[13] * 0x1_0000 + b[14] * 0x100 + b[15]
            &&& forall|i: int| 16 <= i < 24 ==> #[trigger] b[i] == 0
        }),
{
    bytes::lemma_be_bytes_2(seq_num as nat);
    bytes::lemma_be_bytes_4(counter as nat);
    assert(nonce_bytes(session_id, peer_id, direction, seq_num, counter).take(8) =~= session_id);
}

/// The key of a passphrase is its Argon2id hash with 64 MiB, three passes and one lane, salted with
/// the twelve bytes of `voicechat-v1`.
pub proof fn law_passphrase_is_hashed(passphrase: Seq<u8>)
    ensures
        passphrase_key(passphrase) == argon2id_hash(
            passphrase,
            seq![118u8, 111, 105, 99, 101, 99, 104, 97, 116, 45, 118, 49],
            65536,
            3,
            1,
        ),
{
}

/// A key with which packets of a session are encrypted, and the counter of the packets sent.
pub struct CryptoContext {
    key: [u8; 32],
    session_id: [u8; 8],
    /// The counter of the next packet.
    send_counter: u32,
}

/// What a crypto context holds.
#[verifier::ext_equal]
pub struct CryptoView {
    pub key: Seq<u8>,
    pub session_id: Seq<u8>,
    pub send_counter: u32,
}

impl View for CryptoContext {
    type V = CryptoView;

    closed spec fn view(&self) -> CryptoView {
        CryptoView {
            key: self.key@,
            session_id: self.session_id@,
            send_counter: self.send_counter,
        }
    }
}

impl CryptoView {
    pub open spec fn new(key: Seq<u8>, session_id: Seq<u8>) -> CryptoView {
        CryptoView { key, session_id, send_counter: 0 }
    }

    pub open spec fn wf(self) -> bool {
        self.key.len() == 32 && self.session_id.len() == 8
    }

    /// With another key and session, and the same counter.
    pub open spec fn rekey(self, key: Seq<u8>, session_id: Seq<u8>) -> CryptoView {
        CryptoView { key, session_id, ..self }
    }

    /// The next counter value, or that there is none left; and the context afterwards.
    pub open spec fn next_counter(self) -> (CryptoView, Result<u32, VoiceError>) {
        if self.send_counter == u32::MAX {
            (self, Err(VoiceError::CounterExhausted))
        } else {
            (
                CryptoView { send_counter: (self.send_counter + 1) as u32, ..self },
                Ok(self.send_counter),
            )
        }
    }

    /// What a payload is encrypted to.
    pub open spec fn encrypt(
        self,
        header: Seq<u8>,
        payload: Seq<u8>,
        peer_id: u8,
        seq_num: u16,
        counter: u32,
    ) -> Result<Seq<u8>, VoiceError> {
        if payload.len() > MAX_PLAINTEXT_LEN {
            Err(VoiceError::EncryptFailed)
        } else {
            Ok(
                xchacha_seal(
                    self.key,
                    nonce_bytes(self.session_id, peer_id, Direction::Send, seq_num, counter),
                    header,
                    payload,
                ),
            )
        }
    }

    /// What a ciphertext is decrypted to.
    pub open spec fn decrypt(
        self,
        header: Seq<u8>,
        ciphertext: Seq<u8>,
        peer_id: u8,
        seq_num: u16,
        counter: u32,
    ) -> Result<Seq<u8>, VoiceError> {
        if ciphertext.len() > MAX_PLAINTEXT_LEN + AUTH_TAG_LEN {
            Err(VoiceError::DecryptFailed)
        } else {
            match xchacha_open(
                self.key,
                nonce_bytes(self.session_id, peer_id, Direction::Send, seq_num, counter),
                header,
                ciphertext,
            ) {
                Some(payload) => Ok(payload),
                None => Err(VoiceError::DecryptFailed),
            }
        }
    }

    /// Whether a context encrypts and decrypts like another one.
    pub open spec fn same_key(self, other: CryptoView) -> bool {
        self.key == other.key && self.session_id == other.session_id
    }
}

impl CryptoContext {
    /// A context that has sent nothing yet.
    pub fn new(key: &[u8; 32], session_id: [u8; 8]) -> (ctx: Self)
        ensures
            ctx@ == CryptoView::new(key@, session_id@),
            ctx@.wf(),
    {
        CryptoContext { key: *key, session_id, send_counter: 0 }
    }

    /// Goes over to a key and a session. The counters go on, so that none is used again should the
    /// key and the session have been in use before.
    pub fn rekey(&mut self, key: &[u8; 32], session_id: [u8; 8])
        ensures
            final(self)@ == old(self)@.rekey(key@, session_id@),
    {
        self.key = *key;
        self.session_id = session_id;
    }

    /// Reserves the next counter value.
    ///
    /// The value goes into the header of the packet before the payload is encrypted, so that the
    /// receiver can build the same nonce. No value is given out twice: the last one is not given
    /// out at all, and from then on the context sends nothing more.
    pub fn next_counter(&mut self) -> (res: Result<u32, VoiceError>)
        ensures
            (final(self)@, res) == old(self)@.next_counter(),
    {
        let counter: u32 = self.send_counter;
        if counter == u32::MAX {
            return Err(VoiceError::CounterExhausted);
        }
        self.send_counter = counter + 1;
        Ok(counter)
    }

    /// Encrypts a payload. The header is authenticated with it, but not encrypted.
    ///
    /// Whoever has the key and the session id decrypts the result to the payload.
    pub fn encrypt(
        &self,
        header: &[u8; 8],
        payload: &[u8],
        peer_id: u8,
        seq_num: u16,
        counter: u32,
    ) -> (res: Result<Vec<u8>, VoiceError>)
        ensures
            match self@.encrypt(header@, payload@, peer_id, seq_num, counter) {
                Ok(c) => res is Ok && res->Ok_0@ == c,
                Err(e) => res == Err::<Vec<u8>, VoiceError>(e),
            },
            res matches Ok(c) ==> c@.len() == payload@.len() + AUTH_TAG_LEN && (forall|
                rx: CryptoView,
            |
                rx.same_key(self@) ==> #[trigger] rx.decrypt(
                    header@,
                    c@,
                    peer_id,
                    seq_num,
                    counter,
                ) == Ok::<Seq<u8>, VoiceError>(payload@)),
    {
        if payload.len() as u64 > MAX_PLAINTEXT_LEN {
            return Err(VoiceError::EncryptFailed);
        }
        let nonce: [u8; 24] = build_nonce(
            &self.session_id,
            peer_id,
            Direction::Send,
            seq_num,
            counter,
        );
        match aead_encrypt(&self.key, &nonce, header, payload) {
            Ok(c) => Ok(c),
            Err(_) => Err(VoiceError::EncryptFailed),
        }
    }

    /// Decrypts a payload and checks that it and the header are authentic.
    ///
    /// What is returned is what encrypts to the ciphertext under the same key, header and nonce.
    /// That no one without the key can make a ciphertext that passes is a matter of cryptography.
    pub fn decrypt(
        &self,
        header: &[u8; 8],
        ciphertext_with_tag: &[u8],
        peer_id: u8,
        seq_num: u16,
        counter: u32,
    ) -> (res: Result<Vec<u8>, VoiceError>)
        ensures
            match self@.decrypt(header@, ciphertext_with_tag@, peer_id, seq_num, counter) {
                Ok(m) => res is Ok && res->Ok_0@ == m,
                Err(e) => res == Err::<Vec<u8>, VoiceError>(e),
            },
            res matches Ok(m) ==> ciphertext_with_tag@.len() == m@.len() + AUTH_TAG_LEN
                && self@.encrypt(header@, m@, peer_id, seq_num, counter) == Ok::<Seq<u8>, VoiceError>(
                ciphertext_with_tag@,
            ),
    {
        if ciphertext_with_tag.len() as u64 > MAX_PLAINTEXT_LEN + AUTH_TAG_LEN as u64 {
            return Err(VoiceError::DecryptFailed);
        }
        let nonce: [u8; 24] = build_nonce(
            &self.session_id,
            peer_id,
            Direction::Send,
            seq_num,
            counter,
        );
        match aead_decrypt(&self.key, &nonce, header, ciphertext_with_tag) {
            Ok(m) => Ok(m),
            Err(_) => Err(VoiceError::DecryptFailed),
        }
    }
}

/// A payload is encrypted with XChaCha20-Poly1305 under the key of the context, with the header as
/// what is authenticated, and with the nonce of the direction of sending, exactly if one key stream
/// covers it; and it is decrypted in the same way.
pub proof fn law_payload_is_encrypted_so(
    ctx: CryptoView,
    header: Seq<u8>,
    data: Seq<u8>,
    peer_id: u8,
    seq_num: u16,
    counter: u32,
)
    ensures
        ({
            let nonce = nonce_bytes(ctx.session_id, peer_id, Direction::Send, seq_num, counter);
            let sealed = ctx.encrypt(header, data, peer_id, seq_num, counter);
            let opened = ctx.decrypt(header, data, peer_id, seq_num, counter);
            &&& data.len() <= 0x3f_ffff_ff80 ==> sealed == Ok::<Seq<u8>, VoiceError>(
                xchacha_seal(ctx.key, nonce, header, data),
            )
            &&& data.len() > 0x3f_ffff_ff80 ==> sealed is Err
            &&& data.len() <= 0x3f_ffff_ff90 ==> opened is Ok == xchacha_open(
                ctx.key,
                nonce,
                header,
                data,
            ) is Some
            &&& opened is Ok ==> xchacha_open(ctx.key, nonce, header, data) == Some(opened->Ok_0)
        }),
{
}

/// A new context starts with the counter 0 and gives out the counters one after the other, up to
/// the last but one; another key and session do not change that.
pub proof fn law_counters_are_given_out_in_turn(ctx: CryptoView, key: Seq<u8>, session_id: Seq<u8>)
    ensures
        CryptoView::new(key, session_id).send_counter == 0,
        CryptoView::new(key, session_id).key == key,
        CryptoView::new(key, session_id).session_id == session_id,
        ctx.send_counter < u32::MAX ==> ctx.next_counter().1 == Ok::<u32, VoiceError>(
            ctx.send_counter,
        ) && ctx.next_counter().0.send_counter == ctx.send_counter + 1,
        ctx.send_counter == u32::MAX ==> ctx.next_counter() == (
            ctx,
            Err::<u32, VoiceError>(VoiceError::CounterExhausted),
        ),
        ctx.next_counter().0.key == ctx.key,
        ctx.next_counter().0.session_id == ctx.session_id,
        ctx.rekey(key, session_id).send_counter == ctx.send_counter,
        ctx.rekey(key, session_id).key == key,
        ctx.rekey(key, session_id).session_id == session_id,
{
}

/// Two counter values that a context gave out one after the other differ, so the nonces of the
/// packets that carry them differ, whatever the packets' sequence numbers are.
pub proof fn law_counters_make_fresh_nonces(
    ctx: CryptoView,
    peer_id: u8,
    seq_a: u16,
    counter_a: u32,
    later: CryptoView,
    seq_b: u16,
    counter_b: u32,
)
    requires
        ctx.next_counter().1 == Ok::<u32, VoiceError>(counter_a),
        later.same_key(ctx),
        later.send_counter >= ctx.next_counter().0.send_counter,
        later.next_counter().1 == Ok::<u32, VoiceError>(counter_b),
    ensures
        nonce_bytes(ctx.session_id, peer_id, Direction::Send, seq_a, counter_a) != nonce_bytes(
            later.session_id,
            peer_id,
            Direction::Send,
            seq_b,
            counter_b,
        ),
{
    if nonce_bytes(ctx.session_id, peer_id, Direction::Send, seq_a, counter_a) == nonce_bytes(
        later.session_id,
        peer_id,
        Direction::Send,
        seq_b,
        counter_b,
    ) {
        law_nonce_is_injective(
            ctx.session_id,
            peer_id,
            Direction::Send,
            seq_a,
            counter_a,
            later.session_id,
            peer_id,
            Direction::Send,
            seq_b,
            counter_b,
        );
    }
}

/// Replay protection for the packets of one sender under one key.
pub struct ReplayFilter {
    /// The highest accepted counter.
    highest: u64,
    /// Bit `i` says whether the counter `highest - i` was accepted.
    bitmap: u64,
}

/// The highest accepted counter, and the accepted counters within the window below it.
#[verifier::ext_equal]
pub struct ReplayView {
    pub highest: int,
    pub seen: Set<int>,
}

spec fn bit(bitmap: u64, i: u64) -> bool {
    (bitmap >> i) & 1 == 1
}

impl View for ReplayFilter {
    type V = ReplayView;

    closed spec fn view(&self) -> ReplayView {
        ReplayView {
            highest: self.highest as int,
            seen: Set::new(
                |c: int|
                    0 <= self.highest - c < SLIDING_WINDOW_SIZE && bit(
                        self.bitmap,
                        (self.highest - c) as u64,
                    ),
            ),
        }
    }
}

impl ReplayView {
    pub open spec fn new() -> ReplayView {
        ReplayView { highest: 0, seen: Set::empty() }
    }

    /// Whether a counter is acceptable: higher than any before, or inside the window and not seen
    /// yet.
    pub open spec fn accepts(self, counter: int) -> bool {
        counter > self.highest || (self.highest - counter < SLIDING_WINDOW_SIZE
            && !self.seen.contains(counter))
    }

    /// The filter after it was shown a counter.
    pub open spec fn after(self, counter: int) -> ReplayView {
        if !self.accepts(counter) {
            self
        } else if counter > self.highest {
            ReplayView {
                highest: counter,
                seen: self.seen.filter(|c: int| counter - c < SLIDING_WINDOW_SIZE).insert(counter),
            }
        } else {
            ReplayView { highest: self.highest, seen: self.seen.insert(counter) }
        }
    }

    /// The filter after it was shown some counters, one after the other.
    pub open spec fn after_all(self, counters: Seq<u32>) -> ReplayView
        decreases counters.len(),
    {
        if counters.len() == 0 {
            self
        } else {
            self.after_all(counters.drop_last()).after(counters.last() as int)
        }
    }
}

proof fn lemma_bit_of_zero(i: u64)
    requires
        i < 64,
    ensures
        !bit(0, i),
{
    assert((0u64 >> i) & 1 != 1) by (bit_vector)
        requires
            i < 64,
    ;
}

proof fn lemma_bit_of_one(i: u64)
    requires
        i < 64,
    ensures
        bit(1, i) == (i == 0),
{
    assert(((1u64 >> i) & 1 == 1) == (i == 0)) by (bit_vector)
        requires
            i < 64,
    ;
}

proof fn lemma_bit_of_shifted(bitmap: u64, shift: u64, i: u64)
    requires
        0 < shift < 64,
        i < 64,
    ensures
        bit((bitmap << shift) | 1, i) == (i == 0 || (i >= shift && bit(
            bitmap,
            (i - shift) as u64,
        ))),
{
    assert(i < shift ==> ((((bitmap << shift) | 1) >> i) & 1 == 1) == (i == 0)) by (bit_vector)
        requires
            0 < shift < 64,
            i < 64,
    ;
    if i >= shift {
        let k: u64 = (i - shift) as u64;
        assert(((((bitmap << shift) | 1) >> i) & 1) == ((bitmap >> k) & 1)) by (bit_vector)
            requires
                0 < shift < 64,
                i < 64,
                i == k + shift,
        ;
    }
}

proof fn lemma_bit_of_marked(bitmap: u64, mark: u64, i: u64)
    requires
        mark < 64,
        i < 64,
    ensures
        bit(bitmap | (1u64 << mark), i) == (i == mark || bit(bitmap, i)),
        (bitmap & (1u64 << mark) != 0) == bit(bitmap, mark),
{
    assert((((bitmap | (1u64 << mark)) >> i) & 1 == 1) == (i == mark || (bitmap >> i) & 1 == 1))
        by (bit_vector)
        requires
            mark < 64,
            i < 64,
    ;
    assert((bitmap & (1u64 << mark) != 0) == ((bitmap >> mark) & 1 == 1)) by (bit_vector)
        requires
            mark < 64,
    ;
}

impl Default for ReplayFilter {
    fn default() -> (filter: Self)
        ensures
            filter@ == ReplayView::new(),
    {
        ReplayFilter::new()
    }
}

impl ReplayFilter {
    /// A filter that has seen nothing.
    pub fn new() -> (filter: Self)
        ensures
            filter@ == ReplayView::new(),
    {
        let filter = ReplayFilter { highest: 0, bitmap: 0 };
        proof {
            assert forall|c: int| !(#[trigger] filter@.seen.contains(c)) by {
                if 0 <= 0 - c < SLIDING_WINDOW_SIZE {
                    lemma_bit_of_zero((0 - c) as u64);
                }
            }
            assert(filter@ =~= ReplayView::new());
        }
        filter
    }

    /// Whether the counter is acceptable, that is not replayed. An accepted counter is remembered.
    pub fn check_and_accept(&mut self, counter: u32) -> (accepted: bool)
        ensures
            accepted == old(self)@.accepts(counter as int),
            final(self)@ == old(self)@.after(counter as int),
    {
        let ghost before = *self;
        let counter: u64 = counter as u64;
        if counter > self.highest {
            let shift: u64 = counter - self.highest;
            let bitmap: u64 = if shift >= SLIDING_WINDOW_SIZE {
                1
            } else {
                (self.bitmap << shift) | 1
            };
            self.bitmap = bitmap;
            self.highest = counter;
            proof {
                let after = before@.after(counter as int);
                assert forall|c: int| #[trigger] self@.seen.contains(c) == after.seen.contains(c) by {
                    if 0 <= counter - c < SLIDING_WINDOW_SIZE {
                        let i = (counter - c) as u64;
                        if shift >= SLIDING_WINDOW_SIZE {
                            lemma_bit_of_one(i);
                        } else {
                            lemma_bit_of_shifted(before.bitmap, shift, i);
                        }
                    }
                }
                assert(self@ =~= after);
            }
            true
        } else {
            let diff: u64 = self.highest - counter;
            if diff >= SLIDING_WINDOW_SIZE {
                return false;
            }
            let mark: u64 = 1u64 << diff;
            proof {
                lemma_bit_of_marked(self.bitmap, diff, diff);
            }
            if self.bitmap & mark != 0 {
                return false;
            }
            self.bitmap = self.bitmap | mark;
            proof {
                let after = before@.after(counter as int);
                assert forall|c: int| #[trigger] self@.seen.contains(c) == after.seen.contains(c) by {
                    if 0 <= self.highest - c < SLIDING_WINDOW_SIZE {
                        lemma_bit_of_marked(before.bitmap, diff, (self.highest - c) as u64);
                    }
                }
                assert(self@ =~= after);
            }
            true
        }
    }
}

/// A counter that was accepted, or that is below the window, stays refused.
proof fn lemma_refused_stays_refused(filter: ReplayView, counter: int, next: int)
    requires
        !filter.accepts(counter),
    ensures
        !filter.after(next).accepts(counter),
{
}

/// A counter that was accepted is never accepted again, whatever the filter is shown in between.
pub proof fn law_no_counter_twice(filter: ReplayView, counter: u32, later: Seq<u32>)
    requires
        filter.accepts(counter as int),
    ensures
        !filter.after(counter as int).after_all(later).accepts(counter as int),
    decreases later.len(),
{
    if later.len() > 0 {
        law_no_counter_twice(filter, counter, later.drop_last());
        lemma_refused_stays_refused(
            filter.after(counter as int).after_all(later.drop_last()),
            counter as int,
            later.last() as int,
        );
    }
}

/// A counter that lies 64 or more below the highest accepted one is refused, and one that is higher
/// is accepted and then is the highest; a refused counter changes nothing.
pub proof fn law_old_counters_are_refused(filter: ReplayView, counter: u32)
    ensures
        counter + 64 <= filter.highest ==> !filter.accepts(counter as int),
        counter > filter.highest ==> filter.accepts(counter as int) && filter.after(
            counter as int,
        ).highest == counter,
        counter <= filter.highest ==> filter.after(counter as int).highest == filter.highest,
        !filter.accepts(counter as int) ==> filter.after(counter as int) == filter,
        ReplayView::new().accepts(counter as int),
{
}

/// Accepting a counter takes nothing from the others: one that was not accepted yet still is
/// acceptable if it lies less than 64 below the highest one.
pub proof fn law_other_counters_stay_acceptable(filter: ReplayView, counter: u32, other: u32)
    requires
        other != counter,
        filter.accepts(other as int),
        other + 64 > filter.after(counter as int).highest,
        forall|c: int| filter.seen.contains(c) ==> c <= filter.highest,
    ensures
        filter.after(counter as int).accepts(other as int),
{
}

/// The highest accepted counter never falls.
pub proof fn law_highest_never_falls(filter: ReplayView, counters: Seq<u32>)
    ensures
        filter.after_all(counters).highest >= filter.highest,
    decreases counters.len(),
{
    if counters.len() > 0 {
        law_highest_never_falls(filter, counters.drop_last());
    }
}

/// A counter that no packet carried yet is accepted as long as it is less than the window below
/// the highest accepted one, in whatever order the other packets came.
pub proof fn law_new_counter_in_window_is_accepted(counters: Seq<u32>, counter: u32)
    requires
        !counters.contains(counter),
        counter + SLIDING_WINDOW_SIZE > ReplayView::new().after_all(counters).highest,
    ensures
        ReplayView::new().after_all(counters).accepts(counter as int),
{
    lemma_seen_were_shown(counters, counter);
}

proof fn lemma_seen_were_shown(counters: Seq<u32>, counter: u32)
    ensures
        ReplayView::new().after_all(counters).seen.contains(counter as int) ==> counters.contains(
            counter,
        ),
    decreases counters.len(),
{
    if counters.len() > 0 {
        lemma_seen_were_shown(counters.drop_last(), counter);
        let before = ReplayView::new().after_all(counters.drop_last());
        if before.after(counters.last() as int).seen.contains(counter as int) {
            if before.seen.contains(counter as int) {
                let i = choose|i: int|
                    0 <= i < counters.drop_last().len() && counters.drop_last()[i] == counter;
                assert(counters[i] == counter);
            } else {
                assert(counters[counters.len() - 1] == counter);
            }
        }
    }
}

} // verus!
