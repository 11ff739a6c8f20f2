use voicechat::error::VoiceError;
use voicechat::key_exchange::{key_from_shared, peer_key_info, KeyExchange, KeyExchangePayload};

#[test]
fn test_both_sides_derive_same_key() {
    let alice = KeyExchange::new();
    let bob = KeyExchange::new();
    let session_id = [0xAA; 8];

    let alice_key = alice
        .derive_peer_key(&bob.public_key_bytes(), &session_id, 0, 1)
        .unwrap();
    let bob_key = bob
        .derive_peer_key(&alice.public_key_bytes(), &session_id, 1, 0)
        .unwrap();

    assert_eq!(alice_key, bob_key);
}

#[test]
fn test_different_sessions_yield_different_keys() {
    let alice = KeyExchange::new();
    let bob = KeyExchange::new();

    let key1 = alice
        .derive_peer_key(&bob.public_key_bytes(), &[0x01; 8], 0, 1)
        .unwrap();
    let key2 = alice
        .derive_peer_key(&bob.public_key_bytes(), &[0x02; 8], 0, 1)
        .unwrap();

    assert_ne!(key1, key2);
}

#[test]
fn test_payload_roundtrip() {
    let kx = KeyExchange::new();
    let payload = KeyExchangePayload {
        public_key: kx.public_key_bytes(),
    };
    let bytes = payload.to_bytes();
    let parsed = KeyExchangePayload::from_bytes(&bytes).unwrap();
    assert_eq!(parsed.public_key, kx.public_key_bytes());
}

#[test]
fn keys_are_x25519_and_hkdf_sha256() {
    let alice = KeyExchange::from_secret([0x11; 32]);
    let bob = KeyExchange::from_secret([0x22; 32]);
    assert_eq!(
        alice.public_key_bytes(),
        [
            0x7b, 0x4e, 0x90, 0x9b, 0xbe, 0x7f, 0xfe, 0x44, 0xc4, 0x65, 0xa2, 0x20, 0x03, 0x7d,
            0x60, 0x8e, 0xe3, 0x58, 0x97, 0xd3, 0x1e, 0xf9, 0x72, 0xf0, 0x7f, 0x74, 0x89, 0x2c,
            0xb0, 0xf7, 0x3f, 0x13
        ]
    );
    let expected = [
        0x53, 0xf4, 0x87, 0xb1, 0x4c, 0x4a, 0x2f, 0x11, 0x59, 0x6f, 0xb3, 0xd5, 0x26, 0xa6, 0xd2,
        0xec, 0x27, 0xf2, 0x0d, 0xaa, 0x3d, 0x1e, 0xdf, 0xc7, 0x34, 0x13, 0xc2, 0xfd, 0xc5, 0xa0,
        0x41, 0xb7,
    ];
    let session_id = [0xAA; 8];
    assert_eq!(
        alice.derive_peer_key(&bob.public_key_bytes(), &session_id, 0, 1),
        Ok(expected)
    );
    assert_eq!(
        bob.derive_peer_key(&alice.public_key_bytes(), &session_id, 1, 0),
        Ok(expected)
    );
}

#[test]
fn key_from_a_shared_secret() {
    assert_eq!(
        key_from_shared(&[7; 32], &[0, 1, 2, 3, 4, 5, 6, 7], 4, 2),
        Ok([
            0x8c, 0x94, 0x2d, 0xe1, 0x52, 0xab, 0xba, 0xac, 0xcb, 0xae, 0xeb, 0xd0, 0x3c, 0xa3,
            0xcf, 0xb9, 0x90, 0x8b, 0x8b, 0x6b, 0xbe, 0x4e, 0xfd, 0xc5, 0x9f, 0x0e, 0xcb, 0xb4,
            0x92, 0x54, 0x16, 0x9c
        ])
    );
    assert_eq!(key_from_shared(&[0; 32], &[1; 8], 0, 1), Err(VoiceError::BadPublicKey));
    let mut almost_zero = [0; 32];
    almost_zero[31] = 1;
    assert!(key_from_shared(&almost_zero, &[1; 8], 0, 1).is_ok());
}

#[test]
fn bad_public_key_is_refused() {
    let kx = KeyExchange::default();
    assert_eq!(
        kx.derive_peer_key(&[0; 32], &[1; 8], 0, 1),
        Err(VoiceError::BadPublicKey)
    );
}

#[test]
fn info_string_has_sorted_ids() {
    let mut expected = b"voicechat-audio".to_vec();
    expected.extend_from_slice(&[1, 3]);
    assert_eq!(peer_key_info(1, 3), expected);
    assert_eq!(peer_key_info(3, 1), expected);
}

#[test]
fn fresh_key_pairs_differ() {
    assert_ne!(
        KeyExchange::new().public_key_bytes(),
        KeyExchange::new().public_key_bytes()
    );
}

#[test]
fn short_key_exchange_payload_is_refused() {
    assert_eq!(
        KeyExchangePayload::from_bytes(&[1; 31]).map(|_| ()),
        Err(VoiceError::KeyExchangeTooShort { len: 31 })
    );
    let mut data = vec![9; 32];
    data.push(1);
    assert_eq!(KeyExchangePayload::from_bytes(&data).unwrap().public_key, [9; 32]);
}
