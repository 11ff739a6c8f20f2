use voicechat::crypto::{
    build_nonce, derive_key_from_passphrase, CryptoContext, Direction, ReplayFilter, AUTH_TAG_LEN,
};
use voicechat::error::VoiceError;

#[test]
fn test_encrypt_decrypt_roundtrip() {
    let key = derive_key_from_passphrase("test-password").unwrap();
    let session_id = [1u8; 8];
    let mut sender = CryptoContext::new(&key, session_id);
    let receiver = CryptoContext::new(&key, session_id);

    let counter = sender.next_counter().unwrap();
    let header = [0x01, 0x00, 0x00, 0x01, 0x00, 0x00, 0x00, counter as u8];
    let payload = b"hello opus data";

    let ciphertext = sender.encrypt(&header, payload, 0, 1, counter).unwrap();
    let decrypted = receiver
        .decrypt(&header, &ciphertext, 0, 1, counter)
        .unwrap();

    assert_eq!(decrypted, payload);
}

#[test]
fn test_tampered_header_fails() {
    let key = derive_key_from_passphrase("test-password").unwrap();
    let session_id = [1u8; 8];
    let mut sender = CryptoContext::new(&key, session_id);
    let receiver = CryptoContext::new(&key, session_id);

    let counter = sender.next_counter().unwrap();
    let header = [0x01, 0x00, 0x00, 0x01, 0x00, 0x00, 0x00, counter as u8];
    let payload = b"hello opus data";

    let ciphertext = sender.encrypt(&header, payload, 0, 1, counter).unwrap();

    let mut bad_header = header;
    bad_header[1] = 0xFF;
    assert!(receiver
        .decrypt(&bad_header, &ciphertext, 0, 1, counter)
        .is_err());
}

#[test]
fn test_counter_mismatch_fails() {
    let key = derive_key_from_passphrase("test-password").unwrap();
    let session_id = [2u8; 8];
    let mut sender = CryptoContext::new(&key, session_id);
    let receiver = CryptoContext::new(&key, session_id);

    let counter = sender.next_counter().unwrap();
    let header = [0x01, 0x00, 0x00, 0x05, 0x00, 0x00, 0x00, counter as u8];
    let payload = b"audio frame";

    let ciphertext = sender.encrypt(&header, payload, 0, 5, counter).unwrap();
    assert!(receiver
        .decrypt(&header, &ciphertext, 0, 5, counter.wrapping_add(1))
        .is_err());
}

#[test]
fn test_replay_filter() {
    let mut filter = ReplayFilter::new();
    assert!(filter.check_and_accept(1));
    assert!(filter.check_and_accept(2));
    assert!(!filter.check_and_accept(1)); // duplicate
    assert!(filter.check_and_accept(3));
    assert!(filter.check_and_accept(100)); // big jump
    assert!(!filter.check_and_accept(30)); // too old (100 - 30 = 70 > 64)
    assert!(filter.check_and_accept(50)); // within window
    assert!(!filter.check_and_accept(50)); // duplicate
}

#[test]
fn replay_window_edges() {
    let mut filter = ReplayFilter::default();
    assert!(filter.check_and_accept(0));
    assert!(!filter.check_and_accept(0));
    assert!(filter.check_and_accept(64));
    assert!(!filter.check_and_accept(0));
    assert!(filter.check_and_accept(1)); // 63 below the highest
    assert!(!filter.check_and_accept(1));
    assert!(filter.check_and_accept(65));
    assert!(!filter.check_and_accept(1)); // now 64 below
    assert!(!filter.check_and_accept(64));
    assert!(filter.check_and_accept(u32::MAX));
    assert!(!filter.check_and_accept(u32::MAX));
    assert!(!filter.check_and_accept(65));
    assert!(filter.check_and_accept(u32::MAX - 63));
    assert!(!filter.check_and_accept(u32::MAX - 64));
}

#[test]
fn every_counter_is_accepted_once_in_any_order() {
    let mut filter = ReplayFilter::new();
    for block in 0..20u32 {
        for i in (0..40u32).rev() {
            assert!(filter.check_and_accept(block * 40 + i));
        }
        for i in 0..40u32 {
            assert!(!filter.check_and_accept(block * 40 + i));
        }
    }
}

#[test]
fn passphrase_key_is_argon2id() {
    assert_eq!(
        derive_key_from_passphrase("test-password").unwrap(),
        [
            0xc4, 0xcd, 0x34, 0x37, 0xd0, 0x40, 0x6b, 0x8b, 0xb2, 0x58, 0xeb, 0x4d, 0xc7, 0x33,
            0x17, 0x26, 0x9e, 0x3c, 0x9d, 0xaa, 0x3b, 0x96, 0x80, 0x75, 0x26, 0xdc, 0x33, 0x75,
            0x64, 0xbb, 0xe4, 0x93
        ]
    );
    assert_eq!(
        derive_key_from_passphrase("p\u{e4}ssw\u{f6}rt").unwrap(),
        [
            0xea, 0xbd, 0x1e, 0x7f, 0xcf, 0x08, 0xc2, 0xee, 0x08, 0x47, 0xbe, 0xe7, 0xf4, 0x6e,
            0xcc, 0xba, 0x44, 0xea, 0x0d, 0xef, 0x33, 0x2c, 0x92, 0x95, 0x7d, 0x0e, 0xa0, 0xff,
            0x6d, 0x17, 0x20, 0xcc
        ]
    );
}

#[test]
fn nonce_layout() {
    let nonce = build_nonce(&[1, 2, 3, 4, 5, 6, 7, 8], 9, Direction::Recv, 0x0a0b, 0x0c0d_0e0f);
    assert_eq!(
        nonce,
        [1, 2, 3, 4, 5, 6, 7, 8, 9, 1, 0x0a, 0x0b, 0x0c, 0x0d, 0x0e, 0x0f, 0, 0, 0, 0, 0, 0, 0, 0]
    );
    assert_eq!(Direction::Send.byte(), 0);
    assert_eq!(Direction::Recv.byte(), 1);
    assert_ne!(
        build_nonce(&[0; 8], 0, Direction::Send, 1, 0),
        build_nonce(&[0; 8], 0, Direction::Send, 0, 1)
    );
}

#[test]
fn encryption_is_xchacha20_poly1305() {
    let mut key = [0u8; 32];
    for (i, b) in key.iter_mut().enumerate() {
        *b = i as u8;
    }
    let ctx = CryptoContext::new(&key, [1, 2, 3, 4, 5, 6, 7, 8]);
    let header = [1, 2, 4, 0xd2, 0, 0, 0xdd, 0xd5];
    let sealed = ctx.encrypt(&header, b"opus", 2, 1234, 56789).unwrap();
    assert_eq!(
        sealed,
        vec![
            0x00, 0xe6, 0xf5, 0x13, 0x93, 0x33, 0x54, 0xcd, 0xcb, 0x23, 0xbb, 0x40, 0x90, 0x75,
            0x4b, 0xd8, 0x26, 0x33, 0xe2, 0xb3
        ]
    );
    assert_eq!(sealed.len(), 4 + AUTH_TAG_LEN);
    assert_eq!(ctx.decrypt(&header, &sealed, 2, 1234, 56789).unwrap(), b"opus");
}

#[test]
fn wrong_key_session_or_ciphertext_is_refused() {
    let ctx = CryptoContext::new(&[7; 32], [1; 8]);
    let header = [5; 8];
    let sealed = ctx.encrypt(&header, &[], 3, 0, 1).unwrap();
    assert_eq!(ctx.decrypt(&header, &sealed, 3, 0, 1).unwrap(), Vec::<u8>::new());
    let failed = Err(VoiceError::DecryptFailed);
    let other_key = CryptoContext::new(&[8; 32], [1; 8]);
    assert_eq!(other_key.decrypt(&header, &sealed, 3, 0, 1), failed);
    let other_session = CryptoContext::new(&[7; 32], [2; 8]);
    assert_eq!(other_session.decrypt(&header, &sealed, 3, 0, 1), failed);
    assert_eq!(ctx.decrypt(&header, &sealed, 4, 0, 1), failed);
    assert_eq!(ctx.decrypt(&header, &sealed, 3, 1, 1), failed);
    assert_eq!(ctx.decrypt(&header, &sealed[..15], 3, 0, 1), failed);
    assert_eq!(ctx.decrypt(&header, &[], 3, 0, 1), failed);
    let mut flipped = sealed.clone();
    flipped[0] ^= 1;
    assert_eq!(ctx.decrypt(&header, &flipped, 3, 0, 1), failed);
}

#[test]
fn counters_rise_by_one() {
    let mut ctx = CryptoContext::new(&[0; 32], [0; 8]);
    for expected in 0..100 {
        assert_eq!(ctx.next_counter(), Ok(expected));
    }
}

#[test]
fn a_context_goes_on_counting_under_another_key() {
    let mut ctx = CryptoContext::new(&[1; 32], [1; 8]);
    assert_eq!(ctx.next_counter(), Ok(0));
    assert_eq!(ctx.next_counter(), Ok(1));
    ctx.rekey(&[2; 32], [3; 8]);
    assert_eq!(ctx.next_counter(), Ok(2));
    let sealed = ctx.encrypt(&[0; 8], b"opus", 4, 5, 2).unwrap();
    let other = CryptoContext::new(&[2; 32], [3; 8]);
    assert_eq!(other.decrypt(&[0; 8], &sealed, 4, 5, 2).unwrap(), b"opus");
    let before = CryptoContext::new(&[1; 32], [1; 8]);
    assert!(before.decrypt(&[0; 8], &sealed, 4, 5, 2).is_err());
}
