use system_trace::crypto::{
    decrypt, encrypt, encrypt_with_nonce, finish_open, frame_sealed, NONCE_LEN,
};

#[test]
fn round_trip_encrypts_and_decrypts() {
    let key = [7u8; 32];
    let msg = b"SQLite format 3\0some database bytes";
    let ct = encrypt(&key, msg).unwrap();
    assert_ne!(&ct[24..], &msg[..]); // actually encrypted
    let pt = decrypt(&key, &ct).unwrap();
    assert_eq!(pt, msg);
}

#[test]
fn wrong_key_fails() {
    let ct = encrypt(&[1u8; 32], b"secret").unwrap();
    assert!(decrypt(&[2u8; 32], &ct).is_err());
}

#[test]
fn encrypted_blob_is_nonce_ciphertext_and_tag() {
    let msg = b"hello world";
    let ct = encrypt(&[3u8; 32], msg).unwrap();
    assert_eq!(ct.len(), NONCE_LEN + msg.len() + 16);
}

#[test]
fn two_encryptions_use_different_nonces() {
    let a = encrypt(&[3u8; 32], b"same").unwrap();
    let b = encrypt(&[3u8; 32], b"same").unwrap();
    assert_ne!(&a[..24], &b[..24]);
}

#[test]
fn encrypt_with_nonce_leads_with_the_nonce_and_is_deterministic() {
    let key = [9u8; 32];
    let nonce = [5u8; 24];
    let a = encrypt_with_nonce(&key, &nonce, b"abc").unwrap();
    let b = encrypt_with_nonce(&key, &nonce, b"abc").unwrap();
    assert_eq!(a, b);
    assert_eq!(&a[..24], &nonce[..]);
    assert_eq!(a.len(), 24 + 3 + 16);
    assert_ne!(&a[24..27], b"abc");
    assert_eq!(decrypt(&key, &a).unwrap(), b"abc");
}

#[test]
fn empty_plaintext_round_trips() {
    let key = [0u8; 32];
    let ct = encrypt(&key, b"").unwrap();
    assert_eq!(ct.len(), 40);
    assert_eq!(decrypt(&key, &ct).unwrap(), Vec::<u8>::new());
}

#[test]
fn short_blob_is_corrupt() {
    let err = decrypt(&[0u8; 32], &[1u8; 23]).unwrap_err();
    assert_eq!(err, "encrypted database is too short / corrupt");
}

#[test]
fn tampered_blob_does_not_decrypt() {
    let key = [4u8; 32];
    let mut ct = encrypt(&key, b"payload").unwrap();
    let last = ct.len() - 1;
    ct[last] ^= 1;
    assert_eq!(
        decrypt(&key, &ct).unwrap_err(),
        "could not decrypt database (wrong key or corrupt file)"
    );
    // A blob of exactly the nonce holds no tag at all.
    assert_eq!(
        decrypt(&key, &[0u8; 24]).unwrap_err(),
        "could not decrypt database (wrong key or corrupt file)"
    );
}

#[test]
fn framing_and_finishing() {
    let nonce = [1u8; 24];
    let framed = frame_sealed(&nonce, Ok(vec![9, 8, 7])).unwrap();
    let mut expected = vec![1u8; 24];
    expected.extend_from_slice(&[9, 8, 7]);
    assert_eq!(framed, expected);
    assert_eq!(frame_sealed(&nonce, Err(chacha20poly1305::Error)).unwrap_err(), "encryption failed");
    assert_eq!(finish_open(Ok(vec![1, 2])).unwrap(), vec![1, 2]);
    assert_eq!(
        finish_open(Err(chacha20poly1305::Error)).unwrap_err(),
        "could not decrypt database (wrong key or corrupt file)"
    );
}
