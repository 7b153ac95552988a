use system_trace::hex::to_hex;
use system_trace::key::{decide_key, key_from_stored_password, load_or_create_key, KeyDecision};

fn refused(d: KeyDecision) -> String {
    match d {
        KeyDecision::Refuse(m) => m,
        _ => panic!("expected a refusal"),
    }
}

fn used(d: KeyDecision) -> [u8; 32] {
    match d {
        KeyDecision::UseExisting(k) => k,
        _ => panic!("expected an existing key"),
    }
}

#[test]
fn stored_password_decodes_to_a_key() {
    let key = [0x5au8; 32];
    assert_eq!(key_from_stored_password(&to_hex(&key)), Ok(Some(key)));
}

#[test]
fn malformed_stored_password_is_an_error() {
    assert_eq!(
        key_from_stored_password("abcd"),
        Err("stored key is malformed".to_string())
    );
    assert_eq!(
        key_from_stored_password("not hex"),
        Err("stored key is malformed".to_string())
    );
    assert_eq!(
        key_from_stored_password("aéb"),
        Err("stored key is malformed".to_string())
    );
    assert_eq!(
        key_from_stored_password(&"ab".repeat(31)),
        Err("stored key is malformed".to_string())
    );
}

#[test]
fn keyring_key_wins() {
    let k = [1u8; 32];
    assert_eq!(used(decide_key(Ok(Some(k)), true, true, Some(vec![2u8; 32]))), k);
}

#[test]
fn keyring_error_with_data_refuses() {
    let m = refused(decide_key(Err("locked".to_string()), true, false, Some(vec![2u8; 32])));
    assert_eq!(
        m,
        "secure key store is unavailable (locked); not creating a new key because encrypted data already exists. Try launching again."
    );
    let m = refused(decide_key(Err("x".to_string()), false, true, None));
    assert!(m.starts_with("secure key store is unavailable (x)"));
}

#[test]
fn keyring_error_on_fresh_install_falls_back() {
    assert!(matches!(decide_key(Err("x".to_string()), false, false, None), KeyDecision::CreateNew));
}

#[test]
fn key_file_is_used_when_keyring_is_empty() {
    assert_eq!(used(decide_key(Ok(None), true, true, Some(vec![3u8; 32]))), [3u8; 32]);
}

#[test]
fn wrong_sized_key_file_is_ignored() {
    assert!(matches!(decide_key(Ok(None), false, true, Some(vec![3u8; 31])), KeyDecision::CreateNew));
    assert_eq!(
        refused(decide_key(Ok(None), true, true, Some(vec![3u8; 33]))),
        "encrypted data exists but no decryption key was found"
    );
}

#[test]
fn no_key_with_data_refuses() {
    assert_eq!(
        refused(decide_key(Ok(None), true, false, None)),
        "encrypted data exists but no decryption key was found"
    );
}

#[test]
fn load_or_create_key_reports_fresh_keys() {
    let (k, fresh) = load_or_create_key(Ok(Some([8u8; 32])), true, false, None).unwrap();
    assert_eq!(k, [8u8; 32]);
    assert!(!fresh);
    let (_, fresh) = load_or_create_key(Ok(None), false, false, None).unwrap();
    assert!(fresh);
    assert!(load_or_create_key(Ok(None), true, false, None).is_err());
    let (a, _) = load_or_create_key(Ok(None), false, false, None).unwrap();
    // The fresh key, once kept as hex in the store, is the next start's key.
    let stored = key_from_stored_password(&to_hex(&a)).unwrap();
    assert_eq!(stored, Some(a));
    let (again, fresh_again) = load_or_create_key(Ok(stored), true, false, None).unwrap();
    assert_eq!(again, a);
    assert!(!fresh_again);
    let (b, _) = load_or_create_key(Ok(None), false, false, None).unwrap();
    assert_ne!(a, b);
}
