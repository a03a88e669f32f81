use base64::Engine;
use dplock::crypto::{
    decoded_length, decrypt, decrypt_entry, derive_key, encrypt, encrypt_entry,
    fresh_salt_and_nonce, seal_with, CryptoError,
};

#[test]
fn round_trip_returns_payload() {
    let payload = b"correct horse battery staple".to_vec();
    let blob = encrypt(&payload, "master").unwrap();
    assert_eq!(blob.len(), payload.len() + 28 + 16);
    assert_eq!(decrypt(&blob, "master").unwrap(), payload);
}

#[test]
fn round_trip_of_empty_payload() {
    let blob = encrypt(b"", "master").unwrap();
    assert_eq!(blob.len(), 44);
    assert_eq!(decrypt(&blob, "master").unwrap(), Vec::<u8>::new());
}

#[test]
fn wrong_passphrase_is_an_authentication_failure() {
    let blob = encrypt(b"secret", "right").unwrap();
    assert_eq!(decrypt(&blob, "wrong"), Err(CryptoError::Authentication));
}

#[test]
fn altered_blob_is_an_authentication_failure() {
    let mut blob = encrypt(b"secret", "right").unwrap();
    let last = blob.len() - 1;
    blob[last] ^= 1;
    assert_eq!(decrypt(&blob, "right"), Err(CryptoError::Authentication));
}

#[test]
fn short_input_is_refused_before_decryption() {
    assert_eq!(decrypt(&[], "p"), Err(CryptoError::Truncated));
    assert_eq!(decrypt(&[0u8; 27], "p"), Err(CryptoError::Truncated));
}

#[test]
fn header_only_input_fails_authentication() {
    assert_eq!(decrypt(&[0u8; 28], "p"), Err(CryptoError::Authentication));
}

#[test]
fn envelope_is_salt_then_nonce_then_sealed_payload() {
    let salt = [7u8; 16];
    let nonce = [9u8; 12];
    let payload = b"payload bytes".to_vec();
    let blob = seal_with(&payload, "pw", &salt, &nonce).unwrap();
    assert_eq!(&blob[..16], &salt);
    assert_eq!(&blob[16..28], &nonce);
    assert_eq!(blob.len(), 28 + payload.len() + 16);
    assert_ne!(&blob[28..28 + payload.len()], &payload[..]);
    assert_eq!(decrypt(&blob, "pw").unwrap(), payload);
}

#[test]
fn sealing_is_a_function_of_its_inputs() {
    let salt = [1u8; 16];
    let nonce = [2u8; 12];
    let a = seal_with(b"same", "pw", &salt, &nonce).unwrap();
    let b = seal_with(b"same", "pw", &salt, &nonce).unwrap();
    assert_eq!(a, b);
    let c = seal_with(b"same", "pw", &salt, &[3u8; 12]).unwrap();
    assert_ne!(a[28..], c[28..]);
}

#[test]
fn derived_key_has_32_bytes_and_depends_on_both_inputs() {
    let salt = [5u8; 16];
    let key = derive_key("passphrase", &salt).unwrap();
    assert_eq!(key.len(), 32);
    assert_eq!(key, derive_key("passphrase", &salt).unwrap());
    assert_ne!(key, derive_key("passphrase", &[6u8; 16]).unwrap());
    assert_ne!(key, derive_key("other", &salt).unwrap());
    let mut padded = b"passphrase".to_vec();
    padded.resize(32, 0);
    assert_ne!(key, padded);
}

#[test]
fn fresh_salt_and_nonce_never_repeat() {
    let mut salts = std::collections::HashSet::new();
    let mut nonces = std::collections::HashSet::new();
    for _ in 0..1000 {
        let (salt, nonce) = fresh_salt_and_nonce().unwrap();
        assert_eq!(salt.len(), 16);
        assert_eq!(nonce.len(), 12);
        assert!(salts.insert(salt));
        assert!(nonces.insert(nonce));
    }
}

#[test]
fn two_encryptions_differ_in_salt_and_nonce() {
    let a = encrypt(b"v", "p").unwrap();
    let b = encrypt(b"v", "p").unwrap();
    assert_ne!(a[..16], b[..16]);
    assert_ne!(a[16..28], b[16..28]);
}

#[test]
fn sealed_field_round_trip() {
    let text = encrypt_entry("hunter2", "master").unwrap();
    assert_ne!(text, "hunter2");
    assert_eq!(decoded_length(&text), Some(7 + 44));
    assert_eq!(decrypt_entry(&text, "master").unwrap(), "hunter2");
    assert_eq!(decrypt_entry(&text, "other"), Err(CryptoError::Authentication));
}

#[test]
fn sealed_field_keeps_non_ascii_text() {
    let text = encrypt_entry("pässwörd ✓", "m").unwrap();
    assert_eq!(decrypt_entry(&text, "m").unwrap(), "pässwörd ✓");
}

#[test]
fn field_that_is_not_base64_is_malformed() {
    assert_eq!(decrypt_entry("not base64!", "m"), Err(CryptoError::Malformed));
}

#[test]
fn field_that_is_too_short_is_truncated() {
    assert_eq!(decrypt_entry("aGVsbG8=", "m"), Err(CryptoError::Truncated));
}

#[test]
fn field_that_opens_to_invalid_utf8_is_malformed() {
    let blob = encrypt(&[0xff, 0xfe, 0xfd], "m").unwrap();
    let text = base64::engine::general_purpose::STANDARD.encode(&blob);
    assert_eq!(decrypt_entry(&text, "m"), Err(CryptoError::Malformed));
}

#[test]
fn decoded_length_reads_standard_base64() {
    assert_eq!(decoded_length("aGVsbG8="), Some(5));
    assert_eq!(decoded_length(""), Some(0));
    assert_eq!(decoded_length("aGVsbG8"), None);
    assert_eq!(decoded_length("***"), None);
}

#[test]
fn blob_shorter_than_header_and_tag_never_opens() {
    for len in 28..44 {
        assert_eq!(decrypt(&vec![0u8; len], "p"), Err(CryptoError::Authentication));
    }
}
