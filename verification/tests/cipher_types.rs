use cryptman::crypto::CipherType;
use cryptman::error::CryptError;

#[test]
fn cipher_names_parse_back() {
    for c in [CipherType::Aes256Gcm, CipherType::XChaCha20Poly1305] {
        assert_eq!(CipherType::from_string(c.to_string()).unwrap(), c);
        assert_eq!(CipherType::from_id(c.to_id()).unwrap(), c);
    }
}

#[test]
fn cipher_ids_and_names() {
    assert_eq!(CipherType::Aes256Gcm.to_string(), "aes-256-gcm");
    assert_eq!(CipherType::XChaCha20Poly1305.to_string(), "xchacha20poly1305");
    assert_eq!(CipherType::Aes256Gcm.to_id(), 1);
    assert_eq!(CipherType::XChaCha20Poly1305.to_id(), 2);
}

#[test]
fn cipher_sizes() {
    assert_eq!(CipherType::Aes256Gcm.key_size(), 32);
    assert_eq!(CipherType::XChaCha20Poly1305.key_size(), 32);
    assert_eq!(CipherType::Aes256Gcm.nonce_size(), 12);
    assert_eq!(CipherType::XChaCha20Poly1305.nonce_size(), 24);
}

#[test]
fn unknown_cipher_name_is_refused() {
    match CipherType::from_string("des") {
        Err(CryptError::InvalidCipher(m)) => assert_eq!(m, "Unsupported cipher: des"),
        other => panic!("unexpected {:?}", other),
    }
    assert!(CipherType::from_string("AES-256-GCM").is_err());
    assert!(CipherType::from_string("").is_err());
}

#[test]
fn unknown_cipher_id_is_refused() {
    match CipherType::from_id(0) {
        Err(CryptError::InvalidCipher(m)) => assert_eq!(m, "Unsupported cipher id: 0"),
        other => panic!("unexpected {:?}", other),
    }
    match CipherType::from_id(65535) {
        Err(CryptError::InvalidCipher(m)) => assert_eq!(m, "Unsupported cipher id: 65535"),
        other => panic!("unexpected {:?}", other),
    }
}
