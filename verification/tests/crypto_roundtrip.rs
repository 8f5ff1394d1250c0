use cryptman::crypto::{Cipher, CipherType, EncryptedChunk, TAG_SIZE};
use cryptman::error::CryptError;
use cryptman::memory::SecureVec;

fn cipher(kind: CipherType, key_byte: u8) -> Cipher {
    Cipher::new(kind, SecureVec::new(vec![key_byte; 32])).unwrap()
}

#[test]
fn encrypt_then_decrypt_gives_plaintext_back() {
    for kind in [CipherType::Aes256Gcm, CipherType::XChaCha20Poly1305] {
        let c = cipher(kind, 7);
        let plaintext = b"Hello World!".to_vec();
        let chunk = c.encrypt(&plaintext).unwrap();
        assert_eq!(chunk.nonce.len(), kind.nonce_size());
        assert_eq!(chunk.ciphertext.len(), plaintext.len() + TAG_SIZE);
        assert_ne!(&chunk.ciphertext[..plaintext.len()], &plaintext[..]);
        let back = c.decrypt(&chunk).unwrap();
        assert_eq!(back.as_slice(), &plaintext[..]);
    }
}

#[test]
fn empty_plaintext_roundtrips() {
    for kind in [CipherType::Aes256Gcm, CipherType::XChaCha20Poly1305] {
        let c = cipher(kind, 1);
        let chunk = c.encrypt(&[]).unwrap();
        assert_eq!(chunk.ciphertext.len(), TAG_SIZE);
        assert_eq!(c.decrypt(&chunk).unwrap().len(), 0);
    }
}

#[test]
fn fresh_nonces_differ() {
    let c = cipher(CipherType::XChaCha20Poly1305, 3);
    let a = c.encrypt(b"same").unwrap();
    let b = c.encrypt(b"same").unwrap();
    assert_ne!(a.nonce, b.nonce);
    assert_ne!(a.ciphertext, b.ciphertext);
}

#[test]
fn aes_gcm_known_answer() {
    // AES-256-GCM, zero key, zero nonce, empty plaintext: only the tag.
    let c = cipher(CipherType::Aes256Gcm, 0);
    let chunk = c.encrypt_with_nonce(vec![0u8; 12], &[]).unwrap();
    let expected: [u8; 16] = [
        0x53, 0x0f, 0x8a, 0xfb, 0xc7, 0x45, 0x36, 0xb9, 0xa9, 0x63, 0xb4, 0xf1, 0xc4, 0xcb, 0x73,
        0x8b,
    ];
    assert_eq!(chunk.ciphertext, expected.to_vec());
}

#[test]
fn encrypt_with_nonce_is_deterministic() {
    let c = cipher(CipherType::XChaCha20Poly1305, 9);
    let a = c.encrypt_with_nonce(vec![5u8; 24], b"payload").unwrap();
    let b = c.encrypt_with_nonce(vec![5u8; 24], b"payload").unwrap();
    assert_eq!(a.ciphertext, b.ciphertext);
    assert_eq!(a.nonce, vec![5u8; 24]);
    assert_eq!(c.decrypt(&a).unwrap().as_slice(), b"payload");
}

#[test]
fn tampered_ciphertext_is_wrong_password() {
    for kind in [CipherType::Aes256Gcm, CipherType::XChaCha20Poly1305] {
        let c = cipher(kind, 4);
        let mut chunk = c.encrypt(b"secret data").unwrap();
        chunk.ciphertext[0] ^= 1;
        assert!(matches!(c.decrypt(&chunk), Err(CryptError::WrongPassword)));
    }
}

#[test]
fn other_key_is_wrong_password() {
    let c = cipher(CipherType::Aes256Gcm, 4);
    let d = cipher(CipherType::Aes256Gcm, 5);
    let chunk = c.encrypt(b"secret data").unwrap();
    assert!(matches!(d.decrypt(&chunk), Err(CryptError::WrongPassword)));
}

#[test]
fn wrong_nonce_length_is_corrupted_file() {
    let c = cipher(CipherType::Aes256Gcm, 4);
    let chunk = EncryptedChunk { nonce: vec![0u8; 24], ciphertext: vec![0u8; 20] };
    match c.decrypt(&chunk) {
        Err(CryptError::CorruptedFile(m)) => assert_eq!(m, "Invalid nonce length for AES-GCM"),
        other => panic!("unexpected {:?}", other.map(|v| v.len())),
    }
    let x = cipher(CipherType::XChaCha20Poly1305, 4);
    let chunk = EncryptedChunk { nonce: vec![0u8; 12], ciphertext: vec![0u8; 20] };
    match x.decrypt(&chunk) {
        Err(CryptError::CorruptedFile(m)) => {
            assert_eq!(m, "Invalid nonce length for XChaCha20Poly1305")
        }
        other => panic!("unexpected {:?}", other.map(|v| v.len())),
    }
}

#[test]
fn short_key_is_refused() {
    match Cipher::new(CipherType::XChaCha20Poly1305, SecureVec::new(vec![0u8; 16])) {
        Err(CryptError::Crypto(m)) => {
            assert_eq!(m, "Invalid key size for xchacha20poly1305: expected 32, got 16")
        }
        _ => panic!("short key accepted"),
    }
}

#[test]
fn cloned_cipher_decrypts() {
    let c = cipher(CipherType::Aes256Gcm, 8);
    let chunk = c.encrypt(b"abc").unwrap();
    let d = c.clone();
    assert_eq!(d.cipher_type(), CipherType::Aes256Gcm);
    assert_eq!(d.decrypt(&chunk).unwrap().as_slice(), b"abc");
}

#[test]
fn cipher_hands_out_its_key() {
    let c = Cipher::new(CipherType::XChaCha20Poly1305, SecureVec::new((0u8..32).collect())).unwrap();
    let expected: Vec<u8> = (0u8..32).collect();
    assert_eq!(c.key().as_slice(), expected.as_slice());
    assert!(c.key().should_lock());
}
