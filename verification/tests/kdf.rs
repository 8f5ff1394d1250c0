use cryptman::error::CryptError;
use cryptman::kdf::{KdfConfig, KdfType};

fn config(time_cost: u32, memory_cost: u32, parallelism: u32, salt: Vec<u8>, hash: usize) -> KdfConfig {
    KdfConfig {
        kdf_type: KdfType::Argon2id { time_cost, memory_cost, parallelism },
        salt,
        hash_length: hash,
    }
}

#[test]
fn derive_key_is_deterministic_and_sized() {
    let c = config(1, 64, 1, vec![7u8; 16], 32);
    let a = c.derive_key(b"s3cret-password").unwrap();
    let b = c.derive_key(b"s3cret-password").unwrap();
    assert_eq!(a.len(), 32);
    assert_eq!(a.as_slice(), b.as_slice());
    assert_ne!(a.as_slice(), &[0u8; 32][..]);
    let other = c.derive_key(b"another").unwrap();
    assert_ne!(a.as_slice(), other.as_slice());
    let other_salt = config(1, 64, 1, vec![8u8; 16], 32).derive_key(b"s3cret-password").unwrap();
    assert_ne!(a.as_slice(), other_salt.as_slice());
}

#[test]
fn hash_length_sets_key_length() {
    let key = config(1, 64, 1, vec![1u8; 8], 48).derive_key(b"pw").unwrap();
    assert_eq!(key.len(), 48);
}

#[test]
fn refused_params_are_invalid_kdf_parameters() {
    match config(1, 4, 1, vec![1u8; 16], 32).derive_key(b"pw") {
        Err(CryptError::InvalidKdfParameters(m)) => {
            assert_eq!(m, "Failed to build Argon2id params: memory cost is too small")
        }
        _ => panic!("accepted"),
    }
    match config(0, 64, 1, vec![1u8; 16], 32).derive_key(b"pw") {
        Err(CryptError::InvalidKdfParameters(m)) => {
            assert_eq!(m, "Failed to build Argon2id params: time cost is too small")
        }
        _ => panic!("accepted"),
    }
    match config(1, 64, 1, vec![1u8; 16], 2).derive_key(b"pw") {
        Err(CryptError::InvalidKdfParameters(m)) => {
            assert_eq!(m, "Failed to build Argon2id params: output is too short")
        }
        _ => panic!("accepted"),
    }
    match config(1, 64, 0x4000_0000, vec![1u8; 16], 32).derive_key(b"pw") {
        Err(CryptError::InvalidKdfParameters(m)) => {
            assert_eq!(m, "Failed to build Argon2id params: too many threads")
        }
        _ => panic!("accepted"),
    }
}

fn params_message(c: KdfConfig) -> String {
    match c.derive_key(b"pw") {
        Err(CryptError::InvalidKdfParameters(m)) => m,
        _ => panic!("accepted"),
    }
}

#[test]
fn argon2_refusals_come_in_its_order() {
    let p = "Failed to build Argon2id params: ";
    // memory is checked before anything else
    assert_eq!(params_message(config(0, 4, 0x4000_0000, vec![1u8; 16], 32)), format!("{p}memory cost is too small"));
    // eight lanes of memory, counted in 32 bits: 8 * (2^29 + 16) wraps to 128
    assert_eq!(params_message(config(1, 64, 0x2000_0010, vec![1u8; 16], 32)), format!("{p}memory cost is too small"));
    assert_eq!(params_message(config(1, 256, 0x2000_0010, vec![1u8; 16], 32)), format!("{p}too many threads"));
    assert_eq!(params_message(config(0, 256, 0x2000_0010, vec![1u8; 16], 32)), format!("{p}time cost is too small"));
    assert_eq!(params_message(config(1, 64, 0x0100_0000, vec![1u8; 16], 32)), format!("{p}memory cost is too small"));
    assert_eq!(params_message(config(1, u32::MAX, 0x0100_0000, vec![1u8; 16], 32)), format!("{p}too many threads"));
    assert_eq!(params_message(config(1, 64, 0, vec![1u8; 16], 32)), format!("{p}not enough threads"));
    assert_eq!(params_message(config(0, 64, 0, vec![1u8; 16], 32)), format!("{p}time cost is too small"));
    assert_eq!(params_message(config(1, 64, 1, vec![1u8; 16], 0x1_0000_0000)), format!("{p}output is too long"));
}

#[test]
fn short_salt_fails_derivation() {
    match config(1, 64, 1, vec![1u8; 4], 32).derive_key(b"pw") {
        Err(CryptError::Crypto(m)) => {
            assert_eq!(m, "Argon2id key derivation failed: salt is too short")
        }
        _ => panic!("accepted"),
    }
}

#[test]
fn new_argon2id_draws_a_salt() {
    let c = KdfConfig::new_argon2id(3, 65536, 1, 16, 32).unwrap();
    assert_eq!(c.salt.len(), 16);
    assert_eq!(c.hash_length, 32);
    assert_eq!(c.argon2id_params(), (3, 65536, 1));
    let d = KdfConfig::new_argon2id(3, 65536, 1, 16, 32).unwrap();
    assert_ne!(c.salt, d.salt);
}

#[test]
fn from_argon2id_params_needs_a_salt() {
    match KdfConfig::from_argon2id_params(3, 65536, 1, Vec::new(), 32) {
        Err(CryptError::CorruptedFile(m)) => assert_eq!(m, "Argon2id salt must not be empty"),
        _ => panic!("accepted"),
    }
    let c = KdfConfig::from_argon2id_params(4, 70000, 2, vec![1, 2], 40).unwrap();
    assert_eq!(c.argon2id_params(), (4, 70000, 2));
    assert_eq!(c.salt, vec![1, 2]);
    assert_eq!(c.hash_length, 40);
}
