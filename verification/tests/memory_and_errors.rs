use cryptman::error::CryptError;
use cryptman::memory::{secure_random_bytes, SecureString, SecureVec, MAX_LOCKED_BYTES};
use cryptman::text::decimal_string;

#[test]
fn random_bytes_have_requested_length() {
    assert_eq!(secure_random_bytes(0).unwrap().len(), 0);
    let a = secure_random_bytes(32).unwrap();
    let b = secure_random_bytes(32).unwrap();
    assert_eq!(a.len(), 32);
    assert_ne!(a, b);
    assert_ne!(a, vec![0u8; 32]);
}

#[test]
fn secure_containers_keep_their_bytes() {
    let s = SecureString::new("päss".to_string());
    assert_eq!(s.as_bytes(), "päss".as_bytes());
    let v = SecureVec::new(vec![1, 2, 3]);
    assert_eq!(v.len(), 3);
    assert_eq!(v.as_slice(), &[1, 2, 3]);
    assert!(v.should_lock());
    let c = v.clone();
    assert_eq!(c.into_vec(), vec![1, 2, 3]);
    assert!(!SecureVec::new(vec![0; MAX_LOCKED_BYTES + 1]).should_lock());
    assert!(SecureVec::new(vec![0; MAX_LOCKED_BYTES]).should_lock());
}

#[test]
fn exit_codes() {
    let io = || CryptError::FileAccess(std::io::Error::new(std::io::ErrorKind::Other, "x"));
    assert_eq!(CryptError::WrongPassword.exit_code(), 1);
    assert_eq!(CryptError::CorruptedFile(String::new()).exit_code(), 2);
    assert_eq!(CryptError::InvalidKdfParameters(String::new()).exit_code(), 3);
    assert_eq!(io().exit_code(), 4);
    assert_eq!(CryptError::CliArgument(String::new()).exit_code(), 5);
    assert_eq!(CryptError::MemoryLock(String::new()).exit_code(), 5);
    assert_eq!(CryptError::Crypto(String::new()).exit_code(), 2);
    assert_eq!(CryptError::InvalidCipher(String::new()).exit_code(), 5);
    assert_eq!(CryptError::UnsupportedVersion(9).exit_code(), 2);
}

#[test]
fn decimal_rendering() {
    assert_eq!(decimal_string(0), "0");
    assert_eq!(decimal_string(7), "7");
    assert_eq!(decimal_string(10), "10");
    assert_eq!(decimal_string(65535), "65535");
    assert_eq!(decimal_string(u64::MAX), u64::MAX.to_string());
}
