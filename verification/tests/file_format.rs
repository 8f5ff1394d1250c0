use cryptman::crypto::{CipherType, EncryptedChunk, CHUNK_SIZE};
use cryptman::error::CryptError;
use cryptman::file::{
    calculate_chunk_count, chunk_plaintext_len, is_std_stream, is_unexpected_eof,
    overwrite_refused, plan_payload, read_encrypted_chunk, read_exact_checked, read_header,
    read_u16, read_u32, write_chunk, write_header, FileHeader, PayloadKind, FILE_VERSION,
};
use cryptman::kdf::{KdfConfig, KdfType};

fn header(payload: PayloadKind) -> FileHeader {
    FileHeader {
        version: FILE_VERSION,
        cipher: CipherType::XChaCha20Poly1305,
        kdf_config: KdfConfig {
            kdf_type: KdfType::Argon2id { time_cost: 3, memory_cost: 65536, parallelism: 1 },
            salt: vec![0xAA; 16],
            hash_length: 32,
        },
        payload,
    }
}

fn encode_header(h: &FileHeader) -> Vec<u8> {
    let mut out = Vec::new();
    write_header(&mut out, h).unwrap();
    out
}

fn encode_chunk(c: &EncryptedChunk) -> Vec<u8> {
    let mut out = Vec::new();
    write_chunk(&mut out, c).unwrap();
    out
}

fn corrupted_message(r: Result<(FileHeader, usize), CryptError>) -> String {
    match r {
        Err(CryptError::CorruptedFile(m)) => m,
        Err(e) => panic!("unexpected error {:?}", e),
        Ok(_) => panic!("unexpected success"),
    }
}

#[test]
fn header_bytes_are_laid_out_little_endian() {
    let bytes = encode_header(&header(PayloadKind::Chunked { chunk_count: 3 }));
    let mut expected = vec![0xF0, 0x9F, 0x94, 0x90, 1, 0, 0, 0, 1, 0, 0, 0, 2, 0];
    expected.extend_from_slice(&[3, 0, 0, 0, 0, 0, 1, 0, 1, 0, 0, 0, 16, 0]);
    expected.extend_from_slice(&[0xAA; 16]);
    expected.extend_from_slice(&[32, 0, 3, 0, 0, 0]);
    assert_eq!(bytes, expected);
}

#[test]
fn single_header_has_no_chunk_count() {
    let bytes = encode_header(&header(PayloadKind::Single));
    assert_eq!(bytes.len(), 28 + 16 + 2);
    assert_eq!(&bytes[8..12], &[0, 0, 0, 0]);
}

#[test]
fn header_roundtrip_with_trailing_bytes() {
    for payload in [PayloadKind::Single, PayloadKind::Chunked { chunk_count: 70000 }] {
        let h = header(payload);
        let mut bytes = encode_header(&h);
        let written = bytes.len();
        bytes.extend_from_slice(&[9, 9, 9]);
        let (back, used) = read_header(&bytes).unwrap();
        assert_eq!(used, written);
        assert_eq!(back.version, h.version);
        assert_eq!(back.cipher, h.cipher);
        assert_eq!(back.payload, h.payload);
        assert_eq!(back.kdf_config.salt, h.kdf_config.salt);
        assert_eq!(back.kdf_config.hash_length, 32);
        assert_eq!(back.kdf_config.argon2id_params(), (3, 65536, 1));
    }
}

#[test]
fn bad_magic_is_refused() {
    let mut bytes = encode_header(&header(PayloadKind::Single));
    bytes[0] = 0;
    assert_eq!(corrupted_message(read_header(&bytes)), "Invalid magic prefix");
}

#[test]
fn newer_version_is_refused() {
    let mut bytes = encode_header(&header(PayloadKind::Single));
    bytes[4] = 2;
    assert!(matches!(read_header(&bytes), Err(CryptError::UnsupportedVersion(2))));
}

#[test]
fn unknown_cipher_id_in_header() {
    let mut bytes = encode_header(&header(PayloadKind::Single));
    bytes[12] = 9;
    match read_header(&bytes) {
        Err(CryptError::InvalidCipher(m)) => assert_eq!(m, "Unsupported cipher id: 9"),
        other => panic!("unexpected {:?}", other.map(|r| r.1)),
    }
}

#[test]
fn zero_lengths_are_refused() {
    let mut bytes = encode_header(&header(PayloadKind::Single));
    bytes[26] = 0;
    assert_eq!(corrupted_message(read_header(&bytes)), "Salt length is zero");
    let mut bytes = encode_header(&header(PayloadKind::Single));
    bytes[28 + 16] = 0;
    assert_eq!(corrupted_message(read_header(&bytes)), "Hash length is zero");
    let mut bytes = encode_header(&header(PayloadKind::Chunked { chunk_count: 1 }));
    let n = bytes.len();
    bytes[n - 4] = 0;
    assert_eq!(corrupted_message(read_header(&bytes)), "Chunked payload with zero chunks");
}

#[test]
fn truncated_header_is_unexpected_eof() {
    let bytes = encode_header(&header(PayloadKind::Chunked { chunk_count: 2 }));
    for cut in [0, 3, 4, 10, 27, 30, bytes.len() - 1] {
        let e = read_header(&bytes[..cut]).map(|r| r.1).unwrap_err();
        assert!(is_unexpected_eof(&e));
        assert!(matches!(e, CryptError::CorruptedFile(ref m) if m == "Unexpected end of file"));
    }
}

#[test]
fn oversized_salt_or_hash_cannot_be_written() {
    let mut h = header(PayloadKind::Single);
    h.kdf_config.salt = vec![1; 65536];
    let mut out = vec![7u8];
    let r = write_header(&mut out, &h);
    assert!(matches!(r, Err(CryptError::Crypto(ref m)) if m == "Salt too large to encode"));
    // magic, version, flags, cipher id and the three costs were written first
    let mut expected = vec![7u8, 0xF0, 0x9F, 0x94, 0x90, 1, 0, 0, 0, 0, 0, 0, 0, 2, 0];
    expected.extend_from_slice(&[3, 0, 0, 0, 0, 0, 1, 0, 1, 0, 0, 0]);
    assert_eq!(out, expected);
    assert_eq!(out.len(), 1 + 26);

    let mut h = header(PayloadKind::Single);
    h.kdf_config.hash_length = 65536;
    let mut out = Vec::new();
    let r = write_header(&mut out, &h);
    assert!(matches!(r, Err(CryptError::Crypto(ref m)) if m == "Hash length too large to encode"));
    assert_eq!(out.len(), 28 + 16);
    assert_eq!(&out[26..28], &[16, 0]);
    assert_eq!(&out[28..], &[0xAA; 16][..]);
}

#[test]
fn chunk_roundtrip() {
    let chunk = EncryptedChunk { nonce: vec![1, 2, 3], ciphertext: vec![4, 5, 6, 7, 8] };
    let mut bytes = encode_chunk(&chunk);
    assert_eq!(bytes, vec![3, 0, 1, 2, 3, 5, 0, 0, 0, 4, 5, 6, 7, 8]);
    bytes.push(42);
    let (back, used) = read_encrypted_chunk(&bytes).unwrap();
    assert_eq!(used, 14);
    assert_eq!(back.nonce, chunk.nonce);
    assert_eq!(back.ciphertext, chunk.ciphertext);
}

#[test]
fn malformed_chunks_are_refused() {
    let msg = |b: &[u8]| match read_encrypted_chunk(b) {
        Err(CryptError::CorruptedFile(m)) => m,
        _ => panic!("accepted"),
    };
    assert_eq!(msg(&[0, 0, 1]), "Nonce length is zero");
    assert_eq!(msg(&[1, 0, 7, 0, 0, 0, 0]), "Ciphertext length is zero");
    assert_eq!(msg(&[1, 0, 7, 2, 0, 0, 0, 1]), "Unexpected end of file");
    assert_eq!(msg(&[1]), "Unexpected end of file");
}

#[test]
fn oversized_nonce_cannot_be_written() {
    let chunk = EncryptedChunk { nonce: vec![0; 65536], ciphertext: vec![1] };
    let mut out = vec![1u8, 2];
    let r = write_chunk(&mut out, &chunk);
    assert!(matches!(r, Err(CryptError::Crypto(ref m)) if m == "Nonce too large to encode"));
    assert_eq!(out, vec![1u8, 2]);
}

#[test]
fn little_endian_readers() {
    let b = [0x34, 0x12, 0x78, 0x56, 0x34, 0x12];
    assert_eq!(read_u16(&b, 0).unwrap(), 0x1234);
    assert_eq!(read_u32(&b, 2).unwrap(), 0x12345678);
    assert!(read_u32(&b, 3).is_err());
    assert!(read_u16(&b, 5).is_err());
    assert_eq!(read_exact_checked(&b, 1, 3).unwrap(), vec![0x12, 0x78, 0x56]);
    assert!(read_exact_checked(&b, 4, 3).is_err());
    assert!(read_exact_checked(&b, usize::MAX, 3).is_err());
}

#[test]
fn chunk_counts() {
    assert_eq!(calculate_chunk_count(0).unwrap(), 1);
    assert_eq!(calculate_chunk_count(1).unwrap(), 1);
    assert_eq!(calculate_chunk_count(CHUNK_SIZE as u64).unwrap(), 1);
    assert_eq!(calculate_chunk_count(CHUNK_SIZE as u64 + 1).unwrap(), 2);
    assert_eq!(calculate_chunk_count(10 * CHUNK_SIZE as u64).unwrap(), 10);
    let limit = (u32::MAX as u64) * CHUNK_SIZE as u64;
    assert_eq!(calculate_chunk_count(limit).unwrap(), u32::MAX as u64);
    assert!(matches!(calculate_chunk_count(limit + 1),
        Err(CryptError::Crypto(ref m)) if m == "File too large to encrypt with chunk metadata"));
    assert!(calculate_chunk_count(u64::MAX).is_err());
}

#[test]
fn payload_plans() {
    assert_eq!(plan_payload(12).unwrap(), PayloadKind::Single);
    assert_eq!(plan_payload(CHUNK_SIZE as u64).unwrap(), PayloadKind::Single);
    assert_eq!(
        plan_payload(2 * CHUNK_SIZE as u64 + 5).unwrap(),
        PayloadKind::Chunked { chunk_count: 3 }
    );
    assert_eq!(PayloadKind::Single.chunk_count(), 1);
    assert!(!PayloadKind::Single.is_chunked());
    assert!(PayloadKind::Chunked { chunk_count: 4 }.is_chunked());
}

#[test]
fn chunk_lengths_cover_the_file() {
    for size in [1u64, 100, CHUNK_SIZE as u64, CHUNK_SIZE as u64 + 1, 3 * CHUNK_SIZE as u64 - 7] {
        let n = calculate_chunk_count(size).unwrap() as u32;
        let mut total = 0u64;
        for i in 0..n {
            let len = chunk_plaintext_len(size, i, n);
            assert!(len <= CHUNK_SIZE);
            if i + 1 < n {
                assert_eq!(len, CHUNK_SIZE);
            }
            total += len as u64;
        }
        assert_eq!(total, size);
    }
    assert_eq!(chunk_plaintext_len(0, 0, 1), 0);
}

#[test]
fn output_overwrite_rules() {
    assert!(is_std_stream("-"));
    assert!(!is_std_stream("out.enc"));
    assert!(overwrite_refused("out.enc", true, false));
    assert!(!overwrite_refused("out.enc", true, true));
    assert!(!overwrite_refused("out.enc", false, false));
    assert!(!overwrite_refused("-", true, false));
}

#[test]
fn consecutive_chunks_read_back_in_order() {
    let chunks = [
        EncryptedChunk { nonce: vec![1; 12], ciphertext: vec![2; 20] },
        EncryptedChunk { nonce: vec![3; 12], ciphertext: vec![4; 17] },
        EncryptedChunk { nonce: vec![5; 24], ciphertext: vec![6; 16] },
    ];
    let mut stream = encode_header(&header(PayloadKind::Chunked { chunk_count: 3 }));
    for c in &chunks {
        stream.extend_from_slice(&encode_chunk(c));
    }
    let (h, mut pos) = read_header(&stream).unwrap();
    assert_eq!(h.payload, PayloadKind::Chunked { chunk_count: 3 });
    for c in &chunks {
        let (back, used) = read_encrypted_chunk(&stream[pos..]).unwrap();
        assert_eq!(back.nonce, c.nonce);
        assert_eq!(back.ciphertext, c.ciphertext);
        pos += used;
    }
    assert_eq!(pos, stream.len());
}
