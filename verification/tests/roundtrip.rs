use cryptman::crypto::{Cipher, CipherType, CHUNK_SIZE};
use cryptman::file::chunk_plaintext_len;
use cryptman::memory::SecureVec;
use cryptman::pipeline::ChunkReorder;
use cryptman::file::{
    plan_payload, read_encrypted_chunk, read_header, write_chunk, write_header, FileHeader,
    PayloadKind, FILE_VERSION,
};
use cryptman::kdf::KdfConfig;
use cryptman::password::{get_password, password_from_env, PasswordSource};

/// What `cryptman enc hello.txt hello.enc --passin env:CRYPTMAN_TEST_PASSWORD`
/// followed by `cryptman dec hello.enc hello.out --passin ...` computes,
/// with the file and environment access left out.
#[test]
fn encrypt_then_decrypt_hello_world() {
    let plaintext = b"Hello World!".to_vec();
    let var = match get_password("env:CRYPTMAN_TEST_PASSWORD", false).unwrap() {
        PasswordSource::Env(v) => v,
        other => panic!("unexpected {:?}", other),
    };
    assert_eq!(var, "CRYPTMAN_TEST_PASSWORD");
    let password = password_from_env(&var, Some("s3cret-password".to_string())).unwrap();

    // enc, with the default cipher and Argon2id settings
    let kdf = KdfConfig::new_argon2id(3, 65536, 1, 16, 32).unwrap();
    let key = kdf.derive_key(password.as_bytes()).unwrap();
    let cipher_type = CipherType::from_string("aes-256-gcm").unwrap();
    let payload = plan_payload(plaintext.len() as u64).unwrap();
    assert_eq!(payload, PayloadKind::Single);
    let header = FileHeader { version: FILE_VERSION, cipher: cipher_type, kdf_config: kdf, payload };
    let cipher = Cipher::new(cipher_type, key).unwrap();
    let mut file = Vec::new();
    write_header(&mut file, &header).unwrap();
    write_chunk(&mut file, &cipher.encrypt(&plaintext).unwrap()).unwrap();

    // dec
    let (read_back, used) = read_header(&file).unwrap();
    let key = read_back.kdf_config.derive_key(password.as_bytes()).unwrap();
    let cipher = Cipher::new(read_back.cipher, key).unwrap();
    let (chunk, _) = read_encrypted_chunk(&file[used..]).unwrap();
    let decrypted = cipher.decrypt(&chunk).unwrap();
    assert_eq!(decrypted.as_slice(), b"Hello World!");
}

#[test]
fn chunked_payload_roundtrip_out_of_order() {
    let size = 2 * CHUNK_SIZE + 1000;
    let plaintext: Vec<u8> = (0..size).map(|i| (i % 251) as u8).collect();
    let payload = plan_payload(size as u64).unwrap();
    let count = payload.chunk_count();
    assert_eq!(count, 3);
    let cipher = Cipher::new(CipherType::XChaCha20Poly1305, SecureVec::new(vec![9; 32])).unwrap();

    // encrypt the chunks, finishing in reverse order, and write them in index order
    let mut offset = 0usize;
    let mut sealed = Vec::new();
    for i in 0..count {
        let len = chunk_plaintext_len(size as u64, i, count);
        sealed.push((i, cipher.encrypt(&plaintext[offset..offset + len]).unwrap()));
        offset += len;
    }
    let mut reorder = ChunkReorder::new();
    let mut stream = Vec::new();
    for (i, chunk) in sealed.into_iter().rev() {
        for ready in reorder.accept(i, chunk) {
            write_chunk(&mut stream, &ready).unwrap();
        }
    }

    // read them back and decrypt
    let mut pos = 0;
    let mut out = Vec::new();
    for _ in 0..count {
        let (chunk, used) = read_encrypted_chunk(&stream[pos..]).unwrap();
        out.extend_from_slice(cipher.decrypt(&chunk).unwrap().as_slice());
        pos += used;
    }
    assert_eq!(out, plaintext);
}

#[test]
fn failed_chunk_stops_output_at_its_boundary() {
    let size = 3 * CHUNK_SIZE;
    let plaintext: Vec<u8> = (0..size).map(|i| (i % 253) as u8).collect();
    let count = plan_payload(size as u64).unwrap().chunk_count();
    assert_eq!(count, 3);
    let cipher = Cipher::new(CipherType::Aes256Gcm, SecureVec::new(vec![3; 32])).unwrap();
    let mut chunks: Vec<_> = (0..count as usize)
        .map(|i| cipher.encrypt(&plaintext[i * CHUNK_SIZE..(i + 1) * CHUNK_SIZE]).unwrap())
        .collect();
    chunks[1].ciphertext[0] ^= 1;

    // results arrive as 2, 1 (failed), 0; the failed one is never handed in
    let mut reorder = ChunkReorder::new();
    let mut written = Vec::new();
    for i in [2u32, 1, 0] {
        match cipher.decrypt(&chunks[i as usize]) {
            Ok(plain) => {
                for data in reorder.accept(i, plain.into_vec()) {
                    written.extend_from_slice(&data);
                }
            }
            Err(_) => assert_eq!(i, 1),
        }
    }
    assert_eq!(reorder.next_index(), 1);
    assert_eq!(written, plaintext[..CHUNK_SIZE].to_vec());
}
