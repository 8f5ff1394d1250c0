use cryptman::cli::{validate_argon2id_params, validate_dec_args_no_kdf_params, validate_enc_args};
use cryptman::error::CryptError;

fn kdf_message(r: Result<(), CryptError>) -> String {
    match r {
        Err(CryptError::InvalidKdfParameters(m)) => m,
        other => panic!("unexpected {:?}", other),
    }
}

#[test]
fn defaults_are_accepted() {
    assert!(validate_enc_args("aes-256-gcm", 3, 65536, 1, 16, 32).is_ok());
    assert!(validate_enc_args("xchacha20poly1305", 10, 1 << 20, 8, 64, 64).is_ok());
}

#[test]
fn unsupported_cipher_is_refused_first() {
    match validate_enc_args("rot13", 0, 0, 0, 0, 0) {
        Err(CryptError::InvalidCipher(m)) => assert_eq!(m, "Unsupported cipher: rot13"),
        other => panic!("unexpected {:?}", other),
    }
}

#[test]
fn weak_kdf_settings_are_refused_in_order() {
    assert_eq!(
        kdf_message(validate_enc_args("aes-256-gcm", 2, 0, 0, 0, 0)),
        "Argon2id time cost must be at least 3"
    );
    assert_eq!(
        kdf_message(validate_argon2id_params(3, 65535, 0, 0, 0)),
        "Argon2id memory cost must be at least 65536 KB (64 MiB)"
    );
    assert_eq!(
        kdf_message(validate_argon2id_params(3, 65536, 0, 0, 0)),
        "Argon2id parallelism must be at least 1"
    );
    assert_eq!(
        kdf_message(validate_argon2id_params(3, 65536, 1, 15, 0)),
        "Argon2id salt length must be at least 16 bytes"
    );
    assert_eq!(
        kdf_message(validate_argon2id_params(3, 65536, 1, 16, 31)),
        "Argon2id hash length must be at least 32 bytes"
    );
}

#[test]
fn decryption_refuses_kdf_flags() {
    let ok = ["cryptman", "dec", "in.enc", "out", "--passin", "env:PW"];
    assert!(validate_dec_args_no_kdf_params(&ok).is_ok());
    let bad = ["cryptman", "dec", "--argon2id-salt-length", "in", "--cipher", "out"];
    match validate_dec_args_no_kdf_params(&bad) {
        Err(CryptError::CliArgument(m)) => {
            assert_eq!(m, "Flag --cipher must not be specified in decryption mode")
        }
        other => panic!("unexpected {:?}", other),
    }
    let bad = ["dec", "--argon2id-hash-length"];
    match validate_dec_args_no_kdf_params(&bad) {
        Err(CryptError::CliArgument(m)) => {
            assert_eq!(m, "Flag --argon2id-hash-length must not be specified in decryption mode")
        }
        other => panic!("unexpected {:?}", other),
    }
    assert!(validate_dec_args_no_kdf_params(&["--cipher=aes-256-gcm"]).is_ok());
}
