use vstd::prelude::*;

use crate::crypto::cipher_named;
use crate::error::{CryptError, CryptErrorView};
use crate::text::{join2, join3, str_eq};

verus! {

/// The first Argon2id setting, in the order they are checked, that is below
/// the hardened minimum (time cost 3, memory 64 MiB, one lane, 16-byte salt,
/// 32-byte hash), as the message that reports it.
pub open spec fn argon2id_params_problem(
    time_cost: u32,
    memory_cost: u32,
    parallelism: u32,
    salt_length: usize,
    hash_length: usize,
) -> Option<Seq<char>> {
    if time_cost < 3 {
        Some("Argon2id time cost must be at least 3"@)
    } else if memory_cost < 65536 {
        Some("Argon2id memory cost must be at least 65536 KB (64 MiB)"@)
    } else if parallelism < 1 {
        Some("Argon2id parallelism must be at least 1"@)
    } else if salt_length < 16 {
        Some("Argon2id salt length must be at least 16 bytes"@)
    } else if hash_length < 32 {
        Some("Argon2id hash length must be at least 32 bytes"@)
    } else {
        None
    }
}

/// What checking the encryption arguments gives: the cipher must be one of
/// the two supported names, then the Argon2id settings must meet the minimums.
pub open spec fn enc_args_result(
    cipher: Seq<char>,
    time_cost: u32,
    memory_cost: u32,
    parallelism: u32,
    salt_length: usize,
    hash_length: usize,
) -> Result<(), CryptErrorView> {
    if cipher_named(cipher) is None {
        Err(CryptErrorView::InvalidCipher("Unsupported cipher: "@ + cipher))
    } else {
        match argon2id_params_problem(time_cost, memory_cost, parallelism, salt_length, hash_length) {
            Some(m) => Err(CryptErrorView::InvalidKdfParameters(m)),
            None => Ok(()),
        }
    }
}

/// Arguments that pass the check name a cipher that `CipherType::from_string`
/// accepts, and Argon2id settings at or above the minimums.
pub proof fn lemma_validated_args_meet_minimums(
    cipher: Seq<char>,
    time_cost: u32,
    memory_cost: u32,
    parallelism: u32,
    salt_length: usize,
    hash_length: usize,
)
    requires
        enc_args_result(cipher, time_cost, memory_cost, parallelism, salt_length, hash_length) is Ok,
    ensures
        cipher_named(cipher) is Some,
        time_cost >= 3 && memory_cost >= 65536 && parallelism >= 1,
        salt_length >= 16 && hash_length >= 32,
{
}

/// Settings at or above every minimum pass, and only those: the Argon2id
/// check finds no problem exactly when the time cost is at least 3, the
/// memory cost at least 65536 KiB (however many lanes), parallelism at least
/// 1, the salt at least 16 bytes and the hash at least 32 bytes; with either
/// supported cipher name, the whole encryption check then passes.
pub proof fn lemma_minimums_are_enough(
    cipher: Seq<char>,
    time_cost: u32,
    memory_cost: u32,
    parallelism: u32,
    salt_length: usize,
    hash_length: usize,
)
    ensures
        argon2id_params_problem(time_cost, memory_cost, parallelism, salt_length, hash_length)
            is None <==> (time_cost >= 3 && memory_cost >= 65536 && parallelism >= 1
            && salt_length >= 16 && hash_length >= 32),
        (cipher == "aes-256-gcm"@ || cipher == "xchacha20poly1305"@) && time_cost >= 3
            && memory_cost >= 65536 && parallelism >= 1 && salt_length >= 16 && hash_length >= 32
            ==> enc_args_result(
            cipher,
            time_cost,
            memory_cost,
            parallelism,
            salt_length,
            hash_length,
        ) is Ok,
{
    crate::crypto::lemma_cipher_codes_roundtrip(crate::crypto::CipherType::Aes256Gcm);
    crate::crypto::lemma_cipher_codes_roundtrip(crate::crypto::CipherType::XChaCha20Poly1305);
    reveal_strlit("aes-256-gcm");
    reveal_strlit("xchacha20poly1305");
}

pub fn validate_enc_args(
    cipher: &str,
    argon2id_time_cost: u32,
    argon2id_memory_cost: u32,
    argon2id_parallelism: u32,
    argon2id_salt_length: usize,
    argon2id_hash_length: usize,
) -> (r: Result<(), CryptError>)
    ensures
        match enc_args_result(
            cipher@,
            argon2id_time_cost,
            argon2id_memory_cost,
            argon2id_parallelism,
            argon2id_salt_length,
            argon2id_hash_length,
        ) {
            Ok(()) => r is Ok,
            Err(e) => r matches Err(err) && err@ == e,
        },
{
    if !(str_eq(cipher, "aes-256-gcm") || str_eq(cipher, "xchacha20poly1305")) {
        return Err(CryptError::InvalidCipher(join2("Unsupported cipher: ", cipher)));
    }
    validate_argon2id_params(
        argon2id_time_cost,
        argon2id_memory_cost,
        argon2id_parallelism,
        argon2id_salt_length,
        argon2id_hash_length,
    )?;
    Ok(())
}

fn kdf_problem(message: &str) -> (e: CryptError)
    ensures
        e@ == CryptErrorView::InvalidKdfParameters(message@),
{
    CryptError::InvalidKdfParameters(String::from_str(message))
}

/// Refuses Argon2id settings below the hardened minimums.
pub fn validate_argon2id_params(
    time_cost: u32,
    memory_cost: u32,
    parallelism: u32,
    salt_length: usize,
    hash_length: usize,
) -> (r: Result<(), CryptError>)
    ensures
        match argon2id_params_problem(time_cost, memory_cost, parallelism, salt_length, hash_length) {
            None => r is Ok,
            Some(m) => r matches Err(e) && e@ == CryptErrorView::InvalidKdfParameters(m),
        },
{
    if time_cost < 3 {
        return Err(kdf_problem("Argon2id time cost must be at least 3"));
    }
    if memory_cost < 65536 {
        return Err(kdf_problem("Argon2id memory cost must be at least 65536 KB (64 MiB)"));
    }
    if parallelism < 1 {
        return Err(kdf_problem("Argon2id parallelism must be at least 1"));
    }
    if salt_length < 16 {
        return Err(kdf_problem("Argon2id salt length must be at least 16 bytes"));
    }
    if hash_length < 32 {
        return Err(kdf_problem("Argon2id hash length must be at least 32 bytes"));
    }
    Ok(())
}

/// The flags that only encryption takes, in the order they are checked.
pub open spec fn forbidden_dec_flags() -> Seq<Seq<char>> {
    seq![
        "--cipher"@,
        "--argon2id-time-cost"@,
        "--argon2id-memory-cost"@,
        "--argon2id-parallelism"@,
        "--argon2id-salt-length"@,
        "--argon2id-hash-length"@,
    ]
}

/// Whether `flag` is one of `args`, compared whole.
pub open spec fn has_arg(args: Seq<&str>, flag: Seq<char>) -> bool {
    exists|j: int| 0 <= j < args.len() && (#[trigger] args[j])@ == flag
}

/// The first forbidden flag, from position `i` of the list on, that `args`
/// holds.
pub open spec fn first_forbidden_from(args: Seq<&str>, i: nat) -> Option<Seq<char>>
    decreases forbidden_dec_flags().len() - i,
{
    if i >= forbidden_dec_flags().len() {
        None
    } else if has_arg(args, forbidden_dec_flags()[i as int]) {
        Some(forbidden_dec_flags()[i as int])
    } else {
        first_forbidden_from(args, i + 1)
    }
}

pub open spec fn dec_flag_message(flag: Seq<char>) -> Seq<char> {
    "Flag "@ + flag + " must not be specified in decryption mode"@
}

/// Each of the six encryption-only flags refuses decryption when it is one
/// of the arguments, and nothing else does: the check passes exactly when
/// none of `--cipher`, `--argon2id-time-cost`, `--argon2id-memory-cost`,
/// `--argon2id-parallelism`, `--argon2id-salt-length` and
/// `--argon2id-hash-length` is among them; otherwise the flag reported is
/// one of them that is present, the first in that order.
pub proof fn lemma_dec_flags_refused(args: Seq<&str>)
    ensures
        first_forbidden_from(args, 0) is None <==> (!has_arg(args, "--cipher"@) && !has_arg(
            args,
            "--argon2id-time-cost"@,
        ) && !has_arg(args, "--argon2id-memory-cost"@) && !has_arg(
            args,
            "--argon2id-parallelism"@,
        ) && !has_arg(args, "--argon2id-salt-length"@) && !has_arg(
            args,
            "--argon2id-hash-length"@,
        )),
        has_arg(args, "--cipher"@) ==> first_forbidden_from(args, 0) == Some("--cipher"@),
        !has_arg(args, "--cipher"@) && has_arg(args, "--argon2id-time-cost"@) ==> first_forbidden_from(args, 0)
            == Some("--argon2id-time-cost"@),
        !has_arg(args, "--cipher"@) && !has_arg(args, "--argon2id-time-cost"@) && has_arg(
            args,
            "--argon2id-memory-cost"@,
        ) ==> first_forbidden_from(args, 0) == Some("--argon2id-memory-cost"@),
        !has_arg(args, "--cipher"@) && !has_arg(args, "--argon2id-time-cost"@) && !has_arg(
            args,
            "--argon2id-memory-cost"@,
        ) && has_arg(args, "--argon2id-parallelism"@) ==> first_forbidden_from(args, 0) == Some(
            "--argon2id-parallelism"@,
        ),
        !has_arg(args, "--cipher"@) && !has_arg(args, "--argon2id-time-cost"@) && !has_arg(
            args,
            "--argon2id-memory-cost"@,
        ) && !has_arg(args, "--argon2id-parallelism"@) && has_arg(args, "--argon2id-salt-length"@)
            ==> first_forbidden_from(args, 0) == Some("--argon2id-salt-length"@),
        !has_arg(args, "--cipher"@) && !has_arg(args, "--argon2id-time-cost"@) && !has_arg(
            args,
            "--argon2id-memory-cost"@,
        ) && !has_arg(args, "--argon2id-parallelism"@) && !has_arg(args, "--argon2id-salt-length"@)
            && has_arg(args, "--argon2id-hash-length"@) ==> first_forbidden_from(args, 0) == Some(
            "--argon2id-hash-length"@,
        ),
{
    reveal_with_fuel(first_forbidden_from, 7);
}

fn arg_present(args: &[&str], flag: &str) -> (b: bool)
    ensures
        b == has_arg(args@, flag@),
{
    let mut i: usize = 0;
    while i < args.len()
        invariant
            i <= args@.len(),
            forall|j: int| 0 <= j < i ==> (#[trigger] args@[j])@ != flag@,
        decreases args@.len() - i,
    {
        if str_eq(args[i], flag) {
            assert(args@[i as int]@ == flag@);
            return true;
        }
        i += 1;
    }
    false
}

fn check_flag(args: &[&str], flag: &str) -> (r: Result<(), CryptError>)
    ensures
        has_arg(args@, flag@) ==> (r matches Err(e) && e@ == CryptErrorView::CliArgument(
            dec_flag_message(flag@),
        )),
        !has_arg(args@, flag@) ==> r is Ok,
{
    if arg_present(args, flag) {
        return Err(
            CryptError::CliArgument(
                join3("Flag ", flag, " must not be specified in decryption mode"),
            ),
        );
    }
    Ok(())
}

/// Refuses, in decryption mode, any of the flags that set the cipher or the
/// Argon2id parameters (those are read from the file); the first such flag
/// in the list is reported.
pub fn validate_dec_args_no_kdf_params(args: &[&str]) -> (r: Result<(), CryptError>)
    ensures
        match first_forbidden_from(args@, 0) {
            None => r is Ok,
            Some(flag) => r matches Err(e) && e@ == CryptErrorView::CliArgument(
                dec_flag_message(flag),
            ),
        },
{
    proof {
        reveal_with_fuel(first_forbidden_from, 7);
    }
    check_flag(args, "--cipher")?;
    check_flag(args, "--argon2id-time-cost")?;
    check_flag(args, "--argon2id-memory-cost")?;
    check_flag(args, "--argon2id-parallelism")?;
    check_flag(args, "--argon2id-salt-length")?;
    check_flag(args, "--argon2id-hash-length")?;
    Ok(())
}

} // verus!
