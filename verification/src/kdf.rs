use vstd::prelude::*;

use crate::error::{CryptError, CryptErrorView};
use crate::memory::{is_random_failure, secure_random_bytes, SecureVec};
use crate::text::join2;

verus! {

#[derive(Debug, Clone)]
pub struct KdfConfig {
    pub kdf_type: KdfType,
    pub salt: Vec<u8>,
    pub hash_length: usize,
}

#[derive(Debug, Clone, Copy, PartialEq, Eq, Structural)]
pub enum KdfType {
    Argon2id { time_cost: u32, memory_cost: u32, parallelism: u32 },
}

/// The value of a [`KdfConfig`].
pub struct KdfConfigView {
    pub time_cost: u32,
    pub memory_cost: u32,
    pub parallelism: u32,
    pub salt: Seq<u8>,
    pub hash_length: usize,
}

impl View for KdfConfig {
    type V = KdfConfigView;

    open spec fn view(&self) -> KdfConfigView {
        match self.kdf_type {
            KdfType::Argon2id { time_cost, memory_cost, parallelism } => KdfConfigView {
                time_cost,
                memory_cost,
                parallelism,
                salt: self.salt@,
                hash_length: self.hash_length,
            },
        }
    }
}

/// Whether `argon2::Params::new` accepts these costs and output length
/// (memory at least 8 KiB and at least 8 KiB per lane, at least one pass,
/// 1 to 2^24 - 1 lanes, 4 to 2^32 - 1 output bytes).
pub open spec fn argon2_params_accepted(m_cost: u32, t_cost: u32, p_cost: u32, output_len: nat) -> bool {
    &&& m_cost >= 8
    &&& m_cost >= 8 * p_cost
    &&& t_cost >= 1
    &&& p_cost >= 1
    &&& p_cost <= 0xFFFFFF
    &&& 4 <= output_len <= 0xFFFF_FFFF
}

/// Whether Argon2 accepts a password and salt of these lengths
/// (password at most 2^32 - 1 bytes, salt 8 to 2^32 - 1 bytes).
pub open spec fn argon2_inputs_accepted(password_len: nat, salt_len: nat) -> bool {
    password_len <= 0xFFFF_FFFF && 8 <= salt_len <= 0xFFFF_FFFF
}

/// The name of the Argon2id (version 0x13) output of `out_len` bytes that the
/// `argon2` crate computes from a password, a salt, and the time, memory and
/// lane costs.
pub uninterp spec fn argon2id_v13(
    password: Seq<u8>,
    salt: Seq<u8>,
    t_cost: u32,
    m_cost: u32,
    p_cost: u32,
    out_len: nat,
) -> Seq<u8>;

/// Eight lanes' worth of memory blocks, computed as `argon2::Params::new`
/// computes it: `p_cost * 8` in 32 bits, which wraps from `p_cost = 2^29` on
/// (overflow checks are off in release builds).
pub open spec fn lanes_memory(p_cost: u32) -> int {
    (p_cost * 8) % 0x1_0000_0000
}

/// The `Display` text of the error `argon2::Params::new` gives for these
/// arguments, checked in the crate's order, or `None` when it accepts them.
pub open spec fn argon2_params_error(m_cost: u32, t_cost: u32, p_cost: u32, output_len: nat) -> Option<
    Seq<char>,
> {
    if m_cost < 8 || m_cost < lanes_memory(p_cost) {
        Some("memory cost is too small"@)
    } else if t_cost < 1 {
        Some("time cost is too small"@)
    } else if p_cost < 1 {
        Some("not enough threads"@)
    } else if p_cost > 0xFFFFFF {
        Some("too many threads"@)
    } else if output_len < 4 {
        Some("output is too short"@)
    } else if output_len > 0xFFFF_FFFF {
        Some("output is too long"@)
    } else {
        None
    }
}

/// The `Display` text of the error `Argon2::hash_password_into` gives for a
/// password and salt of these lengths, checked in the crate's order, or
/// `None` when it accepts them.
pub open spec fn argon2_input_error(password_len: nat, salt_len: nat) -> Option<Seq<char>> {
    if password_len > 0xFFFF_FFFF {
        Some("password is too long"@)
    } else if salt_len < 8 {
        Some("salt is too short"@)
    } else if salt_len > 0xFFFF_FFFF {
        Some("salt is too long"@)
    } else {
        None
    }
}

/// `argon2::Params::new` with an output length of `out_len`, then, when the
/// parameters are accepted, `Argon2::hash_password_into` of an Argon2id,
/// version 0x13 context built from them, into a fresh buffer of `out_len`
/// bytes. An error is handed back as its `Display` text; the outer `Err` is
/// the refusal of the parameters, the inner one that of the hashing.
/// Claimed, as the source shows: the parameters are refused exactly when
/// `argon2_params_accepted` fails, with the text `argon2_params_error`
/// names; the hashing fails exactly when `argon2_input_error` names a text,
/// with that text, and otherwise gives the buffer, `out_len` bytes long,
/// holding the named output. With overflow checks on, the crate's
/// `p_cost * 8` would panic from `p_cost = 2^29` on, so such lane counts
/// are left out. Not stated: the crate allocates `m_cost` KiB for its work
/// area, and a failed allocation aborts the process.
#[verifier::external_body]
fn argon2id_hash(
    m_cost: u32,
    t_cost: u32,
    p_cost: u32,
    password: &[u8],
    salt: &[u8],
    out_len: usize,
) -> (r: Result<Result<Vec<u8>, String>, String>)
    requires
        p_cost < 0x2000_0000,
    ensures
        r is Err <==> !argon2_params_accepted(m_cost, t_cost, p_cost, out_len as nat),
        r matches Err(text) ==> argon2_params_error(m_cost, t_cost, p_cost, out_len as nat)
            == Some(text@),
        r matches Ok(hashed) ==> (hashed is Ok <==> argon2_inputs_accepted(
            password@.len(),
            salt@.len(),
        )),
        r matches Ok(hashed) ==> (hashed matches Err(text) ==> argon2_input_error(
            password@.len(),
            salt@.len(),
        ) == Some(text@)),
        r matches Ok(hashed) ==> (hashed matches Ok(out) ==> out@.len() == out_len),
        r matches Ok(hashed) ==> (hashed matches Ok(out) ==> out@ == argon2id_v13(
            password@,
            salt@,
            t_cost,
            m_cost,
            p_cost,
            out_len as nat,
        )),
{
    match argon2::Params::new(m_cost, t_cost, p_cost, Some(out_len)) {
        Err(e) => Err(e.to_string()),
        Ok(params) => {
            let mut out = vec![0u8; out_len];
            let context = argon2::Argon2::new(argon2::Algorithm::Argon2id, argon2::Version::V0x13, params);
            match context.hash_password_into(password, salt, &mut out) {
                Ok(()) => Ok(Ok(out)),
                Err(e) => Ok(Err(e.to_string())),
            }
        },
    }
}

impl KdfConfig {
    /// An Argon2id configuration with a fresh random salt of `salt_length` bytes.
    pub fn new_argon2id(
        time_cost: u32,
        memory_cost: u32,
        parallelism: u32,
        salt_length: usize,
        hash_length: usize,
    ) -> (r: Result<KdfConfig, CryptError>)
        ensures
            match r {
                Ok(c) => c@.time_cost == time_cost && c@.memory_cost == memory_cost
                    && c@.parallelism == parallelism && c@.salt.len() == salt_length
                    && c@.hash_length == hash_length,
                Err(e) => is_random_failure(e@),
            },
    {
        let salt = secure_random_bytes(salt_length)?;
        Ok(KdfConfig {
            kdf_type: KdfType::Argon2id { time_cost, memory_cost, parallelism },
            salt,
            hash_length,
        })
    }

    /// An Argon2id configuration read back from a file; an empty salt is refused.
    pub fn from_argon2id_params(
        time_cost: u32,
        memory_cost: u32,
        parallelism: u32,
        salt: Vec<u8>,
        hash_length: usize,
    ) -> (r: Result<KdfConfig, CryptError>)
        ensures
            r is Ok <==> salt@.len() > 0,
            r matches Ok(c) ==> c@ == (KdfConfigView {
                time_cost,
                memory_cost,
                parallelism,
                salt: salt@,
                hash_length,
            }),
            r matches Err(e) ==> e@ == CryptErrorView::CorruptedFile(
                "Argon2id salt must not be empty"@,
            ),
    {
        if salt.len() == 0 {
            return Err(crate::error::corrupted("Argon2id salt must not be empty"));
        }
        Ok(KdfConfig {
            kdf_type: KdfType::Argon2id { time_cost, memory_cost, parallelism },
            salt,
            hash_length,
        })
    }

    /// `(time_cost, memory_cost, parallelism)`.
    pub fn argon2id_params(&self) -> (r: (u32, u32, u32))
        ensures
            r == (self@.time_cost, self@.memory_cost, self@.parallelism),
    {
        match &self.kdf_type {
            KdfType::Argon2id { time_cost, memory_cost, parallelism } => (
                *time_cost,
                *memory_cost,
                *parallelism,
            ),
        }
    }

    /// Stretches `password` into a key of `hash_length` bytes with Argon2id.
    /// Parameters that Argon2 refuses are `InvalidKdfParameters`; a password
    /// or salt of a length Argon2 refuses is `Crypto`; each message ends in
    /// Argon2's own text for the refusal. Lane counts from 2^29 on, which the
    /// crate multiplies by 8 in 32 bits, are answered here as a release build
    /// of the crate answers them, without calling it.
    pub fn derive_key(&self, password: &[u8]) -> (r: Result<SecureVec, CryptError>)
        ensures
            argon2_params_error(
                self@.memory_cost,
                self@.time_cost,
                self@.parallelism,
                self@.hash_length as nat,
            ) matches Some(d) ==> (r matches Err(e) && e@ == CryptErrorView::InvalidKdfParameters(
                "Failed to build Argon2id params: "@ + d,
            )),
            argon2_params_error(
                self@.memory_cost,
                self@.time_cost,
                self@.parallelism,
                self@.hash_length as nat,
            ) is None ==> match r {
                Ok(key) => argon2_input_error(password@.len(), self@.salt.len()) is None
                    && key@.len() == self@.hash_length && key@ == argon2id_v13(
                    password@,
                    self@.salt,
                    self@.time_cost,
                    self@.memory_cost,
                    self@.parallelism,
                    self@.hash_length as nat,
                ),
                Err(e) => argon2_input_error(password@.len(), self@.salt.len()) matches Some(d)
                    && e@ == CryptErrorView::Crypto("Argon2id key derivation failed: "@ + d),
            },
    {
        let (time_cost, memory_cost, parallelism) = self.argon2id_params();
        if parallelism >= 0x2000_0000 {
            let lanes: u64 = (parallelism as u64 * 8) % 0x1_0000_0000;
            let detail = if memory_cost < 8 || (memory_cost as u64) < lanes {
                "memory cost is too small"
            } else if time_cost < 1 {
                "time cost is too small"
            } else {
                "too many threads"
            };
            let msg = join2("Failed to build Argon2id params: ", detail);
            proof {
                reveal_strlit("memory cost is too small");
                reveal_strlit("time cost is too small");
                reveal_strlit("too many threads");
                assert(lanes == lanes_memory(parallelism));
            }
            return Err(CryptError::InvalidKdfParameters(msg));
        }
        match argon2id_hash(
            memory_cost,
            time_cost,
            parallelism,
            password,
            self.salt.as_slice(),
            self.hash_length,
        ) {
            Err(detail) => {
                let msg = join2("Failed to build Argon2id params: ", detail.as_str());
                Err(CryptError::InvalidKdfParameters(msg))
            },
            Ok(Err(detail)) => {
                let msg = join2("Argon2id key derivation failed: ", detail.as_str());
                Err(CryptError::Crypto(msg))
            },
            Ok(Ok(key)) => Ok(SecureVec::new(key)),
        }
    }
}

} // verus!
