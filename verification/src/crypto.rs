use vstd::prelude::*;

use aes_gcm::aead::{Aead, KeyInit};

use crate::error::{CryptError, CryptErrorView};
use crate::memory::{is_random_failure, secure_random_bytes, SecureVec};
use crate::text::{decimal, decimal_string, join2};

verus! {

/// Plaintext is cut into chunks of this many bytes (512 KiB).
pub const CHUNK_SIZE: usize = 524288;

/// Longest plaintext that AES-256-GCM accepts (2^36 bytes).
pub const AES_GCM_MAX_PLAINTEXT: u64 = 68719476736;

/// Longest message XChaCha20Poly1305 can process: the keystream counter is
/// 32 bits and block 0 keys Poly1305, which leaves 2^32 - 2 blocks of 64
/// bytes (64 * (2^32 - 2) bytes).
pub const XCHACHA_MAX_PLAINTEXT: u64 = 274877906816;

/// Both ciphers append a tag of this many bytes to the ciphertext.
pub const TAG_SIZE: usize = 16;

/// A nonce and the ciphertext (with tag) that it produced.
#[derive(Debug, Clone)]
pub struct EncryptedChunk {
    pub nonce: Vec<u8>,
    pub ciphertext: Vec<u8>,
}

/// The value of an [`EncryptedChunk`].
pub struct EncryptedChunkView {
    pub nonce: Seq<u8>,
    pub ciphertext: Seq<u8>,
}

impl View for EncryptedChunk {
    type V = EncryptedChunkView;

    open spec fn view(&self) -> EncryptedChunkView {
        EncryptedChunkView { nonce: self.nonce@, ciphertext: self.ciphertext@ }
    }
}

#[derive(Debug, Clone, Copy, PartialEq, Eq, Structural)]
pub enum CipherType {
    Aes256Gcm,
    XChaCha20Poly1305,
}

pub open spec fn spec_cipher_name(c: CipherType) -> Seq<char> {
    match c {
        CipherType::Aes256Gcm => "aes-256-gcm"@,
        CipherType::XChaCha20Poly1305 => "xchacha20poly1305"@,
    }
}

pub open spec fn spec_cipher_id(c: CipherType) -> u16 {
    match c {
        CipherType::Aes256Gcm => 1,
        CipherType::XChaCha20Poly1305 => 2,
    }
}

pub open spec fn spec_key_size(c: CipherType) -> usize {
    match c {
        CipherType::Aes256Gcm => 32,
        CipherType::XChaCha20Poly1305 => 32,
    }
}

pub open spec fn spec_nonce_size(c: CipherType) -> usize {
    match c {
        CipherType::Aes256Gcm => 12,
        CipherType::XChaCha20Poly1305 => 24,
    }
}

/// The cipher, if any, whose command-line name is `s`.
pub open spec fn cipher_named(s: Seq<char>) -> Option<CipherType> {
    if s == "aes-256-gcm"@ {
        Some(CipherType::Aes256Gcm)
    } else if s == "xchacha20poly1305"@ {
        Some(CipherType::XChaCha20Poly1305)
    } else {
        None
    }
}

/// The cipher, if any, whose file-format id is `id`.
pub open spec fn cipher_with_id(id: u16) -> Option<CipherType> {
    if id == 1 {
        Some(CipherType::Aes256Gcm)
    } else if id == 2 {
        Some(CipherType::XChaCha20Poly1305)
    } else {
        None
    }
}

/// A cipher's file-format id and its command-line name each lead back to it.
pub proof fn lemma_cipher_codes_roundtrip(c: CipherType)
    ensures
        cipher_with_id(spec_cipher_id(c)) == Some(c),
        cipher_named(spec_cipher_name(c)) == Some(c),
{
    reveal_strlit("aes-256-gcm");
    reveal_strlit("xchacha20poly1305");
    assert("aes-256-gcm"@.len() != "xchacha20poly1305"@.len());
}

impl CipherType {
    pub fn from_string(s: &str) -> (r: Result<CipherType, CryptError>)
        ensures
            match r {
                Ok(c) => cipher_named(s@) == Some(c),
                Err(e) => cipher_named(s@) is None
                    && e@ == CryptErrorView::InvalidCipher("Unsupported cipher: "@ + s@),
            },
    {
        if crate::text::str_eq(s, "aes-256-gcm") {
            Ok(CipherType::Aes256Gcm)
        } else if crate::text::str_eq(s, "xchacha20poly1305") {
            Ok(CipherType::XChaCha20Poly1305)
        } else {
            Err(CryptError::InvalidCipher(join2("Unsupported cipher: ", s)))
        }
    }

    pub fn to_string(&self) -> (s: &'static str)
        ensures
            s@ == spec_cipher_name(*self),
    {
        match self {
            CipherType::Aes256Gcm => "aes-256-gcm",
            CipherType::XChaCha20Poly1305 => "xchacha20poly1305",
        }
    }

    pub fn to_id(&self) -> (id: u16)
        ensures
            id == spec_cipher_id(*self),
    {
        match self {
            CipherType::Aes256Gcm => 1,
            CipherType::XChaCha20Poly1305 => 2,
        }
    }

    pub fn from_id(id: u16) -> (r: Result<CipherType, CryptError>)
        ensures
            match r {
                Ok(c) => cipher_with_id(id) == Some(c),
                Err(e) => cipher_with_id(id) is None
                    && e@ == CryptErrorView::InvalidCipher(
                        "Unsupported cipher id: "@ + decimal(id as nat),
                    ),
            },
    {
        match id {
            1 => Ok(CipherType::Aes256Gcm),
            2 => Ok(CipherType::XChaCha20Poly1305),
            _ => {
                let digits = decimal_string(id as u64);
                Err(CryptError::InvalidCipher(join2("Unsupported cipher id: ", digits.as_str())))
            },
        }
    }

    pub fn key_size(&self) -> (n: usize)
        ensures
            n == spec_key_size(*self),
    {
        match self {
            CipherType::Aes256Gcm => 32,
            CipherType::XChaCha20Poly1305 => 32,
        }
    }

    pub fn nonce_size(&self) -> (n: usize)
        ensures
            n == spec_nonce_size(*self),
    {
        match self {
            CipherType::Aes256Gcm => 12,
            CipherType::XChaCha20Poly1305 => 24,
        }
    }
}

/// The name of the AES-256-GCM ciphertext (with its 16-byte tag appended)
/// that `aes_gcm` computes from a key, a nonce and a plaintext.
pub uninterp spec fn aes256gcm_seal(key: Seq<u8>, nonce: Seq<u8>, plaintext: Seq<u8>) -> Seq<u8>;

/// The name of what `aes_gcm` gives back when it opens a ciphertext: the
/// plaintext, or `None` when the tag does not authenticate.
pub uninterp spec fn aes256gcm_open(key: Seq<u8>, nonce: Seq<u8>, ciphertext: Seq<u8>) -> Option<
    Seq<u8>,
>;

/// The name of the XChaCha20Poly1305 ciphertext (tag appended) that
/// `chacha20poly1305` computes from a key, a nonce and a plaintext.
pub uninterp spec fn xchacha20poly1305_seal(
    key: Seq<u8>,
    nonce: Seq<u8>,
    plaintext: Seq<u8>,
) -> Seq<u8>;

/// The name of what `chacha20poly1305` gives back when it opens a ciphertext.
pub uninterp spec fn xchacha20poly1305_open(
    key: Seq<u8>,
    nonce: Seq<u8>,
    ciphertext: Seq<u8>,
) -> Option<Seq<u8>>;

/// The error type of the `aead` traits that both cipher crates implement.
#[verifier::external_type_specification]
#[verifier::external_body]
pub struct ExAeadError(aes_gcm::aead::Error);

/// `Aead::encrypt` of `Aes256Gcm`, keyed with `KeyInit::new` on the 32-byte
/// key. Claimed, as the source shows: it fails exactly when the plaintext is
/// longer than 2^36 bytes; otherwise the result is the named ciphertext,
/// 16 bytes (the tag) longer than the plaintext.
#[verifier::external_body]
fn aes256gcm_encrypt(key: &[u8], nonce: &[u8], plaintext: &[u8]) -> (r: Result<
    Vec<u8>,
    aes_gcm::aead::Error,
>)
    requires
        key@.len() == 32,
        nonce@.len() == 12,
    ensures
        r is Ok <==> plaintext@.len() <= AES_GCM_MAX_PLAINTEXT,
        r matches Ok(c) ==> c@ == aes256gcm_seal(key@, nonce@, plaintext@),
        r matches Ok(c) ==> c@.len() == plaintext@.len() + TAG_SIZE,
{
    let cipher = aes_gcm::Aes256Gcm::new(aes_gcm::Key::<aes_gcm::Aes256Gcm>::from_slice(key));
    cipher.encrypt(aes_gcm::Nonce::from_slice(nonce), plaintext)
}

/// `Aead::decrypt` of `Aes256Gcm`. Claimed: the result is the named opening;
/// and, as for every AEAD, a ciphertext that this key and nonce sealed from a
/// plaintext the cipher accepts opens to that plaintext.
#[verifier::external_body]
fn aes256gcm_decrypt(key: &[u8], nonce: &[u8], ciphertext: &[u8]) -> (r: Result<
    Vec<u8>,
    aes_gcm::aead::Error,
>)
    requires
        key@.len() == 32,
        nonce@.len() == 12,
    ensures
        match r {
            Ok(p) => aes256gcm_open(key@, nonce@, ciphertext@) == Some(p@),
            Err(_) => aes256gcm_open(key@, nonce@, ciphertext@) is None,
        },
        r is Err ==> forall|p: Seq<u8>|
            p.len() <= AES_GCM_MAX_PLAINTEXT ==> ciphertext@ != #[trigger] aes256gcm_seal(key@, nonce@, p),
        r matches Ok(q) ==> forall|p: Seq<u8>|
            p.len() <= AES_GCM_MAX_PLAINTEXT && ciphertext@ == #[trigger] aes256gcm_seal(key@, nonce@, p) ==> q@ == p,
{
    let cipher = aes_gcm::Aes256Gcm::new(aes_gcm::Key::<aes_gcm::Aes256Gcm>::from_slice(key));
    cipher.decrypt(aes_gcm::Nonce::from_slice(nonce), ciphertext)
}

/// `Aead::encrypt` of `XChaCha20Poly1305`, keyed with `KeyInit::new`.
/// The crate refuses a plaintext whose length divided by 64 reaches
/// `u32::MAX`, and panics (the keystream runs out) on the lengths between
/// `XCHACHA_MAX_PLAINTEXT` and that bound; `requires` keeps both out.
/// Claimed, as the source shows: on the rest it succeeds, with the named
/// ciphertext, 16 bytes longer than the plaintext.
#[verifier::external_body]
fn xchacha20poly1305_encrypt(key: &[u8], nonce: &[u8], plaintext: &[u8]) -> (r: Result<
    Vec<u8>,
    aes_gcm::aead::Error,
>)
    requires
        key@.len() == 32,
        nonce@.len() == 24,
        plaintext@.len() <= XCHACHA_MAX_PLAINTEXT,
    ensures
        r is Ok,
        r matches Ok(c) ==> c@ == xchacha20poly1305_seal(key@, nonce@, plaintext@),
        r matches Ok(c) ==> c@.len() == plaintext@.len() + TAG_SIZE,
{
    let cipher = chacha20poly1305::XChaCha20Poly1305::new(chacha20poly1305::Key::from_slice(key));
    cipher.encrypt(chacha20poly1305::XNonce::from_slice(nonce), plaintext)
}

/// `Aead::decrypt` of `XChaCha20Poly1305`. Once the tag authenticates, the
/// crate panics on a message (the ciphertext without its 16-byte tag)
/// longer than `XCHACHA_MAX_PLAINTEXT` that it does not refuse, so
/// `requires` keeps such lengths out. Claimed: the result is the named
/// opening, and what this key and nonce sealed opens to its plaintext.
#[verifier::external_body]
fn xchacha20poly1305_decrypt(key: &[u8], nonce: &[u8], ciphertext: &[u8]) -> (r: Result<
    Vec<u8>,
    aes_gcm::aead::Error,
>)
    requires
        key@.len() == 32,
        nonce@.len() == 24,
        ciphertext@.len() <= XCHACHA_MAX_PLAINTEXT + TAG_SIZE,
    ensures
        match r {
            Ok(p) => xchacha20poly1305_open(key@, nonce@, ciphertext@) == Some(p@),
            Err(_) => xchacha20poly1305_open(key@, nonce@, ciphertext@) is None,
        },
        r is Err ==> forall|p: Seq<u8>|
            p.len() <= XCHACHA_MAX_PLAINTEXT ==> ciphertext@ != #[trigger] xchacha20poly1305_seal(key@, nonce@, p),
        r matches Ok(q) ==> forall|p: Seq<u8>|
            p.len() <= XCHACHA_MAX_PLAINTEXT && ciphertext@ == #[trigger] xchacha20poly1305_seal(key@, nonce@, p) ==> q@ == p,
{
    let cipher = chacha20poly1305::XChaCha20Poly1305::new(chacha20poly1305::Key::from_slice(key));
    cipher.decrypt(chacha20poly1305::XNonce::from_slice(nonce), ciphertext)
}

/// The `Display` text of `aead::Error`, which the crate writes as a fixed
/// string.
#[verifier::external_body]
fn aead_error_text(e: &aes_gcm::aead::Error) -> (s: String)
    ensures
        s@ == "aead::Error"@,
{
    e.to_string()
}

/// Whether `kind` can encrypt a plaintext of `len` bytes.
pub open spec fn plaintext_fits(kind: CipherType, len: nat) -> bool {
    match kind {
        CipherType::Aes256Gcm => len <= AES_GCM_MAX_PLAINTEXT,
        CipherType::XChaCha20Poly1305 => len <= XCHACHA_MAX_PLAINTEXT,
    }
}

/// The ciphertext that `kind` produces.
pub open spec fn spec_seal(kind: CipherType, key: Seq<u8>, nonce: Seq<u8>, plaintext: Seq<u8>) -> Seq<
    u8,
> {
    match kind {
        CipherType::Aes256Gcm => aes256gcm_seal(key, nonce, plaintext),
        CipherType::XChaCha20Poly1305 => xchacha20poly1305_seal(key, nonce, plaintext),
    }
}

/// Whether `kind` can be asked to open a ciphertext (tag included) of `len`
/// bytes; a longer one cannot hold a message the cipher could have sealed.
pub open spec fn ciphertext_fits(kind: CipherType, len: nat) -> bool {
    match kind {
        CipherType::Aes256Gcm => true,
        CipherType::XChaCha20Poly1305 => len <= XCHACHA_MAX_PLAINTEXT + TAG_SIZE,
    }
}

/// What `kind` gives back when it opens a ciphertext.
pub open spec fn spec_open(kind: CipherType, key: Seq<u8>, nonce: Seq<u8>, ciphertext: Seq<u8>) -> Option<
    Seq<u8>,
> {
    match kind {
        CipherType::Aes256Gcm => aes256gcm_open(key, nonce, ciphertext),
        CipherType::XChaCha20Poly1305 => xchacha20poly1305_open(key, nonce, ciphertext),
    }
}

/// The message of a failed encryption.
pub open spec fn encrypt_failure_message(kind: CipherType) -> Seq<char> {
    match kind {
        CipherType::Aes256Gcm => "AES-GCM encryption failed: aead::Error"@,
        CipherType::XChaCha20Poly1305 => "XChaCha20Poly1305 encryption failed: aead::Error"@,
    }
}

/// The message for a nonce of the wrong length.
pub open spec fn bad_nonce_message(kind: CipherType) -> Seq<char> {
    match kind {
        CipherType::Aes256Gcm => "Invalid nonce length for AES-GCM"@,
        CipherType::XChaCha20Poly1305 => "Invalid nonce length for XChaCha20Poly1305"@,
    }
}

/// The message for a key of the wrong length.
pub open spec fn bad_key_message(kind: CipherType, len: nat) -> Seq<char> {
    "Invalid key size for "@ + spec_cipher_name(kind) + ": expected "@ + decimal(
        spec_key_size(kind) as nat,
    ) + ", got "@ + decimal(len)
}

/// A cipher together with a key of the right length for it.
pub struct Cipher {
    cipher_type: CipherType,
    key: SecureVec,
}

impl Cipher {
    #[verifier::type_invariant]
    spec fn key_fits(self) -> bool {
        self.key@.len() == spec_key_size(self.cipher_type)
    }

    pub closed spec fn kind(self) -> CipherType {
        self.cipher_type
    }

    pub closed spec fn key_bytes(self) -> Seq<u8> {
        self.key@
    }

    /// Refuses a key whose length is not the cipher's key size.
    pub fn new(cipher_type: CipherType, key: SecureVec) -> (r: Result<Cipher, CryptError>)
        ensures
            r is Ok <==> key@.len() == spec_key_size(cipher_type),
            r matches Ok(c) ==> c.kind() == cipher_type && c.key_bytes() == key@,
            r matches Err(e) ==> e@ == CryptErrorView::Crypto(
                bad_key_message(cipher_type, key@.len()),
            ),
    {
        if key.len() != cipher_type.key_size() {
            let mut msg = String::from_str("Invalid key size for ");
            msg.append(cipher_type.to_string());
            msg.append(": expected ");
            let expected = decimal_string(cipher_type.key_size() as u64);
            msg.append(expected.as_str());
            msg.append(", got ");
            let got = decimal_string(key.len() as u64);
            msg.append(got.as_str());
            return Err(CryptError::Crypto(msg));
        }
        Ok(Cipher { cipher_type, key })
    }

    pub fn cipher_type(&self) -> (c: CipherType)
        ensures
            c == self.kind(),
    {
        self.cipher_type
    }

    /// The key this cipher holds, so that a caller can keep it locked in RAM
    /// for as long as the cipher lives.
    pub fn key(&self) -> (k: &SecureVec)
        ensures
            k@ == self.key_bytes(),
    {
        &self.key
    }

    /// Encrypts under a fresh random nonce of the cipher's nonce size, drawn
    /// from the operating system. When the random source fails, that is the
    /// error; otherwise the plaintext is sealed as by
    /// [`Cipher::encrypt_with_nonce`].
    pub fn encrypt(&self, plaintext: &[u8]) -> (r: Result<EncryptedChunk, CryptError>)
        ensures
            !plaintext_fits(self.kind(), plaintext@.len()) ==> r is Err,
            r matches Ok(chunk) ==> chunk.nonce@.len() == spec_nonce_size(self.kind())
                && chunk.ciphertext@ == spec_seal(
                self.kind(),
                self.key_bytes(),
                chunk.nonce@,
                plaintext@,
            ) && chunk.ciphertext@.len() == plaintext@.len() + TAG_SIZE,
            r matches Err(e) ==> is_random_failure(e@) || (!plaintext_fits(
                self.kind(),
                plaintext@.len(),
            ) && e@ == CryptErrorView::Crypto(encrypt_failure_message(self.kind()))),
    {
        let drawn = secure_random_bytes(self.cipher_type.nonce_size());
        match drawn {
            Ok(nonce) => self.encrypt_with_nonce(nonce, plaintext),
            Err(e) => Err(e),
        }
    }

    /// Encrypts under the given nonce: what [`Cipher::encrypt`] does once the
    /// random nonce has been drawn.
    pub fn encrypt_with_nonce(&self, nonce: Vec<u8>, plaintext: &[u8]) -> (r: Result<
        EncryptedChunk,
        CryptError,
    >)
        requires
            nonce@.len() == spec_nonce_size(self.kind()),
        ensures
            r is Ok <==> plaintext_fits(self.kind(), plaintext@.len()),
            r matches Ok(chunk) ==> chunk.nonce@ == nonce@ && chunk.ciphertext@ == spec_seal(
                self.kind(),
                self.key_bytes(),
                nonce@,
                plaintext@,
            ) && chunk.ciphertext@.len() == plaintext@.len() + TAG_SIZE,
            r matches Err(e) ==> e@ == CryptErrorView::Crypto(encrypt_failure_message(self.kind())),
    {
        proof {
            use_type_invariant(self);
            reveal_strlit("XChaCha20Poly1305 encryption failed: aead::Error");
        }
        if self.cipher_type == CipherType::XChaCha20Poly1305 && plaintext.len() as u64
            > XCHACHA_MAX_PLAINTEXT {
            // the crate would refuse this length, or run out of keystream
            let msg = String::from_str("XChaCha20Poly1305 encryption failed: aead::Error");
            return Err(CryptError::Crypto(msg));
        }
        let sealed = match self.cipher_type {
            CipherType::Aes256Gcm => aes256gcm_encrypt(self.key.as_slice(), nonce.as_slice(), plaintext),
            CipherType::XChaCha20Poly1305 => xchacha20poly1305_encrypt(
                self.key.as_slice(),
                nonce.as_slice(),
                plaintext,
            ),
        };
        match sealed {
            Ok(ciphertext) => Ok(EncryptedChunk { nonce, ciphertext }),
            Err(e) => {
                let detail = aead_error_text(&e);
                let msg = match self.cipher_type {
                    CipherType::Aes256Gcm => join2("AES-GCM encryption failed: ", detail.as_str()),
                    CipherType::XChaCha20Poly1305 => join2(
                        "XChaCha20Poly1305 encryption failed: ",
                        detail.as_str(),
                    ),
                };
                proof {
                    reveal_strlit("AES-GCM encryption failed: ");
                    reveal_strlit("XChaCha20Poly1305 encryption failed: ");
                    reveal_strlit("aead::Error");
                    reveal_strlit("AES-GCM encryption failed: aead::Error");
                    reveal_strlit("XChaCha20Poly1305 encryption failed: aead::Error");
                    assert(msg@ =~= encrypt_failure_message(self.kind()));
                }
                Err(CryptError::Crypto(msg))
            },
        }
    }

    /// Opens a chunk. A nonce of the wrong length is a corrupted file; a
    /// ciphertext that does not authenticate, or is too long to hold any
    /// message the cipher can seal, means a wrong password. A chunk that this
    /// cipher sealed opens to its plaintext.
    pub fn decrypt(&self, chunk: &EncryptedChunk) -> (r: Result<SecureVec, CryptError>)
        ensures
            chunk.nonce@.len() != spec_nonce_size(self.kind()) ==> (r matches Err(e) && e@
                == CryptErrorView::CorruptedFile(bad_nonce_message(self.kind()))),
            chunk.nonce@.len() == spec_nonce_size(self.kind()) && !ciphertext_fits(
                self.kind(),
                chunk.ciphertext@.len(),
            ) ==> (r matches Err(e) && e@ == CryptErrorView::WrongPassword),
            chunk.nonce@.len() == spec_nonce_size(self.kind()) && ciphertext_fits(
                self.kind(),
                chunk.ciphertext@.len(),
            ) ==> match r {
                Ok(p) => spec_open(self.kind(), self.key_bytes(), chunk.nonce@, chunk.ciphertext@)
                    == Some(p@),
                Err(e) => spec_open(
                    self.kind(),
                    self.key_bytes(),
                    chunk.nonce@,
                    chunk.ciphertext@,
                ) is None && e@ == CryptErrorView::WrongPassword,
            },
            forall|p: Seq<u8>|
                chunk.nonce@.len() == spec_nonce_size(self.kind()) && plaintext_fits(
                    self.kind(),
                    p.len(),
                ) && chunk.ciphertext@ == #[trigger] spec_seal(
                    self.kind(),
                    self.key_bytes(),
                    chunk.nonce@,
                    p,
                ) && chunk.ciphertext@.len() == p.len() + TAG_SIZE ==> (r matches Ok(q) && q@ == p),
    {
        match self.cipher_type {
            CipherType::Aes256Gcm => self.decrypt_aes_gcm(&chunk.nonce, &chunk.ciphertext),
            CipherType::XChaCha20Poly1305 => {
                self.decrypt_xchacha20poly1305(&chunk.nonce, &chunk.ciphertext)
            },
        }
    }

    fn decrypt_aes_gcm(&self, nonce_bytes: &[u8], ciphertext: &[u8]) -> (r: Result<
        SecureVec,
        CryptError,
    >)
        requires
            self.kind() == CipherType::Aes256Gcm,
        ensures
            nonce_bytes@.len() != 12 ==> (r matches Err(e) && e@ == CryptErrorView::CorruptedFile(
                bad_nonce_message(self.kind()),
            )),
            nonce_bytes@.len() == 12 ==> match r {
                Ok(p) => aes256gcm_open(self.key_bytes(), nonce_bytes@, ciphertext@) == Some(p@),
                Err(e) => aes256gcm_open(self.key_bytes(), nonce_bytes@, ciphertext@) is None
                    && e@ == CryptErrorView::WrongPassword,
            },
            forall|p: Seq<u8>|
                nonce_bytes@.len() == 12 && p.len() <= AES_GCM_MAX_PLAINTEXT && ciphertext@
                    == #[trigger] aes256gcm_seal(self.key_bytes(), nonce_bytes@, p) ==> (r matches Ok(
                    q,
                ) && q@ == p),
    {
        proof {
            use_type_invariant(self);
        }
        if nonce_bytes.len() != self.cipher_type.nonce_size() {
            return Err(crate::error::corrupted("Invalid nonce length for AES-GCM"));
        }
        match aes256gcm_decrypt(self.key.as_slice(), nonce_bytes, ciphertext) {
            Ok(plaintext) => Ok(SecureVec::new(plaintext)),
            Err(_) => Err(CryptError::WrongPassword),
        }
    }

    fn decrypt_xchacha20poly1305(&self, nonce_bytes: &[u8], ciphertext: &[u8]) -> (r: Result<
        SecureVec,
        CryptError,
    >)
        requires
            self.kind() == CipherType::XChaCha20Poly1305,
        ensures
            nonce_bytes@.len() != 24 ==> (r matches Err(e) && e@ == CryptErrorView::CorruptedFile(
                bad_nonce_message(self.kind()),
            )),
            nonce_bytes@.len() == 24 && ciphertext@.len() > XCHACHA_MAX_PLAINTEXT + TAG_SIZE ==> (
            r matches Err(e) && e@ == CryptErrorView::WrongPassword),
            nonce_bytes@.len() == 24 && ciphertext@.len() <= XCHACHA_MAX_PLAINTEXT + TAG_SIZE ==> match r {
                Ok(p) => xchacha20poly1305_open(self.key_bytes(), nonce_bytes@, ciphertext@) == Some(
                    p@,
                ),
                Err(e) => xchacha20poly1305_open(self.key_bytes(), nonce_bytes@, ciphertext@) is None
                    && e@ == CryptErrorView::WrongPassword,
            },
            forall|p: Seq<u8>|
                nonce_bytes@.len() == 24 && p.len() <= XCHACHA_MAX_PLAINTEXT && ciphertext@
                    == #[trigger] xchacha20poly1305_seal(self.key_bytes(), nonce_bytes@, p)
                    && ciphertext@.len() == p.len() + TAG_SIZE ==> (r matches Ok(
                    q,
                ) && q@ == p),
    {
        proof {
            use_type_invariant(self);
        }
        if nonce_bytes.len() != self.cipher_type.nonce_size() {
            return Err(crate::error::corrupted("Invalid nonce length for XChaCha20Poly1305"));
        }
        if ciphertext.len() as u64 > XCHACHA_MAX_PLAINTEXT + TAG_SIZE as u64 {
            // no message the cipher can seal is this long; the crate would
            // refuse it, or run out of keystream once the tag checks out
            return Err(CryptError::WrongPassword);
        }
        match xchacha20poly1305_decrypt(self.key.as_slice(), nonce_bytes, ciphertext) {
            Ok(plaintext) => Ok(SecureVec::new(plaintext)),
            Err(_) => Err(CryptError::WrongPassword),
        }
    }
}

impl Clone for Cipher {
    fn clone(&self) -> (r: Self)
        ensures
            r.kind() == self.kind(),
            r.key_bytes() == self.key_bytes(),
    {
        proof {
            use_type_invariant(self);
        }
        Cipher { cipher_type: self.cipher_type, key: self.key.clone() }
    }
}

} // verus!
