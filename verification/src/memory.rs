use vstd::prelude::*;

use crate::error::{CryptError, CryptErrorView};
use crate::text::join2;

verus! {

/// Buffers up to this many bytes are worth locking into RAM.
pub const MAX_LOCKED_BYTES: usize = 65536;

/// `zeroize::Zeroize::zeroize` on a byte vector: the crate overwrites every
/// element and the spare capacity with zeros and then clears the vector, so
/// what is claimed here is only that the vector is left empty. That the old
/// bytes were overwritten is the crate's promise and is not stated.
#[verifier::external_body]
fn wipe_bytes(data: &mut Vec<u8>)
    ensures
        final(data)@.len() == 0,
    opens_invariants none
    no_unwind
{
    zeroize::Zeroize::zeroize(data);
}

/// `zeroize::Zeroize::zeroize` on a `String`: the crate zeroizes the
/// underlying byte vector and clears it; claimed here: the string is empty.
#[verifier::external_body]
pub(crate) fn wipe_string(s: &mut String)
    ensures
        final(s)@.len() == 0,
{
    zeroize::Zeroize::zeroize(s);
}

/// The UTF-8 bytes of a sequence of characters.
pub open spec fn utf8_bytes(chars: Seq<char>) -> Seq<u8> {
    vstd::utf8::encode_utf8(chars)
}

/// A password held as bytes; the bytes are zeroized when the value is dropped.
pub struct SecureString {
    data: Vec<u8>,
}

impl View for SecureString {
    type V = Seq<u8>;

    closed spec fn view(&self) -> Seq<u8> {
        self.data@
    }
}

impl Drop for SecureString {
    fn drop(&mut self)
        opens_invariants none
        no_unwind
    {
        wipe_bytes(&mut self.data);
    }
}

impl SecureString {
    /// Takes the bytes of `s` and zeroizes `s` itself.
    pub fn new(s: String) -> (r: SecureString)
        ensures
            r@ == utf8_bytes(s@),
    {
        let mut s = s;
        let data = s.as_str().as_bytes_vec();
        wipe_string(&mut s);
        SecureString { data }
    }

    /// Wraps bytes that are already a password.
    pub(crate) fn from_bytes(data: Vec<u8>) -> (r: SecureString)
        ensures
            r@ == data@,
    {
        SecureString { data }
    }

    pub fn as_bytes(&self) -> (b: &[u8])
        ensures
            b@ == self@,
    {
        self.data.as_slice()
    }
}

/// Key material; zeroized when dropped.
pub struct SecureVec {
    data: Vec<u8>,
}

impl View for SecureVec {
    type V = Seq<u8>;

    closed spec fn view(&self) -> Seq<u8> {
        self.data@
    }
}

impl Drop for SecureVec {
    fn drop(&mut self)
        opens_invariants none
        no_unwind
    {
        wipe_bytes(&mut self.data);
    }
}

impl Clone for SecureVec {
    fn clone(&self) -> (r: Self)
        ensures
            r@ == self@,
    {
        SecureVec::new(self.data.clone())
    }
}

/// Whether a buffer of `byte_len` bytes is small enough to be locked into RAM.
pub open spec fn spec_should_lock(byte_len: nat) -> bool {
    byte_len <= MAX_LOCKED_BYTES
}

impl SecureVec {
    pub fn new(data: Vec<u8>) -> (r: SecureVec)
        ensures
            r@ == data@,
    {
        SecureVec { data }
    }

    pub fn as_slice(&self) -> (s: &[u8])
        ensures
            s@ == self@,
    {
        self.data.as_slice()
    }

    pub fn len(&self) -> (n: usize)
        ensures
            n == self@.len(),
    {
        self.data.len()
    }

    /// Hands the bytes out; they are then no longer zeroized by this value.
    pub fn into_vec(self) -> (v: Vec<u8>)
        ensures
            v@ == self@,
    {
        let mut s = self;
        let mut out: Vec<u8> = Vec::new();
        std::mem::swap(&mut out, &mut s.data);
        out
    }

    /// Only small buffers are locked: locking large streaming buffers costs
    /// more than it protects.
    pub fn should_lock(&self) -> (b: bool)
        ensures
            b == spec_should_lock(self@.len()),
    {
        self.data.len() <= MAX_LOCKED_BYTES
    }
}

/// An error reported by `getrandom`; the library only turns it into text.
#[verifier::external_type_specification]
#[verifier::external_body]
pub struct ExGetrandomError(getrandom::Error);

/// `getrandom::fill`: fills `dest` from the operating system's random source.
/// Claimed: the length of `dest` is unchanged. Which bytes come back, and
/// whether the call succeeds, depend on the machine and are not stated.
#[verifier::external_body]
fn os_random_fill(dest: &mut [u8]) -> (r: Result<(), getrandom::Error>)
    ensures
        final(dest)@.len() == old(dest)@.len(),
{
    getrandom::fill(dest)
}

/// The `Display` text of a `getrandom::Error`; nothing is claimed of it.
#[verifier::external_body]
fn getrandom_error_text(e: &getrandom::Error) -> String {
    e.to_string()
}

/// Whether an error is the one that [`secure_random_bytes`] reports.
pub open spec fn is_random_failure(e: CryptErrorView) -> bool {
    e matches CryptErrorView::Crypto(m)
        && m.subrange(0, "Failed to generate random bytes: "@.len() as int)
        == "Failed to generate random bytes: "@
        && "Failed to generate random bytes: "@.len() <= m.len()
}

/// `len` bytes from the operating system's random source.
pub fn secure_random_bytes(len: usize) -> (r: Result<Vec<u8>, CryptError>)
    ensures
        match r {
            Ok(bytes) => bytes@.len() == len,
            Err(e) => is_random_failure(e@),
        },
{
    let mut bytes = vec![0u8; len];
    match os_random_fill(bytes.as_mut_slice()) {
        Ok(()) => Ok(bytes),
        Err(e) => {
            let detail = getrandom_error_text(&e);
            let msg = join2("Failed to generate random bytes: ", detail.as_str());
            assert(msg@.subrange(0, "Failed to generate random bytes: "@.len() as int)
                =~= "Failed to generate random bytes: "@);
            Err(CryptError::Crypto(msg))
        },
    }
}

} // verus!
