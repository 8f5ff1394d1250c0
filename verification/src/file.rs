use vstd::prelude::*;

use vstd::bytes::{
    spec_u16_from_le_bytes, spec_u16_to_le_bytes, spec_u32_from_le_bytes, spec_u32_to_le_bytes,
    u16_from_le_bytes, u16_to_le_bytes, u32_from_le_bytes, u32_to_le_bytes,
};
use vstd::slice::{slice_subrange, slice_to_vec};

use crate::crypto::{
    cipher_with_id, plaintext_fits, spec_cipher_id, spec_nonce_size, spec_seal, CipherType,
    EncryptedChunk, EncryptedChunkView, CHUNK_SIZE, TAG_SIZE,
};
use crate::error::{corrupted, crypto_error, CryptError, CryptErrorView};
use crate::kdf::{KdfConfig, KdfConfigView};
use crate::pipeline::{
    index_arrives, lemma_reorder_releases_prefix, lemma_reorder_restores_order, received,
    reorder_run,
};
use crate::text::decimal;

verus! {

/// Newest file version this library writes and reads.
pub const FILE_VERSION: u32 = 1;

/// Bit of the header flags that marks a chunked payload.
pub const FLAG_CHUNKED: u32 = 1;

/// The four bytes every encrypted file starts with (U+1F510 in UTF-8).
pub open spec fn magic() -> Seq<u8> {
    seq![0xF0u8, 0x9Fu8, 0x94u8, 0x90u8]
}

#[derive(Debug, Clone, Copy, PartialEq, Eq, Structural)]
pub enum PayloadKind {
    Single,
    Chunked { chunk_count: u32 },
}

impl PayloadKind {
    pub open spec fn spec_chunk_count(self) -> u32 {
        match self {
            PayloadKind::Single => 1,
            PayloadKind::Chunked { chunk_count } => chunk_count,
        }
    }

    pub fn is_chunked(&self) -> (b: bool)
        ensures
            b == (*self is Chunked),
    {
        match self {
            PayloadKind::Single => false,
            PayloadKind::Chunked { .. } => true,
        }
    }

    pub fn chunk_count(&self) -> (n: u32)
        ensures
            n == self.spec_chunk_count(),
    {
        match self {
            PayloadKind::Single => 1,
            PayloadKind::Chunked { chunk_count } => *chunk_count,
        }
    }
}

#[derive(Debug, Clone)]
pub struct FileHeader {
    pub version: u32,
    pub cipher: CipherType,
    pub kdf_config: KdfConfig,
    pub payload: PayloadKind,
}

/// The value of a [`FileHeader`].
pub struct FileHeaderView {
    pub version: u32,
    pub cipher: CipherType,
    pub kdf: KdfConfigView,
    pub payload: PayloadKind,
}

impl View for FileHeader {
    type V = FileHeaderView;

    open spec fn view(&self) -> FileHeaderView {
        FileHeaderView {
            version: self.version,
            cipher: self.cipher,
            kdf: self.kdf_config@,
            payload: self.payload,
        }
    }
}

pub open spec fn le16(x: u16) -> Seq<u8> {
    spec_u16_to_le_bytes(x)
}

pub open spec fn le32(x: u32) -> Seq<u8> {
    spec_u32_to_le_bytes(x)
}

/// The little-endian `u16` stored at `pos`.
pub open spec fn le16_at(s: Seq<u8>, pos: int) -> u16 {
    spec_u16_from_le_bytes(s.subrange(pos, pos + 2))
}

/// The little-endian `u32` stored at `pos`.
pub open spec fn le32_at(s: Seq<u8>, pos: int) -> u32 {
    spec_u32_from_le_bytes(s.subrange(pos, pos + 4))
}

pub open spec fn flags_of(payload: PayloadKind) -> u32 {
    match payload {
        PayloadKind::Single => 0,
        PayloadKind::Chunked { .. } => FLAG_CHUNKED,
    }
}

/// The encoding of a header: magic, version, flags, cipher id, the three
/// Argon2id costs, salt length and salt, hash length, and for a chunked
/// payload the chunk count; every number little-endian.
pub open spec fn header_bytes(h: FileHeaderView) -> Seq<u8> {
    magic() + le32(h.version) + le32(flags_of(h.payload)) + le16(spec_cipher_id(h.cipher)) + le32(
        h.kdf.time_cost,
    ) + le32(h.kdf.memory_cost) + le32(h.kdf.parallelism) + le16(h.kdf.salt.len() as u16)
        + h.kdf.salt + le16(h.kdf.hash_length as u16) + match h.payload {
        PayloadKind::Single => Seq::<u8>::empty(),
        PayloadKind::Chunked { chunk_count } => le32(chunk_count),
    }
}

pub open spec fn eof_error() -> CryptErrorView {
    CryptErrorView::CorruptedFile("Unexpected end of file"@)
}

/// What reading a header from the front of `s` gives: the header and the
/// number of bytes it took, or the first problem met while reading field by
/// field (running out of bytes is "Unexpected end of file").
pub open spec fn parse_header(s: Seq<u8>) -> Result<(FileHeaderView, nat), CryptErrorView> {
    if s.len() < 4 {
        Err(eof_error())
    } else if s.subrange(0, 4) != magic() {
        Err(CryptErrorView::CorruptedFile("Invalid magic prefix"@))
    } else if s.len() < 8 {
        Err(eof_error())
    } else if le32_at(s, 4) > FILE_VERSION {
        Err(CryptErrorView::UnsupportedVersion(le32_at(s, 4)))
    } else if s.len() < 14 {
        Err(eof_error())
    } else if cipher_with_id(le16_at(s, 12)) is None {
        Err(CryptErrorView::InvalidCipher("Unsupported cipher id: "@ + decimal(le16_at(s, 12) as nat)))
    } else if s.len() < 28 {
        Err(eof_error())
    } else if le16_at(s, 26) == 0 {
        Err(CryptErrorView::CorruptedFile("Salt length is zero"@))
    } else {
        let salt_len = le16_at(s, 26) as int;
        if s.len() < 30 + salt_len {
            Err(eof_error())
        } else if le16_at(s, 28 + salt_len) == 0 {
            Err(CryptErrorView::CorruptedFile("Hash length is zero"@))
        } else {
            let kdf = KdfConfigView {
                time_cost: le32_at(s, 14),
                memory_cost: le32_at(s, 18),
                parallelism: le32_at(s, 22),
                salt: s.subrange(28, 28 + salt_len),
                hash_length: le16_at(s, 28 + salt_len) as usize,
            };
            let version = le32_at(s, 4);
            let cipher = cipher_with_id(le16_at(s, 12))->0;
            if le32_at(s, 8) & FLAG_CHUNKED != 0 {
                if s.len() < 34 + salt_len {
                    Err(eof_error())
                } else if le32_at(s, 30 + salt_len) == 0 {
                    Err(CryptErrorView::CorruptedFile("Chunked payload with zero chunks"@))
                } else {
                    Ok(
                        (
                            FileHeaderView {
                                version,
                                cipher,
                                kdf,
                                payload: PayloadKind::Chunked {
                                    chunk_count: le32_at(s, 30 + salt_len),
                                },
                            },
                            (34 + salt_len) as nat,
                        ),
                    )
                }
            } else {
                Ok(
                    (
                        FileHeaderView { version, cipher, kdf, payload: PayloadKind::Single },
                        (30 + salt_len) as nat,
                    ),
                )
            }
        }
    }
}

/// `len` bytes of `input` from `pos`, or "Unexpected end of file".
pub fn read_exact_checked(input: &[u8], pos: usize, len: usize) -> (r: Result<Vec<u8>, CryptError>)
    ensures
        pos + len <= input@.len() ==> (r matches Ok(v) && v@ == input@.subrange(
            pos as int,
            pos + len,
        )),
        pos + len > input@.len() ==> (r matches Err(e) && e@ == eof_error()),
{
    if pos > input.len() || len > input.len() - pos {
        return Err(corrupted("Unexpected end of file"));
    }
    Ok(slice_to_vec(slice_subrange(input, pos, pos + len)))
}

/// The little-endian `u16` at `pos`, or "Unexpected end of file".
pub fn read_u16(input: &[u8], pos: usize) -> (r: Result<u16, CryptError>)
    ensures
        pos + 2 <= input@.len() ==> r == Ok::<u16, CryptError>(le16_at(input@, pos as int)),
        pos + 2 > input@.len() ==> (r matches Err(e) && e@ == eof_error()),
{
    if pos > input.len() || 2 > input.len() - pos {
        return Err(corrupted("Unexpected end of file"));
    }
    Ok(u16_from_le_bytes(slice_subrange(input, pos, pos + 2)))
}

/// The little-endian `u32` at `pos`, or "Unexpected end of file".
pub fn read_u32(input: &[u8], pos: usize) -> (r: Result<u32, CryptError>)
    ensures
        pos + 4 <= input@.len() ==> r == Ok::<u32, CryptError>(le32_at(input@, pos as int)),
        pos + 4 > input@.len() ==> (r matches Err(e) && e@ == eof_error()),
{
    if pos > input.len() || 4 > input.len() - pos {
        return Err(corrupted("Unexpected end of file"));
    }
    Ok(u32_from_le_bytes(slice_subrange(input, pos, pos + 4)))
}

/// Appends `src` to `out`.
fn put_bytes(out: &mut Vec<u8>, src: &[u8])
    ensures
        final(out)@ == old(out)@ + src@,
{
    let mut tail = slice_to_vec(src);
    out.append(&mut tail);
}

fn put_u16(out: &mut Vec<u8>, x: u16)
    ensures
        final(out)@ == old(out)@ + le16(x),
{
    let mut b = u16_to_le_bytes(x);
    out.append(&mut b);
}

fn put_u32(out: &mut Vec<u8>, x: u32)
    ensures
        final(out)@ == old(out)@ + le32(x),
{
    let mut b = u32_to_le_bytes(x);
    out.append(&mut b);
}

/// The first 26 header bytes: magic, version, flags, cipher id and the
/// three Argon2id costs.
pub open spec fn header_costs_part(h: FileHeaderView) -> Seq<u8> {
    magic() + le32(h.version) + le32(flags_of(h.payload)) + le16(spec_cipher_id(h.cipher)) + le32(
        h.kdf.time_cost,
    ) + le32(h.kdf.memory_cost) + le32(h.kdf.parallelism)
}

/// The header bytes up to and including the salt.
pub open spec fn header_salt_part(h: FileHeaderView) -> Seq<u8> {
    header_costs_part(h) + le16(h.kdf.salt.len() as u16) + h.kdf.salt
}

/// Appends the encoding of a header to `out`, field by field, as a stream
/// writer would. A salt longer than 16 bits can count is found after the
/// costs are written, a hash length that does not fit after the salt is
/// written; `out` then keeps what was written before the failure.
pub fn write_header(out: &mut Vec<u8>, header: &FileHeader) -> (r: Result<(), CryptError>)
    ensures
        header@.kdf.salt.len() > u16::MAX ==> (r matches Err(e) && e@ == CryptErrorView::Crypto(
            "Salt too large to encode"@,
        )) && final(out)@ == old(out)@ + header_costs_part(header@),
        header@.kdf.salt.len() <= u16::MAX && header@.kdf.hash_length > u16::MAX ==> (r matches Err(
            e,
        ) && e@ == CryptErrorView::Crypto("Hash length too large to encode"@)) && final(out)@
            == old(out)@ + header_salt_part(header@),
        header@.kdf.salt.len() <= u16::MAX && header@.kdf.hash_length <= u16::MAX ==> r is Ok
            && final(out)@ == old(out)@ + header_bytes(header@),
{
    let ghost start = out@;
    let salt = header.kdf_config.salt.as_slice();
    out.push(0xF0u8);
    out.push(0x9Fu8);
    out.push(0x94u8);
    out.push(0x90u8);
    assert(out@ =~= start + magic());
    put_u32(out, header.version);
    let flags: u32 = if header.payload.is_chunked() {
        FLAG_CHUNKED
    } else {
        0
    };
    put_u32(out, flags);
    put_u16(out, header.cipher.to_id());
    let (time_cost, memory_cost, parallelism) = header.kdf_config.argon2id_params();
    put_u32(out, time_cost);
    put_u32(out, memory_cost);
    put_u32(out, parallelism);
    assert(out@ =~= start + header_costs_part(header@));
    if salt.len() > 65535 {
        return Err(crypto_error("Salt too large to encode"));
    }
    put_u16(out, salt.len() as u16);
    put_bytes(out, salt);
    assert(out@ =~= start + header_salt_part(header@));
    if header.kdf_config.hash_length > 65535 {
        return Err(crypto_error("Hash length too large to encode"));
    }
    put_u16(out, header.kdf_config.hash_length as u16);
    match header.payload {
        PayloadKind::Chunked { chunk_count } => {
            put_u32(out, chunk_count);
        },
        PayloadKind::Single => {},
    }
    assert(out@ =~= start + header_bytes(header@));
    Ok(())
}

/// Reads a header from the front of `input`; on success also says how many
/// bytes it took.
pub fn read_header(input: &[u8]) -> (r: Result<(FileHeader, usize), CryptError>)
    ensures
        match parse_header(input@) {
            Ok((h, n)) => r matches Ok((header, used)) && header@ == h && used == n,
            Err(e) => r matches Err(err) && err@ == e,
        },
{
    let magic_bytes = read_exact_checked(input, 0, 4)?;
    if !(magic_bytes[0] == 0xF0u8 && magic_bytes[1] == 0x9Fu8 && magic_bytes[2] == 0x94u8
        && magic_bytes[3] == 0x90u8) {
        assert(input@.subrange(0, 4) != magic()) by {
            if input@.subrange(0, 4) == magic() {
                assert(magic_bytes@[0] == magic()[0]);
                assert(magic_bytes@[1] == magic()[1]);
                assert(magic_bytes@[2] == magic()[2]);
                assert(magic_bytes@[3] == magic()[3]);
            }
        }
        return Err(corrupted("Invalid magic prefix"));
    }
    assert(input@.subrange(0, 4) =~= magic());
    let version = read_u32(input, 4)?;
    if version > FILE_VERSION {
        return Err(CryptError::UnsupportedVersion(version));
    }
    let flags = read_u32(input, 8)?;
    let cipher_id = read_u16(input, 12)?;
    let cipher = CipherType::from_id(cipher_id)?;
    let time_cost = read_u32(input, 14)?;
    let memory_cost = read_u32(input, 18)?;
    let parallelism = read_u32(input, 22)?;
    let salt_len = read_u16(input, 26)? as usize;
    if salt_len == 0 {
        return Err(corrupted("Salt length is zero"));
    }
    let salt = read_exact_checked(input, 28, salt_len)?;
    let hash_length = read_u16(input, 28 + salt_len)? as usize;
    if hash_length == 0 {
        return Err(corrupted("Hash length is zero"));
    }
    let kdf_config = KdfConfig::from_argon2id_params(
        time_cost,
        memory_cost,
        parallelism,
        salt,
        hash_length,
    )?;
    let end = 30 + salt_len;
    if flags & FLAG_CHUNKED != 0 {
        let chunk_count = read_u32(input, end)?;
        if chunk_count == 0 {
            return Err(corrupted("Chunked payload with zero chunks"));
        }
        Ok(
            (
                FileHeader {
                    version,
                    cipher,
                    kdf_config,
                    payload: PayloadKind::Chunked { chunk_count },
                },
                end + 4,
            ),
        )
    } else {
        Ok((FileHeader { version, cipher, kdf_config, payload: PayloadKind::Single }, end))
    }
}

/// The encoding of a chunk: nonce length (16 bits), nonce, ciphertext
/// length (32 bits), ciphertext.
pub open spec fn chunk_bytes(c: EncryptedChunkView) -> Seq<u8> {
    le16(c.nonce.len() as u16) + c.nonce + le32(c.ciphertext.len() as u32) + c.ciphertext
}

/// What reading a chunk from the front of `s` gives.
pub open spec fn parse_chunk(s: Seq<u8>) -> Result<(EncryptedChunkView, nat), CryptErrorView> {
    if s.len() < 2 {
        Err(eof_error())
    } else if le16_at(s, 0) == 0 {
        Err(CryptErrorView::CorruptedFile("Nonce length is zero"@))
    } else {
        let nonce_len = le16_at(s, 0) as int;
        if s.len() < 6 + nonce_len {
            Err(eof_error())
        } else if le32_at(s, 2 + nonce_len) == 0 {
            Err(CryptErrorView::CorruptedFile("Ciphertext length is zero"@))
        } else {
            let ct_len = le32_at(s, 2 + nonce_len) as int;
            if s.len() < 6 + nonce_len + ct_len {
                Err(eof_error())
            } else {
                Ok(
                    (
                        EncryptedChunkView {
                            nonce: s.subrange(2, 2 + nonce_len),
                            ciphertext: s.subrange(6 + nonce_len, 6 + nonce_len + ct_len),
                        },
                        (6 + nonce_len + ct_len) as nat,
                    ),
                )
            }
        }
    }
}

/// Appends the encoding of a chunk to `out`, field by field, as a stream
/// writer would. A nonce longer than 16 bits can count is refused before
/// anything is written; a ciphertext longer than 32 bits can count is found
/// after the nonce length and the nonce are written, and `out` keeps them.
pub fn write_chunk(out: &mut Vec<u8>, chunk: &EncryptedChunk) -> (r: Result<(), CryptError>)
    ensures
        chunk@.nonce.len() > u16::MAX ==> (r matches Err(e) && e@ == CryptErrorView::Crypto(
            "Nonce too large to encode"@,
        )) && final(out)@ == old(out)@,
        chunk@.nonce.len() <= u16::MAX && chunk@.ciphertext.len() > u32::MAX ==> (r matches Err(e)
            && e@ == CryptErrorView::Crypto("Ciphertext too large to encode"@)) && final(out)@
            == old(out)@ + le16(chunk@.nonce.len() as u16) + chunk@.nonce,
        chunk@.nonce.len() <= u16::MAX && chunk@.ciphertext.len() <= u32::MAX ==> r is Ok
            && final(out)@ == old(out)@ + chunk_bytes(chunk@),
{
    let ghost start = out@;
    if chunk.nonce.len() > 65535 {
        return Err(crypto_error("Nonce too large to encode"));
    }
    put_u16(out, chunk.nonce.len() as u16);
    put_bytes(out, chunk.nonce.as_slice());
    if chunk.ciphertext.len() > 0xFFFF_FFFF {
        return Err(crypto_error("Ciphertext too large to encode"));
    }
    put_u32(out, chunk.ciphertext.len() as u32);
    put_bytes(out, chunk.ciphertext.as_slice());
    assert(out@ =~= start + chunk_bytes(chunk@));
    Ok(())
}

/// Reads a chunk from the front of `input`; on success also says how many
/// bytes it took.
pub fn read_encrypted_chunk(input: &[u8]) -> (r: Result<(EncryptedChunk, usize), CryptError>)
    ensures
        match parse_chunk(input@) {
            Ok((c, n)) => r matches Ok((chunk, used)) && chunk@ == c && used == n,
            Err(e) => r matches Err(err) && err@ == e,
        },
{
    let nonce_len = read_u16(input, 0)? as usize;
    if nonce_len == 0 {
        return Err(corrupted("Nonce length is zero"));
    }
    let nonce = read_exact_checked(input, 2, nonce_len)?;
    let ciphertext_len = read_u32(input, 2 + nonce_len)? as usize;
    if ciphertext_len == 0 {
        return Err(corrupted("Ciphertext length is zero"));
    }
    let ciphertext = read_exact_checked(input, 6 + nonce_len, ciphertext_len)?;
    let total = input.len();
    assert(6 + nonce_len + ciphertext_len <= total);
    Ok((EncryptedChunk { nonce, ciphertext }, 6 + nonce_len + ciphertext_len))
}

/// How many chunks a file of `size` bytes is cut into (an empty file is one
/// empty chunk).
pub open spec fn chunk_count_for(size: nat) -> nat {
    if size == 0 {
        1
    } else {
        ((size + CHUNK_SIZE - 1) / (CHUNK_SIZE as int)) as nat
    }
}

/// The number of chunks for a file of `file_size` bytes; refused when it
/// does not fit in the header's 32-bit count.
pub fn calculate_chunk_count(file_size: u64) -> (r: Result<u64, CryptError>)
    ensures
        r is Ok <==> chunk_count_for(file_size as nat) <= u32::MAX,
        r matches Ok(n) ==> n == chunk_count_for(file_size as nat),
        r matches Err(e) ==> e@ == CryptErrorView::Crypto(
            "File too large to encrypt with chunk metadata"@,
        ),
{
    let chunk_size = CHUNK_SIZE as u64;
    let chunks: u64 = if file_size == 0 {
        1
    } else {
        assert((file_size - 1) / 524288 + 1 == (file_size + 524287) / 524288) by (nonlinear_arith)
            requires
                file_size >= 1,
        ;
        (file_size - 1) / chunk_size + 1
    };
    if chunks > 0xFFFF_FFFF {
        return Err(crypto_error("File too large to encrypt with chunk metadata"));
    }
    Ok(chunks)
}

/// The payload layout for a file of `file_size` bytes: chunked when it takes
/// more than one chunk.
pub fn plan_payload(file_size: u64) -> (r: Result<PayloadKind, CryptError>)
    ensures
        r is Ok <==> chunk_count_for(file_size as nat) <= u32::MAX,
        r matches Ok(p) ==> p.spec_chunk_count() == chunk_count_for(file_size as nat) && (p is Chunked
            <==> chunk_count_for(file_size as nat) > 1),
        r matches Err(e) ==> e@ == CryptErrorView::Crypto(
            "File too large to encrypt with chunk metadata"@,
        ),
{
    let total_chunks = calculate_chunk_count(file_size)?;
    if total_chunks > 1 {
        Ok(PayloadKind::Chunked { chunk_count: total_chunks as u32 })
    } else {
        Ok(PayloadKind::Single)
    }
}

/// Length of chunk `index` of a file of `size` bytes cut into `count` chunks.
pub open spec fn chunk_len(size: nat, index: nat, count: nat) -> nat {
    if index + 1 < count {
        CHUNK_SIZE as nat
    } else {
        (size - index * CHUNK_SIZE) as nat
    }
}

/// How many plaintext bytes chunk `index` of a file of `file_size` bytes holds.
pub fn chunk_plaintext_len(file_size: u64, index: u32, chunk_count: u32) -> (n: usize)
    requires
        chunk_count == chunk_count_for(file_size as nat),
        index < chunk_count,
    ensures
        n == chunk_len(file_size as nat, index as nat, chunk_count as nat),
        n <= CHUNK_SIZE,
{
    if index + 1 < chunk_count {
        CHUNK_SIZE
    } else {
        proof {
            lemma_last_chunk_bounds(file_size as nat);
        }
        let done = index as u64 * CHUNK_SIZE as u64;
        (file_size - done) as usize
    }
}

/// The last chunk starts inside the file and holds at most one chunk's worth.
pub proof fn lemma_last_chunk_bounds(size: nat)
    ensures
        (chunk_count_for(size) - 1) * CHUNK_SIZE <= size,
        size - (chunk_count_for(size) - 1) * CHUNK_SIZE <= CHUNK_SIZE,
        size > 0 ==> size - (chunk_count_for(size) - 1) * CHUNK_SIZE > 0,
        chunk_count_for(size) >= 1,
{
    if size > 0 {
        let n = chunk_count_for(size);
        assert(n == (size + 524287) / 524288);
        assert((n - 1) * 524288 < size <= n * 524288 && n >= 1) by (nonlinear_arith)
            requires
                size > 0,
                n == (size + 524287) / 524288,
        ;
    }
}

} // verus!

verus! {

/// A header the format can carry: a version this library reads, a salt of
/// 1 to 65535 bytes, a hash length of 1 to 65535 bytes and, when chunked, at
/// least one chunk.
pub open spec fn header_well_formed(h: FileHeaderView) -> bool {
    &&& h.version <= FILE_VERSION
    &&& 1 <= h.kdf.salt.len() <= u16::MAX
    &&& 1 <= h.kdf.hash_length <= u16::MAX
    &&& (h.payload matches PayloadKind::Chunked { chunk_count } ==> chunk_count >= 1)
}

/// Reading back a written header gives the same header, and takes exactly
/// the bytes that were written, whatever follows them.
pub proof fn lemma_header_roundtrip(h: FileHeaderView, rest: Seq<u8>)
    requires
        header_well_formed(h),
    ensures
        parse_header(header_bytes(h) + rest) == Ok::<(FileHeaderView, nat), CryptErrorView>(
            (h, header_bytes(h).len()),
        ),
{
    vstd::bytes::lemma_auto_spec_u16_to_from_le_bytes();
    vstd::bytes::lemma_auto_spec_u32_to_from_le_bytes();
    let s = header_bytes(h) + rest;
    let sl = h.kdf.salt.len() as int;
    let flags = flags_of(h.payload);
    let p0 = magic();
    let p1 = p0 + le32(h.version);
    let p2 = p1 + le32(flags);
    let p3 = p2 + le16(spec_cipher_id(h.cipher));
    let p4 = p3 + le32(h.kdf.time_cost);
    let p5 = p4 + le32(h.kdf.memory_cost);
    let p6 = p5 + le32(h.kdf.parallelism);
    let p7 = p6 + le16(h.kdf.salt.len() as u16);
    let p8 = p7 + h.kdf.salt;
    let p9 = p8 + le16(h.kdf.hash_length as u16);
    let tail = match h.payload {
        PayloadKind::Single => Seq::<u8>::empty(),
        PayloadKind::Chunked { chunk_count } => le32(chunk_count),
    };
    assert(header_bytes(h) == p9 + tail);
    assert(s =~= p9 + tail + rest);
    assert(p9.len() == 30 + sl);
    assert(s.subrange(0, 4) =~= magic());
    assert(s.subrange(4, 8) =~= le32(h.version));
    assert(s.subrange(8, 12) =~= le32(flags));
    assert(s.subrange(12, 14) =~= le16(spec_cipher_id(h.cipher)));
    assert(s.subrange(14, 18) =~= le32(h.kdf.time_cost));
    assert(s.subrange(18, 22) =~= le32(h.kdf.memory_cost));
    assert(s.subrange(22, 26) =~= le32(h.kdf.parallelism));
    assert(s.subrange(26, 28) =~= le16(h.kdf.salt.len() as u16));
    assert(s.subrange(28, 28 + sl) =~= h.kdf.salt);
    assert(s.subrange(28 + sl, 30 + sl) =~= le16(h.kdf.hash_length as u16));
    crate::crypto::lemma_cipher_codes_roundtrip(h.cipher);
    assert(le16_at(s, 26) as int == sl);
    assert(le16_at(s, 28 + sl) as usize == h.kdf.hash_length);
    match h.payload {
        PayloadKind::Single => {
            assert(flags & FLAG_CHUNKED == 0) by (bit_vector)
                requires
                    flags == 0u32,
            ;
        },
        PayloadKind::Chunked { chunk_count } => {
            assert(flags & FLAG_CHUNKED != 0) by (bit_vector)
                requires
                    flags == 1u32,
            ;
            assert(s.subrange(30 + sl, 34 + sl) =~= le32(chunk_count));
        },
    }
}

/// Reading back a written chunk gives the same chunk and takes exactly the
/// bytes that were written, whatever follows them.
pub proof fn lemma_chunk_roundtrip(c: EncryptedChunkView, rest: Seq<u8>)
    requires
        1 <= c.nonce.len() <= u16::MAX,
        1 <= c.ciphertext.len() <= u32::MAX,
    ensures
        parse_chunk(chunk_bytes(c) + rest) == Ok::<(EncryptedChunkView, nat), CryptErrorView>(
            (c, chunk_bytes(c).len()),
        ),
{
    vstd::bytes::lemma_auto_spec_u16_to_from_le_bytes();
    vstd::bytes::lemma_auto_spec_u32_to_from_le_bytes();
    let s = chunk_bytes(c) + rest;
    let nl = c.nonce.len() as int;
    let cl = c.ciphertext.len() as int;
    let p0 = le16(c.nonce.len() as u16);
    let p1 = p0 + c.nonce;
    let p2 = p1 + le32(c.ciphertext.len() as u32);
    let p3 = p2 + c.ciphertext;
    assert(s =~= p3 + rest);
    assert(s.subrange(0, 2) =~= p0);
    assert(s.subrange(2, 2 + nl) =~= c.nonce);
    assert(s.subrange(2 + nl, 6 + nl) =~= le32(c.ciphertext.len() as u32));
    assert(s.subrange(6 + nl, 6 + nl + cl) =~= c.ciphertext);
    assert(le16_at(s, 0) as int == nl);
    assert(le32_at(s, 2 + nl) as int == cl);
}

/// The cipher id as stored in a header: 1 for AES-256-GCM, 2 for
/// XChaCha20Poly1305.
pub open spec fn stored_cipher_id(c: CipherType) -> u16 {
    if c == CipherType::Aes256Gcm {
        1
    } else {
        2
    }
}

/// Where each header field sits, whatever the cipher: the four magic bytes
/// F0 9F 94 90, then little-endian version (bytes 4..8), flags (8..12, 1 for
/// a chunked payload, else 0), cipher id (12..14), time cost (14..18),
/// memory cost (18..22), parallelism (22..26), salt length (26..28), the
/// salt, the hash length, and for a chunked payload the chunk count.
pub proof fn lemma_header_layout(h: FileHeaderView)
    ensures
        ({
            let b = header_bytes(h);
            let sl = h.kdf.salt.len() as int;
            &&& b.len() == 30 + sl + (if h.payload is Chunked { 4int } else { 0int })
            &&& b.subrange(0, 4) == seq![0xF0u8, 0x9Fu8, 0x94u8, 0x90u8]
            &&& b.subrange(4, 8) == spec_u32_to_le_bytes(h.version)
            &&& b.subrange(8, 12) == spec_u32_to_le_bytes(
                if h.payload is Chunked { 1u32 } else { 0u32 },
            )
            &&& b.subrange(12, 14) == spec_u16_to_le_bytes(stored_cipher_id(h.cipher))
            &&& b.subrange(14, 18) == spec_u32_to_le_bytes(h.kdf.time_cost)
            &&& b.subrange(18, 22) == spec_u32_to_le_bytes(h.kdf.memory_cost)
            &&& b.subrange(22, 26) == spec_u32_to_le_bytes(h.kdf.parallelism)
            &&& b.subrange(26, 28) == spec_u16_to_le_bytes(h.kdf.salt.len() as u16)
            &&& b.subrange(28, 28 + sl) == h.kdf.salt
            &&& b.subrange(28 + sl, 30 + sl) == spec_u16_to_le_bytes(h.kdf.hash_length as u16)
            &&& (h.payload matches PayloadKind::Chunked { chunk_count } ==> b.subrange(
                30 + sl,
                34 + sl,
            ) == spec_u32_to_le_bytes(chunk_count))
        }),
{
    vstd::bytes::lemma_auto_spec_u16_to_from_le_bytes();
    vstd::bytes::lemma_auto_spec_u32_to_from_le_bytes();
    let b = header_bytes(h);
    let sl = h.kdf.salt.len() as int;
    let p0 = magic();
    let p1 = p0 + le32(h.version);
    let p2 = p1 + le32(flags_of(h.payload));
    let p3 = p2 + le16(spec_cipher_id(h.cipher));
    let p4 = p3 + le32(h.kdf.time_cost);
    let p5 = p4 + le32(h.kdf.memory_cost);
    let p6 = p5 + le32(h.kdf.parallelism);
    let p7 = p6 + le16(h.kdf.salt.len() as u16);
    let p8 = p7 + h.kdf.salt;
    let p9 = p8 + le16(h.kdf.hash_length as u16);
    let tail = match h.payload {
        PayloadKind::Single => Seq::<u8>::empty(),
        PayloadKind::Chunked { chunk_count } => le32(chunk_count),
    };
    assert(b == p9 + tail);
    assert(b.subrange(0, 4) =~= seq![0xF0u8, 0x9Fu8, 0x94u8, 0x90u8]);
    assert(b.subrange(4, 8) =~= le32(h.version));
    assert(b.subrange(8, 12) =~= le32(flags_of(h.payload)));
    assert(b.subrange(12, 14) =~= le16(spec_cipher_id(h.cipher)));
    assert(b.subrange(14, 18) =~= le32(h.kdf.time_cost));
    assert(b.subrange(18, 22) =~= le32(h.kdf.memory_cost));
    assert(b.subrange(22, 26) =~= le32(h.kdf.parallelism));
    assert(b.subrange(26, 28) =~= le16(h.kdf.salt.len() as u16));
    assert(b.subrange(28, 28 + sl) =~= h.kdf.salt);
    assert(b.subrange(28 + sl, 30 + sl) =~= le16(h.kdf.hash_length as u16));
    if let PayloadKind::Chunked { chunk_count } = h.payload {
        assert(b.subrange(30 + sl, 34 + sl) =~= le32(chunk_count));
    }
}

/// What a failed header write leaves behind is the start of the full
/// header: the first 26 bytes (through parallelism) when the salt is too
/// long, the first 28 plus the salt when the hash length is too large.
pub proof fn lemma_partial_headers_are_prefixes(h: FileHeaderView)
    ensures
        header_costs_part(h) == header_bytes(h).subrange(0, 26),
        header_salt_part(h) == header_bytes(h).subrange(0, 28 + h.kdf.salt.len() as int),
{
    vstd::bytes::lemma_auto_spec_u16_to_from_le_bytes();
    vstd::bytes::lemma_auto_spec_u32_to_from_le_bytes();
    let tail = match h.payload {
        PayloadKind::Single => Seq::<u8>::empty(),
        PayloadKind::Chunked { chunk_count } => le32(chunk_count),
    };
    let rest = le16(h.kdf.salt.len() as u16) + h.kdf.salt + le16(h.kdf.hash_length as u16) + tail;
    assert(header_costs_part(h).len() == 26);
    assert(header_bytes(h) =~= header_costs_part(h) + rest);
    assert(header_bytes(h).subrange(0, 26) =~= header_costs_part(h));
    let rest2 = le16(h.kdf.hash_length as u16) + tail;
    assert(header_bytes(h) =~= header_salt_part(h) + rest2);
    assert(header_bytes(h).subrange(0, 28 + h.kdf.salt.len() as int) =~= header_salt_part(h));
}

/// Where a header read from `s` found each field: the version in bytes
/// 4..8, the cipher id in 12..14, time cost in 14..18, memory cost in
/// 18..22, parallelism in 22..26, the salt length in 26..28 followed by the
/// salt, then the hash length and, for a chunked payload, the chunk count;
/// and it took exactly those bytes.
pub proof fn lemma_read_header_layout(s: Seq<u8>)
    requires
        parse_header(s) is Ok,
    ensures
        ({
            let (h, n) = parse_header(s)->Ok_0;
            let sl = h.kdf.salt.len() as int;
            &&& n == 30 + sl + (if h.payload is Chunked { 4int } else { 0int })
            &&& s.subrange(0, 4) == seq![0xF0u8, 0x9Fu8, 0x94u8, 0x90u8]
            &&& s.subrange(4, 8) == spec_u32_to_le_bytes(h.version)
            &&& s.subrange(12, 14) == spec_u16_to_le_bytes(stored_cipher_id(h.cipher))
            &&& s.subrange(14, 18) == spec_u32_to_le_bytes(h.kdf.time_cost)
            &&& s.subrange(18, 22) == spec_u32_to_le_bytes(h.kdf.memory_cost)
            &&& s.subrange(22, 26) == spec_u32_to_le_bytes(h.kdf.parallelism)
            &&& s.subrange(26, 28) == spec_u16_to_le_bytes(h.kdf.salt.len() as u16)
            &&& s.subrange(28, 28 + sl) == h.kdf.salt
            &&& s.subrange(28 + sl, 30 + sl) == spec_u16_to_le_bytes(h.kdf.hash_length as u16)
            &&& (h.payload matches PayloadKind::Chunked { chunk_count } ==> s.subrange(
                30 + sl,
                34 + sl,
            ) == spec_u32_to_le_bytes(chunk_count))
        }),
{
    vstd::bytes::lemma_auto_spec_u16_to_from_le_bytes();
    vstd::bytes::lemma_auto_spec_u32_to_from_le_bytes();
    let sl = le16_at(s, 26) as int;
    assert(s.subrange(0, 4) =~= seq![0xF0u8, 0x9Fu8, 0x94u8, 0x90u8]);
    assert(s.subrange(4, 8).len() == 4);
    assert(s.subrange(12, 14).len() == 2);
    assert(s.subrange(14, 18).len() == 4);
    assert(s.subrange(18, 22).len() == 4);
    assert(s.subrange(22, 26).len() == 4);
    assert(s.subrange(26, 28).len() == 2);
    assert(s.subrange(28 + sl, 30 + sl).len() == 2);
    let (h, n) = parse_header(s)->Ok_0;
    assert(h.kdf.salt.len() == sl);
    assert(stored_cipher_id(h.cipher) == le16_at(s, 12));
    if h.payload is Chunked {
        assert(s.subrange(30 + sl, 34 + sl).len() == 4);
    }
}

/// Where each field of a chunk frame sits: the nonce length in bytes 0..2,
/// the nonce from byte 2, the ciphertext length in the 4 bytes after the
/// nonce, then the ciphertext; nothing else.
pub proof fn lemma_chunk_layout(c: EncryptedChunkView)
    ensures
        ({
            let b = chunk_bytes(c);
            let nl = c.nonce.len() as int;
            let cl = c.ciphertext.len() as int;
            &&& b.len() == 6 + nl + cl
            &&& b.subrange(0, 2) == spec_u16_to_le_bytes(c.nonce.len() as u16)
            &&& b.subrange(2, 2 + nl) == c.nonce
            &&& b.subrange(2 + nl, 6 + nl) == spec_u32_to_le_bytes(c.ciphertext.len() as u32)
            &&& b.subrange(6 + nl, 6 + nl + cl) == c.ciphertext
        }),
{
    vstd::bytes::lemma_auto_spec_u16_to_from_le_bytes();
    vstd::bytes::lemma_auto_spec_u32_to_from_le_bytes();
    let b = chunk_bytes(c);
    let nl = c.nonce.len() as int;
    let cl = c.ciphertext.len() as int;
    let p0 = le16(c.nonce.len() as u16);
    let p1 = p0 + c.nonce;
    let p2 = p1 + le32(c.ciphertext.len() as u32);
    assert(b == p2 + c.ciphertext);
    assert(b.subrange(0, 2) =~= p0);
    assert(b.subrange(2, 2 + nl) =~= c.nonce);
    assert(b.subrange(2 + nl, 6 + nl) =~= le32(c.ciphertext.len() as u32));
    assert(b.subrange(6 + nl, 6 + nl + cl) =~= c.ciphertext);
}

/// Where a chunk read from `s` found its fields: the nonce length in bytes
/// 0..2, the nonce right after, the ciphertext length in the next 4 bytes,
/// then the ciphertext; it took exactly those bytes.
pub proof fn lemma_read_chunk_layout(s: Seq<u8>)
    requires
        parse_chunk(s) is Ok,
    ensures
        ({
            let (c, n) = parse_chunk(s)->Ok_0;
            let nl = c.nonce.len() as int;
            let cl = c.ciphertext.len() as int;
            &&& n == 6 + nl + cl
            &&& s.subrange(0, 2) == spec_u16_to_le_bytes(c.nonce.len() as u16)
            &&& s.subrange(2, 2 + nl) == c.nonce
            &&& s.subrange(2 + nl, 6 + nl) == spec_u32_to_le_bytes(c.ciphertext.len() as u32)
            &&& s.subrange(6 + nl, 6 + nl + cl) == c.ciphertext
        }),
{
    vstd::bytes::lemma_auto_spec_u16_to_from_le_bytes();
    vstd::bytes::lemma_auto_spec_u32_to_from_le_bytes();
    let nl = le16_at(s, 0) as int;
    assert(s.subrange(0, 2).len() == 2);
    assert(s.subrange(2 + nl, 6 + nl).len() == 4);
    let (c, n) = parse_chunk(s)->Ok_0;
    assert(c.nonce.len() == nl);
}

} // verus!

verus! {

/// Bytes held by the first `k` chunks of a file of `size` bytes cut into
/// `count` chunks.
pub open spec fn total_chunk_len(size: nat, count: nat, k: nat) -> nat
    decreases k,
{
    if k == 0 {
        0
    } else {
        total_chunk_len(size, count, (k - 1) as nat) + chunk_len(size, (k - 1) as nat, count)
    }
}

proof fn lemma_full_chunks(size: nat, count: nat, k: nat)
    requires
        k + 1 <= count,
    ensures
        total_chunk_len(size, count, k) == k * CHUNK_SIZE,
    decreases k,
{
    if k > 0 {
        lemma_full_chunks(size, count, (k - 1) as nat);
    }
}

/// Cutting a file into chunks loses and repeats nothing: the chunk lengths
/// add up to the file size, every chunk but the last is full, and none is
/// longer than `CHUNK_SIZE`.
pub proof fn lemma_chunks_cover_file(size: nat)
    ensures
        total_chunk_len(size, chunk_count_for(size), chunk_count_for(size)) == size,
        forall|i: nat|
            i + 1 < chunk_count_for(size) ==> #[trigger] chunk_len(size, i, chunk_count_for(size))
                == CHUNK_SIZE,
        forall|i: nat|
            i < chunk_count_for(size) ==> #[trigger] chunk_len(size, i, chunk_count_for(size))
                <= CHUNK_SIZE,
{
    let n = chunk_count_for(size);
    lemma_last_chunk_bounds(size);
    lemma_full_chunks(size, n, (n - 1) as nat);
    assert forall|i: nat| i < n implies #[trigger] chunk_len(size, i, n) <= CHUNK_SIZE by {
        if i + 1 >= n {
            assert(i == n - 1);
        }
    }
}

} // verus!

verus! {

/// Whether `path` names standard input or output (`-`).
pub fn is_std_stream(path: &str) -> (b: bool)
    ensures
        b == (path@ == "-"@),
{
    crate::text::str_eq(path, "-")
}

/// An existing output file is overwritten only with `force`; standard
/// output is never refused.
pub fn overwrite_refused(output_path: &str, output_exists: bool, force: bool) -> (b: bool)
    ensures
        b == (output_path@ != "-"@ && output_exists && !force),
{
    !is_std_stream(output_path) && output_exists && !force
}

/// Whether an error says that the input ended too soon, so that more bytes
/// could complete it.
pub fn is_unexpected_eof(e: &CryptError) -> (b: bool)
    ensures
        b == (e@ == eof_error()),
{
    proof {
        reveal_strlit("Unexpected end of file");
    }
    match e {
        CryptError::CorruptedFile(m) => crate::text::str_eq(m.as_str(), "Unexpected end of file"),
        _ => false,
    }
}

} // verus!

verus! {

/// The encoding of a run of chunks, one after another.
pub open spec fn frames(cs: Seq<EncryptedChunkView>) -> Seq<u8>
    decreases cs.len(),
{
    if cs.len() == 0 {
        Seq::empty()
    } else {
        chunk_bytes(cs[0]) + frames(cs.drop_first())
    }
}

/// Reading `n` chunks one after another from the front of `s`.
pub open spec fn parse_frames(s: Seq<u8>, n: nat) -> Result<Seq<EncryptedChunkView>, CryptErrorView>
    decreases n,
{
    if n == 0 {
        Ok(Seq::empty())
    } else {
        match parse_chunk(s) {
            Err(e) => Err(e),
            Ok((c, used)) => match parse_frames(s.skip(used as int), (n - 1) as nat) {
                Ok(rest) => Ok(seq![c] + rest),
                Err(e) => Err(e),
            },
        }
    }
}

/// A chunk that the format can carry: a nonce of 1 to 65535 bytes and a
/// ciphertext of 1 to 2^32 - 1 bytes.
pub open spec fn chunk_well_formed(c: EncryptedChunkView) -> bool {
    1 <= c.nonce.len() <= u16::MAX && 1 <= c.ciphertext.len() <= u32::MAX
}

/// A written run of chunks reads back chunk by chunk, whatever follows it.
pub proof fn lemma_frames_roundtrip(cs: Seq<EncryptedChunkView>, rest: Seq<u8>)
    requires
        forall|i: int| 0 <= i < cs.len() ==> chunk_well_formed(#[trigger] cs[i]),
    ensures
        parse_frames(frames(cs) + rest, cs.len()) == Ok::<Seq<EncryptedChunkView>, CryptErrorView>(
            cs,
        ),
    decreases cs.len(),
{
    if cs.len() > 0 {
        let c = cs[0];
        let tail = cs.drop_first();
        assert(chunk_well_formed(cs[0]));
        assert forall|i: int| 0 <= i < tail.len() implies chunk_well_formed(#[trigger] tail[i]) by {
            assert(tail[i] == cs[i + 1]);
        }
        lemma_frames_roundtrip(tail, rest);
        let s = frames(cs) + rest;
        assert(s =~= chunk_bytes(c) + (frames(tail) + rest));
        lemma_chunk_roundtrip(c, frames(tail) + rest);
        assert(s.skip(chunk_bytes(c).len() as int) =~= frames(tail) + rest);
        assert(parse_chunk(s) == Ok::<(EncryptedChunkView, nat), CryptErrorView>(
            (c, chunk_bytes(c).len()),
        ));
        assert(parse_frames(s.skip(chunk_bytes(c).len() as int), (cs.len() - 1) as nat) == Ok::<
            Seq<EncryptedChunkView>,
            CryptErrorView,
        >(tail));
        assert(parse_frames(s, cs.len()) == Ok::<Seq<EncryptedChunkView>, CryptErrorView>(
            seq![c] + tail,
        ));
        assert(seq![c] + tail =~= cs);
    } else {
        assert(cs =~= Seq::<EncryptedChunkView>::empty());
    }
}

/// A whole encrypted file reads back: the header comes back as written, and
/// the chunks after it come back as written, in order.
pub proof fn lemma_file_layout_roundtrip(
    h: FileHeaderView,
    cs: Seq<EncryptedChunkView>,
    rest: Seq<u8>,
)
    requires
        header_well_formed(h),
        forall|i: int| 0 <= i < cs.len() ==> chunk_well_formed(#[trigger] cs[i]),
    ensures
        parse_header(header_bytes(h) + frames(cs) + rest) == Ok::<
            (FileHeaderView, nat),
            CryptErrorView,
        >((h, header_bytes(h).len())),
        parse_frames((header_bytes(h) + frames(cs) + rest).skip(header_bytes(h).len() as int), cs.len())
            == Ok::<Seq<EncryptedChunkView>, CryptErrorView>(cs),
{
    let s = header_bytes(h) + frames(cs) + rest;
    assert(s =~= header_bytes(h) + (frames(cs) + rest));
    lemma_header_roundtrip(h, frames(cs) + rest);
    assert(s.skip(header_bytes(h).len() as int) =~= frames(cs) + rest);
    lemma_frames_roundtrip(cs, rest);
}

} // verus!

verus! {

/// Every header that reads successfully can be written again, and the
/// bytes it took are exactly its encoding, except for flag bits other than
/// the chunked bit, which the reader ignores.
pub proof fn lemma_read_header_is_canonical(s: Seq<u8>)
    requires
        parse_header(s) is Ok,
    ensures
        parse_header(s) matches Ok((h, n)) ==> header_well_formed(h) && n == header_bytes(h).len()
            && n <= s.len(),
        parse_header(s) matches Ok((h, n)) ==> (le32_at(s, 8) == 0 || le32_at(s, 8)
            == FLAG_CHUNKED ==> header_bytes(h) == s.subrange(0, n as int)),
{
    vstd::bytes::lemma_auto_spec_u16_to_from_le_bytes();
    vstd::bytes::lemma_auto_spec_u32_to_from_le_bytes();
    let (h, n) = parse_header(s)->Ok_0;
    let sl = le16_at(s, 26) as int;
    let flags = le32_at(s, 8);
    assert(s.subrange(4, 8).len() == 4);
    assert(s.subrange(8, 12).len() == 4);
    assert(s.subrange(12, 14).len() == 2);
    assert(s.subrange(14, 18).len() == 4);
    assert(s.subrange(18, 22).len() == 4);
    assert(s.subrange(22, 26).len() == 4);
    assert(s.subrange(26, 28).len() == 2);
    assert(s.subrange(28 + sl, 30 + sl).len() == 2);
    assert(le32(h.version) == s.subrange(4, 8));
    assert(le16(spec_cipher_id(h.cipher)) == s.subrange(12, 14));
    assert(le32(h.kdf.time_cost) == s.subrange(14, 18));
    assert(le32(h.kdf.memory_cost) == s.subrange(18, 22));
    assert(le32(h.kdf.parallelism) == s.subrange(22, 26));
    assert(le16(h.kdf.salt.len() as u16) == s.subrange(26, 28));
    assert(le16(h.kdf.hash_length as u16) == s.subrange(28 + sl, 30 + sl));
    if flags & FLAG_CHUNKED != 0 {
        assert(s.subrange(30 + sl, 34 + sl).len() == 4);
        assert(le32(h.payload->chunk_count) == s.subrange(30 + sl, 34 + sl));
    }
    if flags == 0 || flags == FLAG_CHUNKED {
        assert(flags_of(h.payload) == flags) by {
            if flags == 0 {
                assert(flags & FLAG_CHUNKED == 0) by (bit_vector)
                    requires
                        flags == 0u32,
                ;
            } else {
                assert(flags & FLAG_CHUNKED != 0) by (bit_vector)
                    requires
                        flags == 1u32,
                ;
            }
        }
        assert(le32(flags) == s.subrange(8, 12));
        assert(header_bytes(h) =~= s.subrange(0, n as int));
    }
}

} // verus!

verus! {

/// Chunk `i` of the plaintext `p` cut into `n` chunks.
pub open spec fn plaintext_piece(p: Seq<u8>, i: nat, n: nat) -> Seq<u8> {
    p.subrange((i * CHUNK_SIZE) as int, i * CHUNK_SIZE + chunk_len(p.len(), i, n))
}

/// The first `k` chunks of `p`, one after another.
pub open spec fn pieces_joined(p: Seq<u8>, n: nat, k: nat) -> Seq<u8>
    decreases k,
{
    if k == 0 {
        Seq::empty()
    } else {
        pieces_joined(p, n, (k - 1) as nat) + plaintext_piece(p, (k - 1) as nat, n)
    }
}

proof fn lemma_pieces_prefix(p: Seq<u8>, k: nat)
    requires
        k <= chunk_count_for(p.len()),
    ensures
        total_chunk_len(p.len(), chunk_count_for(p.len()), k) <= p.len(),
        pieces_joined(p, chunk_count_for(p.len()), k) == p.subrange(
            0,
            total_chunk_len(p.len(), chunk_count_for(p.len()), k) as int,
        ),
    decreases k,
{
    let n = chunk_count_for(p.len());
    lemma_last_chunk_bounds(p.len());
    lemma_chunks_cover_file(p.len());
    if k > 0 {
        let k1 = (k - 1) as nat;
        lemma_pieces_prefix(p, k1);
        if k1 + 1 < n {
            lemma_full_chunks(p.len(), n, k);
        }
        lemma_full_chunks(p.len(), n, k1);
        let t = total_chunk_len(p.len(), n, k1);
        assert(t == k1 * CHUNK_SIZE);
        assert(total_chunk_len(p.len(), n, k) == t + chunk_len(p.len(), k1, n));
        assert(pieces_joined(p, n, k) =~= p.subrange(0, total_chunk_len(p.len(), n, k) as int));
    } else {
        assert(pieces_joined(p, n, 0) =~= p.subrange(0, 0));
    }
}

/// Cutting a plaintext into chunks and joining the chunks again gives the
/// plaintext back.
pub proof fn lemma_pieces_rejoin(p: Seq<u8>)
    ensures
        pieces_joined(p, chunk_count_for(p.len()), chunk_count_for(p.len())) == p,
        forall|i: nat|
            i < chunk_count_for(p.len()) ==> (#[trigger] plaintext_piece(
                p,
                i,
                chunk_count_for(p.len()),
            )).len() <= CHUNK_SIZE,
{
    lemma_chunks_cover_file(p.len());
    lemma_pieces_prefix(p, chunk_count_for(p.len()));
    assert(p.subrange(0, p.len() as int) =~= p);
    assert forall|i: nat| i < chunk_count_for(p.len()) implies (#[trigger] plaintext_piece(
        p,
        i,
        chunk_count_for(p.len()),
    )).len() <= CHUNK_SIZE by {
        let n = chunk_count_for(p.len());
        assert(chunk_len(p.len(), i, n) <= CHUNK_SIZE);
        if i + 1 < n {
            lemma_full_chunks(p.len(), n, i + 1);
            lemma_full_chunks(p.len(), n, i);
            assert(total_chunk_len(p.len(), n, i + 1) <= p.len()) by {
                lemma_pieces_prefix(p, i + 1);
            }
        } else {
            lemma_last_chunk_bounds(p.len());
            assert(i == n - 1);
        }
    }
}

/// The whole encrypted file reads back. For a plaintext `p` cut into its
/// chunks, and chunk `i` sealed under `key` with its own nonce (16 bytes of
/// tag added), the file made of the header and the chunk frames reads back
/// as the same header (so the same key derivation settings) and the same
/// chunks in order; each chunk is a sealing, under that key and its nonce,
/// of a plaintext piece the cipher accepts, so `Cipher::decrypt` opens it to
/// that piece; and the pieces, joined in order, are `p`.
pub proof fn lemma_encrypted_file_roundtrip(
    h: FileHeaderView,
    key: Seq<u8>,
    p: Seq<u8>,
    cs: Seq<EncryptedChunkView>,
    rest: Seq<u8>,
)
    requires
        header_well_formed(h),
        h.payload.spec_chunk_count() == chunk_count_for(p.len()),
        cs.len() == chunk_count_for(p.len()),
        forall|i: int|
            0 <= i < cs.len() ==> (#[trigger] cs[i]).nonce.len() == spec_nonce_size(h.cipher)
                && cs[i].ciphertext == spec_seal(
                h.cipher,
                key,
                cs[i].nonce,
                plaintext_piece(p, i as nat, cs.len()),
            ) && cs[i].ciphertext.len() == plaintext_piece(p, i as nat, cs.len()).len()
                + TAG_SIZE,
    ensures
        parse_header(header_bytes(h) + frames(cs) + rest) == Ok::<
            (FileHeaderView, nat),
            CryptErrorView,
        >((h, header_bytes(h).len())),
        parse_frames((header_bytes(h) + frames(cs) + rest).skip(header_bytes(h).len() as int), cs.len())
            == Ok::<Seq<EncryptedChunkView>, CryptErrorView>(cs),
        forall|i: int|
            0 <= i < cs.len() ==> plaintext_fits(
                h.cipher,
                plaintext_piece(p, i as nat, cs.len()).len(),
            ) && (#[trigger] cs[i]).ciphertext == spec_seal(
                h.cipher,
                key,
                cs[i].nonce,
                plaintext_piece(p, i as nat, cs.len()),
            ),
        pieces_joined(p, cs.len(), cs.len()) == p,
{
    lemma_pieces_rejoin(p);
    let n = cs.len();
    assert forall|i: int| 0 <= i < n implies chunk_well_formed(#[trigger] cs[i]) && plaintext_fits(
        h.cipher,
        plaintext_piece(p, i as nat, n).len(),
    ) by {
        assert(plaintext_piece(p, i as nat, n).len() <= CHUNK_SIZE);
    }
    lemma_file_layout_roundtrip(h, cs, rest);
}

/// The chunks of `p`, in order.
pub open spec fn plaintext_pieces(p: Seq<u8>) -> Seq<Seq<u8>> {
    Seq::new(
        chunk_count_for(p.len()),
        |i: int| plaintext_piece(p, i as nat, chunk_count_for(p.len())),
    )
}

proof fn lemma_pieces_flatten(p: Seq<u8>, k: nat)
    requires
        k <= chunk_count_for(p.len()),
    ensures
        plaintext_pieces(p).take(k as int).flatten_alt() == pieces_joined(
            p,
            chunk_count_for(p.len()),
            k,
        ),
    decreases k,
{
    let ps = plaintext_pieces(p);
    if k > 0 {
        lemma_pieces_flatten(p, (k - 1) as nat);
        assert(ps.take(k as int).drop_last() =~= ps.take(k - 1));
    } else {
        assert(ps.take(0) =~= Seq::<Seq<u8>>::empty());
    }
}

/// Encryption, reordered, writes a file that reads back. When the sealed
/// chunks of `p` come back from the workers in any order (each index of
/// `0 .. n` once, where `n` is the chunk count of `p`, and chunk `i` a
/// sealing of piece `i` under `key` with a nonce of the cipher's size, tag
/// added), the reorder buffer releases all of them, chunk `i` in place `i`;
/// the header followed by the frames of the released chunks reads back as
/// that header and those chunks, and each chunk is a sealing of its piece
/// that the cipher accepts, so `Cipher::decrypt` opens it to that piece.
pub proof fn lemma_encrypted_output_reads_back(
    h: FileHeaderView,
    key: Seq<u8>,
    p: Seq<u8>,
    arrivals: Seq<(u32, EncryptedChunk)>,
    rest: Seq<u8>,
)
    requires
        header_well_formed(h),
        h.payload.spec_chunk_count() == chunk_count_for(p.len()),
        arrivals.len() == chunk_count_for(p.len()),
        arrivals.len() < u32::MAX,
        forall|j: int| 0 <= j < arrivals.len() ==> (#[trigger] arrivals[j].0 as int) < arrivals.len(),
        forall|j1: int, j2: int|
            0 <= j1 < j2 < arrivals.len() ==> arrivals[j1].0 != arrivals[j2].0,
        forall|k: int| 0 <= k < arrivals.len() ==> #[trigger] index_arrives(arrivals, k),
        forall|j: int|
            0 <= j < arrivals.len() ==> (#[trigger] arrivals[j].1)@.nonce.len() == spec_nonce_size(
                h.cipher,
            ) && arrivals[j].1@.ciphertext == spec_seal(
                h.cipher,
                key,
                arrivals[j].1@.nonce,
                plaintext_piece(p, arrivals[j].0 as nat, arrivals.len()),
            ) && arrivals[j].1@.ciphertext.len() == plaintext_piece(
                p,
                arrivals[j].0 as nat,
                arrivals.len(),
            ).len() + TAG_SIZE,
    ensures
        ({
            let released = reorder_run(arrivals).2;
            let cs = released.map_values(|c: EncryptedChunk| c@);
            &&& released.len() == arrivals.len()
            &&& reorder_run(arrivals).0 =~= Map::<u32, EncryptedChunk>::empty()
            &&& forall|j: int|
                0 <= j < arrivals.len() ==> cs[#[trigger] arrivals[j].0 as int] == arrivals[j].1@
            &&& parse_header(header_bytes(h) + frames(cs) + rest) == Ok::<
                (FileHeaderView, nat),
                CryptErrorView,
            >((h, header_bytes(h).len()))
            &&& parse_frames(
                (header_bytes(h) + frames(cs) + rest).skip(header_bytes(h).len() as int),
                cs.len(),
            ) == Ok::<Seq<EncryptedChunkView>, CryptErrorView>(cs)
            &&& forall|i: int|
                0 <= i < cs.len() ==> plaintext_fits(
                    h.cipher,
                    plaintext_piece(p, i as nat, cs.len()).len(),
                ) && (#[trigger] cs[i]).ciphertext == spec_seal(
                    h.cipher,
                    key,
                    cs[i].nonce,
                    plaintext_piece(p, i as nat, cs.len()),
                )
        }),
{
    let n = arrivals.len();
    lemma_reorder_restores_order(arrivals);
    let released = reorder_run(arrivals).2;
    let cs = released.map_values(|c: EncryptedChunk| c@);
    assert forall|j: int| 0 <= j < n implies cs[#[trigger] arrivals[j].0 as int]
        == arrivals[j].1@ by {
        assert(released[arrivals[j].0 as int] == arrivals[j].1);
    }
    assert forall|i: int| 0 <= i < n implies (#[trigger] cs[i]).nonce.len() == spec_nonce_size(
        h.cipher,
    ) && cs[i].ciphertext == spec_seal(h.cipher, key, cs[i].nonce, plaintext_piece(p, i as nat, n))
        && cs[i].ciphertext.len() == plaintext_piece(p, i as nat, n).len() + TAG_SIZE by {
        assert(index_arrives(arrivals, i));
        let j = choose|j: int| 0 <= j < n && arrivals[j].0 == i;
        assert(cs[arrivals[j].0 as int] == arrivals[j].1@);
    }
    lemma_encrypted_file_roundtrip(h, key, p, cs, rest);
}

/// Decryption, reordered, writes the plaintext back. When the opened chunks
/// of `p` come back from the workers in any order (each index of `0 .. n`
/// once, where `n` is the chunk count of `p`, and chunk `i` holding piece
/// `i`, which is what `Cipher::decrypt` gives for a chunk sealing that
/// piece), the reorder buffer releases them in index order and keeps
/// nothing back, and the released chunks, written one after another, are
/// `p`.
pub proof fn lemma_decrypted_output_is_plaintext(p: Seq<u8>, arrivals: Seq<(u32, Vec<u8>)>)
    requires
        arrivals.len() == chunk_count_for(p.len()),
        arrivals.len() < u32::MAX,
        forall|j: int| 0 <= j < arrivals.len() ==> (#[trigger] arrivals[j].0 as int) < arrivals.len(),
        forall|j1: int, j2: int|
            0 <= j1 < j2 < arrivals.len() ==> arrivals[j1].0 != arrivals[j2].0,
        forall|k: int| 0 <= k < arrivals.len() ==> #[trigger] index_arrives(arrivals, k),
        forall|j: int|
            0 <= j < arrivals.len() ==> (#[trigger] arrivals[j].1)@ == plaintext_piece(
                p,
                arrivals[j].0 as nat,
                arrivals.len(),
            ),
    ensures
        reorder_run(arrivals).0 =~= Map::<u32, Vec<u8>>::empty(),
        reorder_run(arrivals).2.map_values(|v: Vec<u8>| v@) == plaintext_pieces(p),
        reorder_run(arrivals).2.map_values(|v: Vec<u8>| v@).flatten() == p,
{
    let n = arrivals.len();
    lemma_reorder_restores_order(arrivals);
    let released = reorder_run(arrivals).2;
    let qs = released.map_values(|v: Vec<u8>| v@);
    let ps = plaintext_pieces(p);
    assert forall|i: int| 0 <= i < n implies qs[i] == ps[i] by {
        assert(index_arrives(arrivals, i));
        let j = choose|j: int| 0 <= j < n && arrivals[j].0 == i;
        assert(released[arrivals[j].0 as int] == arrivals[j].1);
    }
    assert(qs =~= ps);
    lemma_pieces_flatten(p, n);
    lemma_pieces_rejoin(p);
    assert(ps.take(n as int) =~= ps);
    ps.lemma_flatten_and_flatten_alt_are_equivalent();
}

/// A failed chunk stops the plaintext at a chunk boundary before it. When
/// the chunks of `p` that were opened come back in any order (distinct
/// indices below `n`, chunk `i` holding piece `i`) and chunk `missing`
/// never does (its decryption failed), the reorder buffer has released
/// chunks `0 .. next` only, with `next <= missing`, and what they hold,
/// written one after another, is the first `next` full chunks of `p`:
/// nothing from the failed chunk or after it reaches the output.
pub proof fn lemma_failed_chunk_cuts_output(
    p: Seq<u8>,
    arrivals: Seq<(u32, Vec<u8>)>,
    missing: u32,
)
    requires
        chunk_count_for(p.len()) < u32::MAX,
        missing < chunk_count_for(p.len()),
        !index_arrives(arrivals, missing as int),
        forall|j: int|
            0 <= j < arrivals.len() ==> (#[trigger] arrivals[j].0 as int) < chunk_count_for(
                p.len(),
            ),
        forall|j1: int, j2: int|
            0 <= j1 < j2 < arrivals.len() ==> arrivals[j1].0 != arrivals[j2].0,
        forall|j: int|
            0 <= j < arrivals.len() ==> (#[trigger] arrivals[j].1)@ == plaintext_piece(
                p,
                arrivals[j].0 as nat,
                chunk_count_for(p.len()),
            ),
    ensures
        ({
            let (pending, next, released) = reorder_run(arrivals);
            &&& next <= missing
            &&& released.map_values(|v: Vec<u8>| v@) == plaintext_pieces(p).take(next as int)
            &&& released.map_values(|v: Vec<u8>| v@).flatten() == p.subrange(
                0,
                next * CHUNK_SIZE,
            )
        }),
{
    let n = chunk_count_for(p.len());
    lemma_reorder_releases_prefix(arrivals);
    let (pending, next, released) = reorder_run(arrivals);
    let r = received(arrivals);
    let qs = released.map_values(|v: Vec<u8>| v@);
    let ps = plaintext_pieces(p);
    assert(next <= missing);
    assert forall|i: int| 0 <= i < next implies qs[i] == ps.take(next as int)[i] by {
        assert(released[i] == r[i as u32]);
        if !index_arrives(arrivals, i) {
            assert(next <= i);
        }
        let j = choose|j: int| 0 <= j < arrivals.len() && arrivals[j].0 == i;
        assert(r[arrivals[j].0] == arrivals[j].1);
        assert(arrivals[j].0 == i as u32);
    }
    assert(qs =~= ps.take(next as int));
    lemma_pieces_flatten(p, next as nat);
    lemma_pieces_prefix(p, next as nat);
    lemma_full_chunks(p.len(), n, next as nat);
    ps.take(next as int).lemma_flatten_and_flatten_alt_are_equivalent();
}

} // verus!
