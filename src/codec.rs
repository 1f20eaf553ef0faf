//! The per-file codec pipeline: content hashing, compression and
//! authenticated encryption of payloads, and their inverses.

use vstd::prelude::*;
use vstd::slice::{slice_subrange, slice_to_vec};
use crate::format::{CompressionType, PackError};

verus! {

/// Largest plaintext AES-256-GCM accepts, in bytes.
pub const AEAD_MAX_PLAINTEXT: u64 = 0x10_0000_0000;

/// Length of the nonce stored in front of each encrypted payload.
pub const NONCE_LEN: usize = 12;

/// Bytes that sealing adds: the stored nonce and the 16-byte tag.
pub const SEAL_OVERHEAD: usize = 28;

/// Length of an AES-256 key.
pub const KEY_LEN: usize = 32;

/// SHA-256 digest of `data`.
pub uninterp spec fn sha256_of(data: Seq<u8>) -> Seq<u8>;

/// The zstd frame produced at level 3 for `data`.
pub uninterp spec fn zstd_encoded(data: Seq<u8>) -> Seq<u8>;

/// What a zstd decoder yields for `data`, or `None` for a malformed stream.
pub uninterp spec fn zstd_decoded(data: Seq<u8>) -> Option<Seq<u8>>;

/// The LZ4 block for `data`, prefixed with its length.
pub uninterp spec fn lz4_encoded(data: Seq<u8>) -> Seq<u8>;

/// What a size-prefixed LZ4 block decodes to, or `None` if malformed.
pub uninterp spec fn lz4_decoded(data: Seq<u8>) -> Option<Seq<u8>>;

/// AES-256-GCM ciphertext followed by its tag.
pub uninterp spec fn aes_sealed(key: Seq<u8>, nonce: Seq<u8>, plaintext: Seq<u8>) -> Seq<u8>;

/// AES-256-GCM plaintext of `sealed`, or `None` when authentication fails.
pub uninterp spec fn aes_opened(key: Seq<u8>, nonce: Seq<u8>, sealed: Seq<u8>) -> Option<Seq<u8>>;

/// The bytes an optional buffer holds.
pub open spec fn opt_bytes(r: Option<Vec<u8>>) -> Option<Seq<u8>> {
    match r {
        Some(v) => Some(v@),
        None => None,
    }
}

/// The bytes a fallible result holds, or its error.
pub open spec fn res_bytes(r: Result<Vec<u8>, PackError>) -> Result<Seq<u8>, PackError> {
    match r {
        Ok(v) => Ok(v@),
        Err(e) => Err(e),
    }
}

/// The lowercase hexadecimal digits.
pub open spec fn hex_digits() -> Seq<char> {
    seq!['0', '1', '2', '3', '4', '5', '6', '7', '8', '9', 'a', 'b', 'c', 'd', 'e', 'f']
}

/// Lowercase hex text of `b`: two digits per byte, high nibble first.
pub open spec fn hex_lower(b: Seq<u8>) -> Seq<char>
    decreases b.len(),
{
    if b.len() == 0 {
        Seq::empty()
    } else {
        let x = b.last() as int;
        hex_lower(b.drop_last()) + seq![hex_digits()[x / 16], hex_digits()[x % 16]]
    }
}

/// Stored form of `data` under the compression `kind`.
pub open spec fn compressed(data: Seq<u8>, kind: CompressionType) -> Seq<u8> {
    match kind {
        CompressionType::Store => data,
        CompressionType::Zstd => zstd_encoded(data),
        CompressionType::Lz4 => lz4_encoded(data),
    }
}

/// What the compression `kind` decodes `stored` to.
pub open spec fn decompressed(stored: Seq<u8>, kind: CompressionType) -> Result<Seq<u8>, PackError> {
    let d = match kind {
        CompressionType::Store => Some(stored),
        CompressionType::Zstd => zstd_decoded(stored),
        CompressionType::Lz4 => lz4_decoded(stored),
    };
    match d {
        Some(x) => Ok(x),
        None => Err(PackError::DecompressionFailure),
    }
}

/// An encrypted payload: the nonce, then the sealed bytes.
pub open spec fn sealed_payload(key: Seq<u8>, nonce: Seq<u8>, data: Seq<u8>) -> Seq<u8> {
    nonce + aes_sealed(key, nonce, data)
}

/// What an encrypted payload opens to under `key`.
pub open spec fn opened_payload(key: Seq<u8>, payload: Seq<u8>) -> Result<Seq<u8>, PackError> {
    if payload.len() < NONCE_LEN {
        Err(PackError::DecryptionFailure)
    } else {
        match aes_opened(key, payload.subrange(0, NONCE_LEN as int), payload.subrange(NONCE_LEN as int, payload.len() as int)) {
            Some(x) => Ok(x),
            None => Err(PackError::DecryptionFailure),
        }
    }
}

/// Relies on sha2's `Digest::digest` for `Sha256`: the 32-byte digest of `data`.
#[verifier::external_body]
fn sha256(data: &[u8]) -> (r: Vec<u8>)
    ensures
        r@ == sha256_of(data@),
        r@.len() == 32,
{
    <sha2::Sha256 as sha2::Digest>::digest(data).to_vec()
}

/// Relies on `hex::encode`: two lowercase hex digits per byte, in order.
#[verifier::external_body]
fn hex_encode(data: &[u8]) -> (r: String)
    ensures
        r@ == hex_lower(data@),
{
    hex::encode(data)
}

/// Relies on `zstd::stream::encode_all` at level 3 over an in-memory reader:
/// the frame zstd produces for `data`. Reading a slice and writing a `Vec`
/// cannot fail, so its only error is zstd running out of memory, which is
/// treated like the failed context allocation that zstd-safe already panics on.
#[verifier::external_body]
fn zstd_encode(data: &[u8]) -> (r: Vec<u8>)
    ensures
        r@ == zstd_encoded(data@),
{
    zstd::stream::encode_all(std::io::Cursor::new(data), 3).expect("zstd could not allocate")
}

/// Relies on `zstd::stream::decode_all` over an in-memory reader: zstd is
/// lossless, so a frame that zstd produced decodes to its input.
#[verifier::external_body]
fn zstd_decode(data: &[u8]) -> (r: Option<Vec<u8>>)
    ensures
        opt_bytes(r) == zstd_decoded(data@),
        forall|x: Seq<u8>| #[trigger] zstd_encoded(x) == data@ ==> opt_bytes(r) == Some(x),
{
    zstd::stream::decode_all(std::io::Cursor::new(data)).ok()
}

/// Relies on `lz4_flex::compress_prepend_size`: the LZ4 block of `data`
/// behind its length as a little-endian `u32`.
#[verifier::external_body]
fn lz4_encode(data: &[u8]) -> (r: Vec<u8>)
    ensures
        r@ == lz4_encoded(data@),
{
    lz4_flex::compress_prepend_size(data)
}

/// Relies on `lz4_flex::decompress_size_prepended`, which allocates the size
/// the prefix declares and fails on a malformed block: lossless for inputs
/// whose length fits the `u32` prefix.
#[verifier::external_body]
fn lz4_decode(data: &[u8]) -> (r: Option<Vec<u8>>)
    ensures
        opt_bytes(r) == lz4_decoded(data@),
        forall|x: Seq<u8>|
            #[trigger] lz4_encoded(x) == data@ && x.len() <= u32::MAX ==> opt_bytes(r) == Some(x),
{
    lz4_flex::decompress_size_prepended(data).ok()
}

/// Relies on aes-gcm's `Aes256Gcm` (`KeyInit::new`, then `Aead::encrypt`
/// without associated data), which refuses only plaintexts over 2^36 bytes.
#[verifier::external_body]
fn aes_encrypt(key: &[u8], nonce: &[u8], data: &[u8]) -> (r: Option<Vec<u8>>)
    requires
        key@.len() == KEY_LEN,
        nonce@.len() == NONCE_LEN,
    ensures
        r matches Some(c) ==> c@ == aes_sealed(key@, nonce@, data@) && c@.len() == data@.len() + 16,
        data@.len() <= AEAD_MAX_PLAINTEXT ==> r is Some,
{
    let cipher = <aes_gcm::Aes256Gcm as aes_gcm::KeyInit>::new(aes_gcm::Key::<aes_gcm::Aes256Gcm>::from_slice(key));
    aes_gcm::aead::Aead::encrypt(&cipher, aes_gcm::Nonce::from_slice(nonce), data).ok()
}

/// Relies on aes-gcm's `Aes256Gcm` (`KeyInit::new`, then `Aead::decrypt`
/// without associated data): what was sealed under the same key and nonce
/// opens to the original plaintext.
#[verifier::external_body]
fn aes_decrypt(key: &[u8], nonce: &[u8], sealed: &[u8]) -> (r: Option<Vec<u8>>)
    requires
        key@.len() == KEY_LEN,
        nonce@.len() == NONCE_LEN,
    ensures
        opt_bytes(r) == aes_opened(key@, nonce@, sealed@),
        forall|x: Seq<u8>|
            #[trigger] aes_sealed(key@, nonce@, x) == sealed@ && x.len() <= AEAD_MAX_PLAINTEXT
                ==> opt_bytes(r) == Some(x),
{
    let cipher = <aes_gcm::Aes256Gcm as aes_gcm::KeyInit>::new(aes_gcm::Key::<aes_gcm::Aes256Gcm>::from_slice(key));
    aes_gcm::aead::Aead::decrypt(&cipher, aes_gcm::Nonce::from_slice(nonce), sealed).ok()
}

/// Relies on `RngCore::try_fill_bytes` of `OsRng`, the operating system's
/// random source as re-exported by aes-gcm: twelve random bytes, or nothing
/// when the operating system cannot supply them.
#[verifier::external_body]
pub(crate) fn fresh_nonce() -> (r: Option<Vec<u8>>)
    ensures
        r matches Some(v) ==> v@.len() == NONCE_LEN,
{
    let mut nonce = vec![0u8; NONCE_LEN];
    aes_gcm::aead::rand_core::RngCore::try_fill_bytes(&mut aes_gcm::aead::OsRng, &mut nonce)
        .ok()
        .map(|_| nonce)
}

/// Integrity reference stored for a file: lowercase hex SHA-256 of its bytes.
pub fn content_hash(data: &[u8]) -> (r: String)
    ensures
        r@ == hex_lower(sha256_of(data@)),
{
    let digest = sha256(data);
    hex_encode(digest.as_slice())
}

/// The AES-256 key for an application secret: its SHA-256 digest.
pub fn derive_key(secret: &[u8]) -> (r: Vec<u8>)
    ensures
        r@ == sha256_of(secret@),
        r@.len() == KEY_LEN,
{
    sha256(secret)
}

/// Compresses `data` with `kind`.
pub fn compress(data: &[u8], kind: CompressionType) -> (r: Vec<u8>)
    ensures
        r@ == compressed(data@, kind),
{
    match kind {
        CompressionType::Store => slice_to_vec(data),
        CompressionType::Zstd => zstd_encode(data),
        CompressionType::Lz4 => lz4_encode(data),
    }
}

/// Whether what `compress` produces for `x` under `kind` decodes back to
/// `x`: always, but for LZ4, whose 4-byte size prefix bounds the length.
pub open spec fn round_trips(x: Seq<u8>, kind: CompressionType) -> bool {
    kind == CompressionType::Lz4 ==> x.len() <= u32::MAX
}

/// Decodes a stored payload by its compression tag. What `compress` produced
/// for `x` decodes back to `x` (for LZ4, when `x` fits its 4-byte size prefix).
pub fn decompress(stored: &[u8], kind: CompressionType) -> (r: Result<Vec<u8>, PackError>)
    ensures
        res_bytes(r) == decompressed(stored@, kind),
        forall|x: Seq<u8>|
            #[trigger] compressed(x, kind) == stored@ && round_trips(x, kind) ==> res_bytes(r) == Ok::<
                Seq<u8>,
                PackError,
            >(x),
{
    let d = match kind {
        CompressionType::Store => Some(slice_to_vec(stored)),
        CompressionType::Zstd => zstd_decode(stored),
        CompressionType::Lz4 => lz4_decode(stored),
    };
    match d {
        Some(v) => Ok(v),
        None => Err(PackError::DecompressionFailure),
    }
}

/// Encrypts `data` under `key` with `nonce`, storing the nonce in front.
/// Fails only on plaintexts larger than AES-GCM accepts.
pub fn seal(key: &[u8], nonce: &[u8], data: &[u8]) -> (r: Result<Vec<u8>, PackError>)
    requires
        key@.len() == KEY_LEN,
        nonce@.len() == NONCE_LEN,
    ensures
        r matches Ok(v) ==> v@ == sealed_payload(key@, nonce@, data@) && v@.len() == data@.len()
            + SEAL_OVERHEAD,
        r matches Err(e) ==> e == PackError::BuildSourceError,
        data@.len() <= AEAD_MAX_PLAINTEXT ==> r is Ok,
{
    match aes_encrypt(key, nonce, data) {
        Some(c) => {
            let mut out = slice_to_vec(nonce);
            crate::format::push_bytes(&mut out, c.as_slice());
            Ok(out)
        },
        None => Err(PackError::BuildSourceError),
    }
}

/// Opens an encrypted payload under `key`. A payload sealed under the same
/// key (which needs a plaintext AES-GCM accepts) opens to its plaintext;
/// anything that fails authentication is a `DecryptionFailure`.
pub fn open(key: &[u8], payload: &[u8]) -> (r: Result<Vec<u8>, PackError>)
    requires
        key@.len() == KEY_LEN,
    ensures
        res_bytes(r) == opened_payload(key@, payload@),
        forall|nonce: Seq<u8>, x: Seq<u8>|
            nonce.len() == NONCE_LEN && #[trigger] sealed_payload(key@, nonce, x) == payload@ && x.len()
                <= AEAD_MAX_PLAINTEXT ==> res_bytes(r) == Ok::<Seq<u8>, PackError>(x),
{
    let n: usize = payload.len();
    if n < NONCE_LEN {
        assert forall|nonce: Seq<u8>, x: Seq<u8>|
            nonce.len() == NONCE_LEN && #[trigger] sealed_payload(key@, nonce, x) == payload@
            implies false by {
            assert(sealed_payload(key@, nonce, x).len() >= NONCE_LEN);
        }
        return Err(PackError::DecryptionFailure);
    }
    let nonce = slice_subrange(payload, 0, NONCE_LEN);
    let body = slice_subrange(payload, NONCE_LEN, n);
    let r = aes_decrypt(key, nonce, body);
    assert forall|nonce2: Seq<u8>, x: Seq<u8>|
        nonce2.len() == NONCE_LEN && #[trigger] sealed_payload(key@, nonce2, x) == payload@ && x.len()
            <= AEAD_MAX_PLAINTEXT implies opt_bytes(r) == Some(x) by {
        let p = sealed_payload(key@, nonce2, x);
        assert(p.subrange(0, NONCE_LEN as int) =~= nonce2);
        assert(p.subrange(NONCE_LEN as int, p.len() as int) =~= aes_sealed(key@, nonce2, x));
    }
    match r {
        Some(v) => Ok(v),
        None => Err(PackError::DecryptionFailure),
    }
}

} // verus!
