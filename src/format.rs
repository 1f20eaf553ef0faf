//! Wire-level shapes of a pack: manifest and entry records, the error kinds,
//! and the fixed-size header that frames the manifest, data region and index.

use vstd::prelude::*;

verus! {

/// Media type under which packs are published.
pub const CONTENT_TYPE: &'static str = "application/vnd.layerpack";

/// The only format version this library writes and accepts.
pub const FORMAT_VERSION: u32 = 1;

/// Kind of content a pack holds; drives the compression heuristic.
#[derive(Debug, Clone, Copy, PartialEq, Eq, Structural)]
pub enum PackType {
    Base,
    Text,
    Image,
    Audio,
    Script,
    Mod,
    Other,
}

/// How a stored payload is compressed.
#[derive(Debug, Clone, Copy, PartialEq, Eq, Structural)]
pub enum CompressionType {
    Store,
    Zstd,
    Lz4,
}

/// How a stored payload is encrypted.
#[derive(Debug, Clone, Copy, PartialEq, Eq, Structural)]
pub enum EncryptionType {
    Plain,
    Aes256Gcm,
}

impl Default for EncryptionType {
    /// Records written before encryption existed carry no tag: they are plain.
    fn default() -> (r: Self)
        ensures
            r == EncryptionType::Plain,
    {
        EncryptionType::Plain
    }
}

/// Per-pack metadata, written once at build time.
#[derive(Debug, Clone)]
pub struct PackManifest {
    pub name: String,
    pub pack_type: PackType,
    pub lang: Option<String>,
    /// Higher wins during layered resolution.
    pub priority: i32,
    pub description: Option<String>,
    pub version: Option<String>,
    pub custom_ref: Option<String>,
    pub author: Option<String>,
    pub website: Option<String>,
}

/// Metadata of one logical file inside a pack.
#[derive(Debug, Clone)]
pub struct FileEntry {
    /// Virtual, forward-slash separated path; unique within a pack.
    pub path: String,
    /// Absolute offset of the stored payload within the pack.
    pub offset: u64,
    pub original_size: u64,
    /// Length of the stored payload.
    pub compressed_size: u64,
    pub compression: CompressionType,
    pub encryption: EncryptionType,
    /// Lowercase hex SHA-256 of the original bytes.
    pub hash: String,
}

/// The typed failures of building, loading and reading packs.
#[derive(Debug, Clone, Copy, PartialEq, Eq, Structural)]
pub enum PackError {
    /// Bad magic, unknown version, or an index pointer or entry outside the data region.
    InvalidFormat,
    /// Header, manifest or index shorter than declared.
    TruncatedInput,
    ManifestParseError,
    PathNotFound,
    DecompressionFailure,
    /// Wrong or missing key, or tampered payload.
    DecryptionFailure,
    IoFailure,
    BuildSourceError,
}

/// The five magic bytes `LPACK` that open every pack.
pub open spec fn magic() -> Seq<u8> {
    seq![0x4cu8, 0x50u8, 0x41u8, 0x43u8, 0x4bu8]
}

/// Length of the magic, version and manifest-length fields.
pub const PREAMBLE_LEN: usize = 13;

/// Length of everything in the header but the manifest text.
pub const FIXED_HEADER_LEN: usize = 25;

/// Little-endian encoding of a 32-bit value.
pub open spec fn le32(v: u32) -> Seq<u8> {
    seq![v as u8, (v >> 8u32) as u8, (v >> 16u32) as u8, (v >> 24u32) as u8]
}

/// Little-endian encoding of a 64-bit value.
pub open spec fn le64(v: u64) -> Seq<u8> {
    le32(v as u32) + le32((v >> 32u64) as u32)
}

/// The 32-bit value stored little-endian at `b[i..i + 4]`.
pub open spec fn u32_at(b: Seq<u8>, i: int) -> u32 {
    (b[i] as u32) | ((b[i + 1] as u32) << 8u32) | ((b[i + 2] as u32) << 16u32) | ((b[i + 3] as u32)
        << 24u32)
}

/// The 64-bit value stored little-endian at `b[i..i + 8]`.
pub open spec fn u64_at(b: Seq<u8>, i: int) -> u64 {
    (u32_at(b, i) as u64) | ((u32_at(b, i + 4) as u64) << 32u64)
}

/// Reading back the little-endian encoding of a 32-bit value gives the value.
pub proof fn lemma_u32_round_trip(v: u32)
    ensures
        u32_at(le32(v), 0) == v,
{
    let b = le32(v);
    let (b0, b1, b2, b3) = (b[0], b[1], b[2], b[3]);
    assert(b0 == v as u8 && b1 == (v >> 8u32) as u8 && b2 == (v >> 16u32) as u8 && b3 == (v
        >> 24u32) as u8);
    assert(((b0 as u32) | ((b1 as u32) << 8u32) | ((b2 as u32) << 16u32) | ((b3 as u32) << 24u32))
        == v) by (bit_vector)
        requires
            b0 == v as u8,
            b1 == (v >> 8u32) as u8,
            b2 == (v >> 16u32) as u8,
            b3 == (v >> 24u32) as u8,
    ;
}

/// Reading back the little-endian encoding of a 64-bit value gives the value.
pub proof fn lemma_u64_round_trip(v: u64)
    ensures
        u64_at(le64(v), 0) == v,
{
    let lo = v as u32;
    let hi = (v >> 32u64) as u32;
    lemma_u32_round_trip(lo);
    lemma_u32_round_trip(hi);
    let b = le64(v);
    assert(b.subrange(0, 4) =~= le32(lo));
    assert(b.subrange(4, 8) =~= le32(hi));
    assert(u32_at(b, 0) == u32_at(le32(lo), 0));
    assert(u32_at(b, 4) == u32_at(le32(hi), 0));
    assert(((lo as u64) | ((hi as u64) << 32u64)) == v) by (bit_vector)
        requires
            lo == v as u32,
            hi == (v >> 32u64) as u32,
    ;
}

/// Reads the 32-bit little-endian value at `b[i..i + 4]`.
pub fn read_u32_le(b: &[u8], i: usize) -> (r: u32)
    requires
        i + 4 <= b@.len(),
    ensures
        r == u32_at(b@, i as int),
{
    let n: usize = b.len();
    assert(i + 4 <= n);
    (b[i] as u32) | ((b[i + 1] as u32) << 8u32) | ((b[i + 2] as u32) << 16u32) | ((b[i
        + 3] as u32) << 24u32)
}

/// Reads the 64-bit little-endian value at `b[i..i + 8]`.
pub fn read_u64_le(b: &[u8], i: usize) -> (r: u64)
    requires
        i + 8 <= b@.len(),
    ensures
        r == u64_at(b@, i as int),
{
    let n: usize = b.len();
    assert(i + 8 <= n);
    let lo = read_u32_le(b, i);
    let hi = read_u32_le(b, i + 4);
    (lo as u64) | ((hi as u64) << 32u64)
}

/// Appends the little-endian encoding of `v`.
pub fn push_u32_le(out: &mut Vec<u8>, v: u32)
    ensures
        final(out)@ == old(out)@ + le32(v),
{
    out.push(v as u8);
    out.push((v >> 8u32) as u8);
    out.push((v >> 16u32) as u8);
    out.push((v >> 24u32) as u8);
    assert(out@ =~= old(out)@ + le32(v));
}

/// Where the parts of a pack lie, as its header declares them.
#[derive(Debug, Clone, Copy, PartialEq, Eq, Structural)]
pub struct PackHeader {
    pub version: u32,
    /// Length of the manifest text, which starts right after the preamble.
    pub manifest_len: u32,
    /// Absolute offset of the index; the data region ends there.
    pub index_offset: u64,
    pub index_len: u32,
}

impl PackHeader {
    /// Offset of the first payload byte: the end of the header.
    pub open spec fn data_start(self) -> int {
        FIXED_HEADER_LEN + self.manifest_len
    }

    /// The manifest text of the pack `b` whose header this is.
    pub fn manifest_text(&self, b: &[u8]) -> (r: Vec<u8>)
        requires
            header_of(b@) == Ok::<PackHeader, PackError>(*self),
        ensures
            r@ == b@.subrange(PREAMBLE_LEN as int, PREAMBLE_LEN + self.manifest_len),
    {
        let len: usize = b.len();
        assert(PREAMBLE_LEN + self.manifest_len <= len);
        let end: usize = PREAMBLE_LEN + self.manifest_len as usize;
        vstd::slice::slice_to_vec(vstd::slice::slice_subrange(b, PREAMBLE_LEN, end))
    }

    /// The index text of the pack `b` whose header this is.
    pub fn index_text(&self, b: &[u8]) -> (r: Vec<u8>)
        requires
            header_of(b@) == Ok::<PackHeader, PackError>(*self),
        ensures
            r@ == b@.subrange(self.index_offset as int, self.index_offset + self.index_len),
    {
        let len: usize = b.len();
        assert(self.index_offset + self.index_len <= len);
        let start: usize = self.index_offset as usize;
        let end: usize = start + self.index_len as usize;
        vstd::slice::slice_to_vec(vstd::slice::slice_subrange(b, start, end))
    }

    /// Offset of the first payload byte: the end of the header.
    pub fn data_region_start(&self) -> (r: u64)
        ensures
            r == self.data_start(),
    {
        FIXED_HEADER_LEN as u64 + self.manifest_len as u64
    }
}

/// What the header of the pack `b` declares, or why it is rejected.
pub open spec fn header_of(b: Seq<u8>) -> Result<PackHeader, PackError> {
    if b.len() < 5 {
        Err(PackError::TruncatedInput)
    } else if b.subrange(0, 5) != magic() {
        Err(PackError::InvalidFormat)
    } else if b.len() < PREAMBLE_LEN {
        Err(PackError::TruncatedInput)
    } else if u32_at(b, 5) != FORMAT_VERSION {
        Err(PackError::InvalidFormat)
    } else {
        let n = u32_at(b, 9);
        if b.len() < FIXED_HEADER_LEN + n {
            Err(PackError::TruncatedInput)
        } else {
            let offset = u64_at(b, PREAMBLE_LEN + n);
            let len = u32_at(b, PREAMBLE_LEN + n + 8);
            if offset + len > b.len() {
                Err(PackError::TruncatedInput)
            } else if offset < FIXED_HEADER_LEN + n {
                Err(PackError::InvalidFormat)
            } else {
                Ok(PackHeader { version: FORMAT_VERSION, manifest_len: n, index_offset: offset, index_len: len })
            }
        }
    }
}

/// Validates the header of the pack `b` and reads where its parts lie.
pub fn parse_header(b: &[u8]) -> (r: Result<PackHeader, PackError>)
    ensures
        r == header_of(b@),
{
    let len: usize = b.len();
    if len < 5 {
        return Err(PackError::TruncatedInput);
    }
    let is_magic = b[0] == 0x4cu8 && b[1] == 0x50u8 && b[2] == 0x41u8 && b[3] == 0x43u8 && b[4]
        == 0x4bu8;
    if !is_magic {
        assert(b@.subrange(0, 5)[0] == b@[0]);
        assert(b@.subrange(0, 5)[1] == b@[1]);
        assert(b@.subrange(0, 5)[2] == b@[2]);
        assert(b@.subrange(0, 5)[3] == b@[3]);
        assert(b@.subrange(0, 5)[4] == b@[4]);
        return Err(PackError::InvalidFormat);
    }
    assert(b@.subrange(0, 5) =~= magic());
    if len < PREAMBLE_LEN {
        return Err(PackError::TruncatedInput);
    }
    let version = read_u32_le(b, 5);
    if version != FORMAT_VERSION {
        return Err(PackError::InvalidFormat);
    }
    let n = read_u32_le(b, 9);
    if len < FIXED_HEADER_LEN || len - FIXED_HEADER_LEN < n as usize {
        return Err(PackError::TruncatedInput);
    }
    let at: usize = PREAMBLE_LEN + n as usize;
    let index_offset = read_u64_le(b, at);
    let index_len = read_u32_le(b, at + 8);
    let data_start: u64 = FIXED_HEADER_LEN as u64 + n as u64;
    if index_offset > len as u64 || index_len as u64 > len as u64 - index_offset {
        return Err(PackError::TruncatedInput);
    }
    if index_offset < data_start {
        return Err(PackError::InvalidFormat);
    }
    Ok(PackHeader { version, manifest_len: n, index_offset, index_len })
}

/// Appends the little-endian encoding of `v`.
pub fn push_u64_le(out: &mut Vec<u8>, v: u64)
    ensures
        final(out)@ == old(out)@ + le64(v),
{
    push_u32_le(out, v as u32);
    push_u32_le(out, (v >> 32u64) as u32);
    assert(out@ =~= old(out)@ + le64(v));
}

/// Appends the bytes of `b`.
pub fn push_bytes(out: &mut Vec<u8>, b: &[u8])
    ensures
        final(out)@ == old(out)@ + b@,
{
    let ghost start = out@;
    let n: usize = b.len();
    let mut i: usize = 0;
    while i < n
        invariant
            n == b@.len(),
            i <= n,
            out@ == start + b@.subrange(0, i as int),
        decreases n - i,
    {
        out.push(b[i]);
        i = i + 1;
        assert(out@ =~= start + b@.subrange(0, i as int));
    }
    assert(b@.subrange(0, n as int) =~= b@);
}

/// The bytes of a pack whose header frames `manifest`, whose data region is
/// `data` and whose index is `index`.
#[verifier::opaque]
pub open spec fn pack_bytes(manifest: Seq<u8>, data: Seq<u8>, index: Seq<u8>) -> Seq<u8> {
    magic() + le32(FORMAT_VERSION) + le32(manifest.len() as u32) + manifest + le64(
        (FIXED_HEADER_LEN + manifest.len() + data.len()) as u64,
    ) + le32(index.len() as u32) + data + index
}

/// Writes a whole pack: header, manifest text, data region, then index, with
/// the index pointer set to where the index landed.
pub fn assemble_pack(manifest: &[u8], data: &[u8], index: &[u8]) -> (r: Vec<u8>)
    requires
        manifest@.len() <= u32::MAX,
        index@.len() <= u32::MAX,
        FIXED_HEADER_LEN + manifest@.len() + data@.len() + index@.len() <= usize::MAX,
    ensures
        r@ == pack_bytes(manifest@, data@, index@),
{
    let mut out: Vec<u8> = Vec::new();
    out.push(0x4cu8);
    out.push(0x50u8);
    out.push(0x41u8);
    out.push(0x43u8);
    out.push(0x4bu8);
    assert(out@ =~= magic());
    push_u32_le(&mut out, FORMAT_VERSION);
    push_u32_le(&mut out, manifest.len() as u32);
    push_bytes(&mut out, manifest);
    let index_offset: u64 = (FIXED_HEADER_LEN + manifest.len() + data.len()) as u64;
    push_u64_le(&mut out, index_offset);
    push_u32_le(&mut out, index.len() as u32);
    push_bytes(&mut out, data);
    push_bytes(&mut out, index);
    proof {
        reveal(pack_bytes);
    }
    out
}

proof fn lemma_u32_at_window(b: Seq<u8>, i: int, w: Seq<u8>)
    requires
        0 <= i,
        i + 4 <= b.len(),
        b.subrange(i, i + 4) == w,
    ensures
        u32_at(b, i) == u32_at(w, 0),
{
    assert(b[i] == w[0] && b[i + 1] == w[1] && b[i + 2] == w[2] && b[i + 3] == w[3]);
}

proof fn lemma_u64_at_window(b: Seq<u8>, i: int, w: Seq<u8>)
    requires
        0 <= i,
        i + 8 <= b.len(),
        b.subrange(i, i + 8) == w,
    ensures
        u64_at(b, i) == u64_at(w, 0),
{
    assert(b.subrange(i, i + 4) =~= w.subrange(0, 4));
    assert(b.subrange(i + 4, i + 8) =~= w.subrange(4, 8));
    lemma_u32_at_window(b, i, w.subrange(0, 4));
    lemma_u32_at_window(w, 0, w.subrange(0, 4));
    lemma_u32_at_window(b, i + 4, w.subrange(4, 8));
    lemma_u32_at_window(w, 4, w.subrange(4, 8));
}

/// A pack written by `assemble_pack` passes header validation, and its header
/// points back at exactly the manifest, data region and index it was given.
#[verifier::rlimit(50)]
pub proof fn lemma_assembled_header(manifest: Seq<u8>, data: Seq<u8>, index: Seq<u8>)
    requires
        manifest.len() <= u32::MAX,
        index.len() <= u32::MAX,
        FIXED_HEADER_LEN + manifest.len() + data.len() + index.len() <= u64::MAX,
    ensures
        ({
            let b = pack_bytes(manifest, data, index);
            let h = PackHeader {
                version: FORMAT_VERSION,
                manifest_len: manifest.len() as u32,
                index_offset: (FIXED_HEADER_LEN + manifest.len() + data.len()) as u64,
                index_len: index.len() as u32,
            };
            &&& header_of(b) == Ok::<PackHeader, PackError>(h)
            &&& b.subrange(PREAMBLE_LEN as int, PREAMBLE_LEN + manifest.len()) == manifest
            &&& b.subrange(h.data_start(), h.index_offset as int) == data
            &&& b.subrange(h.index_offset as int, h.index_offset + h.index_len) == index
        }),
{
    reveal(pack_bytes);
    let b = pack_bytes(manifest, data, index);
    let m = manifest.len() as int;
    let d = data.len() as int;
    let off = (FIXED_HEADER_LEN + m + d) as u64;
    lemma_u32_round_trip(FORMAT_VERSION);
    lemma_u32_round_trip(m as u32);
    lemma_u64_round_trip(off);
    lemma_u32_round_trip(index.len() as u32);
    assert(b.subrange(0, 5) =~= magic());
    assert(b.subrange(5, 9) =~= le32(FORMAT_VERSION));
    lemma_u32_at_window(b, 5, le32(FORMAT_VERSION));
    assert(b.subrange(9, 13) =~= le32(m as u32));
    lemma_u32_at_window(b, 9, le32(m as u32));
    assert(b.subrange(13 + m, 21 + m) =~= le64(off));
    lemma_u64_at_window(b, 13 + m, le64(off));
    assert(b.subrange(21 + m, 25 + m) =~= le32(index.len() as u32));
    lemma_u32_at_window(b, 21 + m, le32(index.len() as u32));
    assert(b.subrange(13, 13 + m) =~= manifest);
    assert(b.subrange(25 + m, 25 + m + d) =~= data);
    assert(b.subrange(25 + m + d, 25 + m + d + index.len()) =~= index);
}

} // verus!
