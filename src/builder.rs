//! Build-time side of a pack: which files go in, how each is encoded, and
//! how the encoded payloads are laid out back to back in the data region.

use vstd::prelude::*;
use vstd::string::StrSliceExecFns;
use vstd::string::StringExecFns;
use crate::codec::{compress, compressed, content_hash, derive_key, fresh_nonce, hex_lower, seal,
    sealed_payload, sha256_of, AEAD_MAX_PLAINTEXT, KEY_LEN, NONCE_LEN, SEAL_OVERHEAD};
use crate::format::push_bytes;
use crate::format::{CompressionType, EncryptionType, FileEntry, PackError, PackManifest, PackType};

verus! {

/// Index of the last `c` in `s`, or -1 if there is none.
pub open spec fn last_index_of(s: Seq<char>, c: char) -> int
    decreases s.len(),
{
    if s.len() == 0 {
        -1
    } else if s.last() == c {
        s.len() - 1
    } else {
        last_index_of(s.drop_last(), c)
    }
}

proof fn lemma_last_index_bounds(s: Seq<char>, c: char)
    ensures
        -1 <= last_index_of(s, c) < s.len(),
        last_index_of(s, c) >= 0 ==> s[last_index_of(s, c)] == c,
    decreases s.len(),
{
    if s.len() > 0 && s.last() != c {
        lemma_last_index_bounds(s.drop_last(), c);
    }
}

/// Last component of a forward-slash separated path.
pub open spec fn file_name(p: Seq<char>) -> Seq<char> {
    p.subrange(last_index_of(p, '/') + 1, p.len() as int)
}

/// Extension of a path: what follows the last `.` of its file name, where
/// that dot is not the name's first character (and the name is not `..`).
pub open spec fn extension_of(p: Seq<char>) -> Option<Seq<char>> {
    let n = file_name(p);
    let i = last_index_of(n, '.');
    if i > 0 && n != seq!['.', '.'] {
        Some(n.subrange(i + 1, n.len() as int))
    } else {
        None
    }
}

/// Whether the path's extension is exactly `e`.
pub open spec fn has_extension(p: Seq<char>, e: Seq<char>) -> bool {
    extension_of(p) == Some(e)
}

/// The compression worth attempting for a file of pack type `t` at path `p`.
pub open spec fn attempted_codec(t: PackType, p: Seq<char>) -> Option<CompressionType> {
    match t {
        PackType::Text => Some(CompressionType::Zstd),
        PackType::Script => if has_extension(p, "lua"@) || has_extension(p, "js"@) || has_extension(p, "py"@) {
            Some(CompressionType::Lz4)
        } else {
            None
        },
        _ => if has_extension(p, "txt"@) || has_extension(p, "json"@) || has_extension(p, "xml"@)
            || has_extension(p, "yaml"@) || has_extension(p, "csv"@) {
            Some(CompressionType::Zstd)
        } else {
            None
        },
    }
}

/// The compression a file of pack type `t` at path `p` with bytes `content`
/// is stored with: the attempted codec when its output is strictly smaller,
/// `Store` otherwise.
pub open spec fn chosen_codec(t: PackType, p: Seq<char>, content: Seq<u8>) -> CompressionType {
    match attempted_codec(t, p) {
        Some(k) => if compressed(content, k).len() < content.len() {
            k
        } else {
            CompressionType::Store
        },
        None => CompressionType::Store,
    }
}

/// Whether a file at relative path `p` goes into a pack: hidden files (a
/// name, or the path, starting with `.`) and the manifest file `pack.json`
/// stay out.
pub open spec fn packable(p: Seq<char>) -> bool {
    &&& !(p.len() > 0 && p[0] == '.')
    &&& !(file_name(p).len() > 0 && file_name(p)[0] == '.')
    &&& p != "pack.json"@
}

/// Position of the last `c` in `s`.
fn find_last(s: &str, c: char) -> (r: Option<usize>)
    ensures
        r matches Some(i) ==> i == last_index_of(s@, c),
        r is None ==> last_index_of(s@, c) == -1,
{
    let n = s.unicode_len();
    let mut i: usize = n;
    assert(s@.subrange(0, n as int) =~= s@);
    while i > 0
        invariant
            i <= n,
            n == s@.len(),
            last_index_of(s@, c) == last_index_of(s@.subrange(0, i as int), c),
        decreases i,
    {
        assert(s@.subrange(0, i as int).drop_last() =~= s@.subrange(0, i - 1));
        if s.get_char(i - 1) == c {
            return Some(i - 1);
        }
        i = i - 1;
    }
    None
}

/// The extension of a virtual path, as `extension_of` defines it.
pub fn file_extension(path: &str) -> (r: Option<String>)
    ensures
        r matches Some(e) ==> extension_of(path@) == Some(e@),
        r is None ==> extension_of(path@) is None,
{
    let n = path.unicode_len();
    proof {
        lemma_last_index_bounds(path@, '/');
    }
    let start: usize = match find_last(path, '/') {
        Some(i) => i + 1,
        None => 0,
    };
    let name = path.substring_char(start, n);
    assert(name@ == file_name(path@));
    let len = name.unicode_len();
    if len == 2 && name.get_char(0) == '.' && name.get_char(1) == '.' {
        assert(name@ =~= seq!['.', '.']);
        return None;
    }
    proof {
        lemma_last_index_bounds(name@, '.');
    }
    match find_last(name, '.') {
        Some(i) => if i > 0 {
            Some(String::from_str(name.substring_char(i + 1, len)))
        } else {
            None
        },
        None => None,
    }
}

fn extension_is(ext: &Option<String>, lit: &str) -> (r: bool)
    ensures
        r == (ext matches Some(e) && e@ == lit@),
{
    match ext {
        Some(e) => {
            let l = String::from_str(lit);
            *e == l
        },
        None => false,
    }
}

/// The compression worth attempting for a file of pack type `t` at `path`.
pub fn codec_for(t: PackType, path: &str) -> (r: Option<CompressionType>)
    ensures
        r == attempted_codec(t, path@),
{
    let ext = file_extension(path);
    match t {
        PackType::Text => Some(CompressionType::Zstd),
        PackType::Script => if extension_is(&ext, "lua") || extension_is(&ext, "js") || extension_is(&ext, "py") {
            Some(CompressionType::Lz4)
        } else {
            None
        },
        _ => if extension_is(&ext, "txt") || extension_is(&ext, "json") || extension_is(&ext, "xml")
            || extension_is(&ext, "yaml") || extension_is(&ext, "csv") {
            Some(CompressionType::Zstd)
        } else {
            None
        },
    }
}

/// Whether a file at relative path `path` goes into a pack.
pub fn is_packable(path: &str) -> (r: bool)
    ensures
        r == packable(path@),
{
    let n = path.unicode_len();
    if n > 0 && path.get_char(0) == '.' {
        return false;
    }
    proof {
        lemma_last_index_bounds(path@, '/');
    }
    let start: usize = match find_last(path, '/') {
        Some(i) => i + 1,
        None => 0,
    };
    let name = path.substring_char(start, n);
    if start < n && name.get_char(0) == '.' {
        return false;
    }
    let manifest_name = String::from_str("pack.json");
    let owned = String::from_str(path);
    !(owned == manifest_name)
}

/// Keeps the compressed `candidate` only when it is strictly smaller than
/// `data`; otherwise the data is stored as is.
pub fn keep_smaller(data: &[u8], candidate: Vec<u8>, kind: CompressionType) -> (r: (
    Vec<u8>,
    CompressionType,
))
    ensures
        candidate@.len() < data@.len() ==> r.0@ == candidate@ && r.1 == kind,
        candidate@.len() >= data@.len() ==> r.0@ == data@ && r.1 == CompressionType::Store,
{
    if candidate.len() < data.len() {
        (candidate, kind)
    } else {
        (vstd::slice::slice_to_vec(data), CompressionType::Store)
    }
}

/// One file handed to the builder: its virtual path and its bytes.
pub struct SourceFile {
    pub path: String,
    pub content: Vec<u8>,
}

/// The data region of a pack and the index entries that describe it.
pub struct PackedData {
    pub data: Vec<u8>,
    pub entries: Vec<FileEntry>,
}

/// Whether `payload` is what the builder stores for `content` under the
/// entry's codec tags: compressed, then sealed when encrypted.
pub open spec fn stores(
    payload: Seq<u8>,
    content: Seq<u8>,
    compression: CompressionType,
    encryption: EncryptionType,
    key: Option<Seq<u8>>,
) -> bool {
    match encryption {
        EncryptionType::Plain => payload == compressed(content, compression),
        EncryptionType::Aes256Gcm => key is Some && exists|nonce: Seq<u8>|
            nonce.len() == NONCE_LEN && payload == #[trigger] sealed_payload(
                key->Some_0,
                nonce,
                compressed(content, compression),
            ),
    }
}

/// Whether `e` is the index record of `content` stored at path `path` as
/// `payload` by a builder for packs of type `pack_type`.
pub open spec fn describes(
    e: FileEntry,
    path: Seq<char>,
    content: Seq<u8>,
    payload: Seq<u8>,
    pack_type: PackType,
    key: Option<Seq<u8>>,
) -> bool {
    &&& e.path@ == path
    &&& e.compression == chosen_codec(pack_type, path, content)
    &&& e.original_size == content.len()
    &&& e.compressed_size == payload.len()
    &&& e.hash@ == hex_lower(sha256_of(content))
    &&& (e.encryption == EncryptionType::Aes256Gcm <==> key is Some)
    &&& stores(payload, content, e.compression, e.encryption, key)
}

/// The stored payload of `e` within a data region that starts at absolute
/// offset `data_start`.
pub open spec fn payload_in(data: Seq<u8>, e: FileEntry, data_start: int) -> Seq<u8> {
    data.subrange(e.offset - data_start, e.offset - data_start + e.compressed_size)
}

/// Whether `entries` tile a data region of `len` bytes at `data_start`, in
/// order and back to back.
pub open spec fn laid_out(entries: Seq<FileEntry>, len: int, data_start: int) -> bool {
    &&& entries.len() == 0 ==> len == 0
    &&& entries.len() > 0 ==> entries[0].offset == data_start && entries.last().offset
        + entries.last().compressed_size == data_start + len
    &&& forall|i: int|
        0 <= i < entries.len() ==> data_start <= (#[trigger] entries[i]).offset && entries[i].offset
            + entries[i].compressed_size <= data_start + len
    &&& forall|i: int|
        0 <= i < entries.len() - 1 ==> (#[trigger] entries[i + 1]).offset == entries[i].offset
            + entries[i].compressed_size
}

/// Upper bound on the data region for `files`: each payload is at most its
/// content plus what sealing adds.
pub open spec fn stored_bound(files: Seq<SourceFile>) -> int
    decreases files.len(),
{
    if files.len() == 0 {
        0
    } else {
        stored_bound(files.drop_last()) + files.last().content@.len() + SEAL_OVERHEAD
    }
}

proof fn lemma_stored_bound_prefix(files: Seq<SourceFile>, i: int)
    requires
        0 <= i <= files.len(),
    ensures
        0 <= stored_bound(files.subrange(0, i)) <= stored_bound(files),
    decreases files.len(),
{
    if i < files.len() {
        assert(files.drop_last().subrange(0, i) =~= files.subrange(0, i));
        lemma_stored_bound_prefix(files.drop_last(), i);
    } else {
        assert(files.subrange(0, i) =~= files);
    }
    lemma_stored_bound_nonneg(files);
}

proof fn lemma_stored_bound_nonneg(files: Seq<SourceFile>)
    ensures
        stored_bound(files) >= 0,
    decreases files.len(),
{
    if files.len() > 0 {
        lemma_stored_bound_nonneg(files.drop_last());
    }
}

/// Writes packs for one manifest, optionally encrypting every payload.
pub struct PackBuilder {
    manifest: PackManifest,
    key: Option<Vec<u8>>,
}

impl PackBuilder {
    #[verifier::type_invariant]
    spec fn key_is_aes256(&self) -> bool {
        self.key matches Some(k) ==> k@.len() == KEY_LEN
    }

    /// The manifest this builder writes.
    pub closed spec fn spec_manifest(&self) -> PackManifest {
        self.manifest
    }

    /// The AES-256 key payloads are sealed with, if any.
    pub closed spec fn spec_key(&self) -> Option<Seq<u8>> {
        match self.key {
            Some(k) => Some(k@),
            None => None,
        }
    }

    /// A builder for `manifest` that stores payloads unencrypted.
    pub fn new(manifest: PackManifest) -> (r: Self)
        ensures
            r.spec_manifest() == manifest,
            r.spec_key() is None,
    {
        PackBuilder { manifest, key: None }
    }

    /// The manifest this builder writes.
    pub fn manifest(&self) -> (r: &PackManifest)
        ensures
            *r == self.spec_manifest(),
    {
        &self.manifest
    }

    /// Encrypts every payload from now on, under the key derived from `secret`.
    pub fn set_secret(&mut self, secret: &[u8])
        ensures
            final(self).spec_manifest() == old(self).spec_manifest(),
            final(self).spec_key() == Some(sha256_of(secret@)),
    {
        self.key = Some(derive_key(secret));
    }

    /// Picks the stored form of a file: the attempted codec's output when it
    /// is strictly smaller than the data, the data itself otherwise.
    pub fn compress_data(&self, data: &[u8], path: &str) -> (r: (Vec<u8>, CompressionType))
        ensures
            r.1 == chosen_codec(self.spec_manifest().pack_type, path@, data@),
            r.0@ == compressed(data@, r.1),
    {
        match codec_for(self.manifest.pack_type, path) {
            Some(kind) => keep_smaller(data, compress(data, kind), kind),
            None => (vstd::slice::slice_to_vec(data), CompressionType::Store),
        }
    }

    /// Encodes one file stored at `offset`: hash of the original bytes,
    /// compression, then sealing under a fresh nonce when a key is set. Only
    /// a keyed builder can fail: `IoFailure` when the operating system gives
    /// no nonce, `BuildSourceError` when the compressed file is larger than
    /// AES-GCM accepts.
    pub fn encode_file(&self, path: &str, content: &[u8], offset: u64) -> (r: Result<
        (FileEntry, Vec<u8>),
        PackError,
    >)
        ensures
            r matches Ok(v) ==> describes(
                v.0,
                path@,
                content@,
                v.1@,
                self.spec_manifest().pack_type,
                self.spec_key(),
            ) && v.0.offset == offset,
            r matches Ok(v) ==> v.1@.len() <= content@.len() + SEAL_OVERHEAD,
            self.spec_key() is None ==> r is Ok,
            r matches Err(e) ==> self.spec_key() is Some && (e == PackError::IoFailure || (e
                == PackError::BuildSourceError && content@.len() > AEAD_MAX_PLAINTEXT)),
    {
        proof {
            use_type_invariant(self);
        }
        let hash = content_hash(content);
        let (stored, compression) = self.compress_data(content, path);
        let (payload, encryption) = match &self.key {
            Some(key) => {
                let nonce = match fresh_nonce() {
                    Some(n) => n,
                    None => return Err(PackError::IoFailure),
                };
                let sealed = seal(key.as_slice(), nonce.as_slice(), stored.as_slice())?;
                proof {
                    // the nonce just drawn witnesses that the payload stores the content
                    let k = self.spec_key()->Some_0;
                    assert(k == key@);
                    assert(sealed@ == sealed_payload(k, nonce@, compressed(content@, compression)));
                }
                (sealed, EncryptionType::Aes256Gcm)
            },
            None => (stored, EncryptionType::Plain),
        };
        let entry = FileEntry {
            path: String::from_str(path),
            offset,
            original_size: content.len() as u64,
            compressed_size: payload.len() as u64,
            compression,
            encryption,
            hash,
        };
        Ok((entry, payload))
    }

    /// Encodes `files` in order into one data region that starts at absolute
    /// offset `data_start`, each payload right after the previous one.
    pub fn pack_files(&self, files: &Vec<SourceFile>, data_start: u64) -> (r: Result<PackedData, PackError>)
        ensures
            r matches Ok(out) ==> {
                &&& out.entries@.len() == files@.len()
                &&& laid_out(out.entries@, out.data@.len() as int, data_start as int)
                &&& forall|i: int|
                    0 <= i < files@.len() ==> describes(
                        #[trigger] out.entries@[i],
                        files@[i].path@,
                        files@[i].content@,
                        payload_in(out.data@, out.entries@[i], data_start as int),
                        self.spec_manifest().pack_type,
                        self.spec_key(),
                    )
            },
            r matches Err(e) ==> e == PackError::BuildSourceError || (e == PackError::IoFailure
                && self.spec_key() is Some),
            (forall|i: int| 0 <= i < files@.len() ==> (#[trigger] files@[i]).content@.len() <= AEAD_MAX_PLAINTEXT)
                && data_start + stored_bound(files@) <= u64::MAX ==> !(r matches Err(
                PackError::BuildSourceError,
            )),
            data_start + stored_bound(files@) <= u64::MAX && self.spec_key() is None ==> r is Ok,
    {
        let ghost fits = (forall|i: int| 0 <= i < files@.len() ==> (#[trigger] files@[i]).content@.len() <= AEAD_MAX_PLAINTEXT)
            && data_start + stored_bound(files@) <= u64::MAX;
        let mut data: Vec<u8> = Vec::new();
        let mut entries: Vec<FileEntry> = Vec::new();
        let n: usize = files.len();
        let mut i: usize = 0;
        while i < n
            invariant
                n == files@.len(),
                i <= n,
                entries@.len() == i,
                data@.len() <= stored_bound(files@.subrange(0, i as int)),
                fits == ((forall|i: int| 0 <= i < files@.len() ==> (#[trigger] files@[i]).content@.len() <= AEAD_MAX_PLAINTEXT)
                    && data_start + stored_bound(files@) <= u64::MAX),
                laid_out(entries@, data@.len() as int, data_start as int),
                forall|j: int|
                    0 <= j < i ==> describes(
                        #[trigger] entries@[j],
                        files@[j].path@,
                        files@[j].content@,
                        payload_in(data@, entries@[j], data_start as int),
                        self.spec_manifest().pack_type,
                        self.spec_key(),
                    ),
            decreases n - i,
        {
            proof {
                lemma_stored_bound_prefix(files@, i + 1);
                assert(files@.subrange(0, i + 1).drop_last() =~= files@.subrange(0, i as int));
            }
            let used: u64 = data.len() as u64;
            if used > u64::MAX - data_start {
                return Err(PackError::BuildSourceError);
            }
            let file = &files[i];
            let (entry, payload) = self.encode_file(file.path.as_str(), file.content.as_slice(), data_start + used)?;
            if payload.len() as u64 > u64::MAX - (data_start + used) {
                return Err(PackError::BuildSourceError);
            }
            let ghost old_data = data@;
            let ghost old_entries = entries@;
            push_bytes(&mut data, payload.as_slice());
            entries.push(entry);
            proof {
                assert forall|j: int| 0 <= j < i implies payload_in(data@, #[trigger] entries@[j], data_start as int)
                    == payload_in(old_data, old_entries[j], data_start as int) by {
                    assert(entries@[j] == old_entries[j]);
                    let e = old_entries[j];
                    assert(data@.subrange(e.offset - data_start, e.offset - data_start + e.compressed_size)
                        =~= old_data.subrange(e.offset - data_start, e.offset - data_start + e.compressed_size));
                }
                assert(payload_in(data@, entries@[i as int], data_start as int) =~= payload@);
            }
            i = i + 1;
        }
        Ok(PackedData { data, entries })
    }
}

} // verus!
