//! Read side of packs and their layering: a loaded pack serves the files it
//! indexes, and a resolver overlays loaded packs by priority.

use vstd::prelude::*;
use vstd::slice::slice_subrange;
use vstd::string::StringExecFns;
use crate::codec::{compressed, decompress, decompressed, derive_key, open, opened_payload, res_bytes,
    round_trips, sha256_of, AEAD_MAX_PLAINTEXT, KEY_LEN};
use crate::builder::{describes, laid_out, payload_in, stores, SourceFile};
use crate::format::{header_of, PackType, pack_bytes, parse_header, lemma_assembled_header, PackHeader, FIXED_HEADER_LEN, EncryptionType, FileEntry, PackError, PackManifest};

verus! {

/// Index of the last entry of `es` whose path is `p`, or -1.
pub open spec fn last_with_path(es: Seq<FileEntry>, p: Seq<char>) -> int
    decreases es.len(),
{
    if es.len() == 0 {
        -1
    } else if es.last().path@ == p {
        es.len() - 1
    } else {
        last_with_path(es.drop_last(), p)
    }
}

/// The entry that serves path `p`: of several with that path, the last.
pub open spec fn entry_for(es: Seq<FileEntry>, p: Seq<char>) -> Option<FileEntry> {
    let i = last_with_path(es, p);
    if i >= 0 {
        Some(es[i])
    } else {
        None
    }
}

/// The entry found for a path has that path, and no later entry does.
pub proof fn lemma_last_with_path(es: Seq<FileEntry>, p: Seq<char>)
    ensures
        -1 <= last_with_path(es, p) < es.len(),
        last_with_path(es, p) >= 0 ==> es[last_with_path(es, p)].path@ == p,
        forall|j: int| last_with_path(es, p) < j < es.len() ==> es[j].path@ != p,
    decreases es.len(),
{
    if es.len() > 0 && es.last().path@ != p {
        lemma_last_with_path(es.drop_last(), p);
        assert forall|j: int| last_with_path(es, p) < j < es.len() implies es[j].path@ != p by {
            if j < es.len() - 1 {
                assert(es[j] == es.drop_last()[j]);
            }
        }
    }
}

/// Whether every entry's payload lies in the data region `[start, end)`.
pub open spec fn entries_within(es: Seq<FileEntry>, start: int, end: int) -> bool {
    forall|i: int|
        0 <= i < es.len() ==> start <= (#[trigger] es[i]).offset && es[i].offset
            + es[i].compressed_size <= end
}

/// The stored payload of `e` within the pack bytes `data`.
pub open spec fn payload_of(data: Seq<u8>, e: FileEntry) -> Seq<u8> {
    data.subrange(e.offset as int, e.offset + e.compressed_size)
}

/// Whether `data` has a valid header and every entry's payload lies in its
/// data region, between the end of the header and the index.
pub open spec fn well_formed(data: Seq<u8>, es: Seq<FileEntry>) -> bool {
    header_of(data) matches Ok(h) && entries_within(es, h.data_start(), h.index_offset as int)
}

/// What reading path `p` yields: the entry's payload, opened under `key`
/// when encrypted, then decompressed.
pub open spec fn read_result(
    data: Seq<u8>,
    es: Seq<FileEntry>,
    key: Option<Seq<u8>>,
    p: Seq<char>,
) -> Result<Seq<u8>, PackError> {
    match entry_for(es, p) {
        None => Err(PackError::PathNotFound),
        Some(e) => {
            let opened = match e.encryption {
                EncryptionType::Plain => Ok(payload_of(data, e)),
                EncryptionType::Aes256Gcm => match key {
                    Some(k) => opened_payload(k, payload_of(data, e)),
                    None => Err(PackError::DecryptionFailure),
                },
            };
            match opened {
                Ok(c) => decompressed(c, e.compression),
                Err(x) => Err(x),
            }
        },
    }
}

/// Whether `content` is what the builder stored as the payload of `e` in
/// `data`, in a form that reads back: LZ4 content fits its size prefix, and
/// sealed content is no larger than AES-GCM accepts.
pub open spec fn stored_readably(data: Seq<u8>, e: FileEntry, key: Option<Seq<u8>>, content: Seq<u8>) -> bool {
    &&& stores(payload_of(data, e), content, e.compression, e.encryption, key)
    &&& round_trips(content, e.compression)
    &&& (e.encryption == EncryptionType::Aes256Gcm ==> compressed(content, e.compression).len()
        <= AEAD_MAX_PLAINTEXT)
}

/// A pack assembled around a data region that the builder laid out loads
/// with the same entries, and the reader finds each entry's payload exactly
/// where the builder put it.
#[verifier::rlimit(50)]
pub proof fn lemma_built_payloads_read_back(
    manifest: Seq<u8>,
    data: Seq<u8>,
    index: Seq<u8>,
    entries: Seq<FileEntry>,
)
    requires
        manifest.len() <= u32::MAX,
        index.len() <= u32::MAX,
        FIXED_HEADER_LEN + manifest.len() + data.len() + index.len() <= u64::MAX,
        laid_out(entries, data.len() as int, FIXED_HEADER_LEN + manifest.len()),
    ensures
        header_of(pack_bytes(manifest, data, index)) matches Ok(h) && entries_within(
            entries,
            h.data_start(),
            h.index_offset as int,
        ),
        forall|i: int|
            0 <= i < entries.len() ==> payload_of(pack_bytes(manifest, data, index), #[trigger] entries[i])
                == payload_in(data, entries[i], FIXED_HEADER_LEN + manifest.len()),
{
    let b = pack_bytes(manifest, data, index);
    let ds = FIXED_HEADER_LEN + manifest.len();
    lemma_assembled_header(manifest, data, index);
    let h = header_of(b)->Ok_0;
    assert(h.data_start() == ds);
    assert(b.subrange(ds, ds + data.len()) == data);
    assert(b.len() >= ds + data.len());
    assert forall|i: int| 0 <= i < entries.len() implies payload_of(b, #[trigger] entries[i])
        == payload_in(data, entries[i], ds) by {
        let e = entries[i];
        lemma_window(b, ds, data, e.offset as int, e.offset + e.compressed_size);
    }
}

/// Build, load, read: the pack that `assemble_pack` writes around the data
/// region and entries of `PackBuilder::pack_files` is well formed, each
/// file's path finds that file's entry, and the entry's payload holds the
/// file in a form that `read_file` returns unchanged, whichever codec and
/// encryption were used (for files whose length fits LZ4's 4-byte prefix).
pub proof fn lemma_build_load_read_identity(
    manifest: Seq<u8>,
    index: Seq<u8>,
    files: Seq<SourceFile>,
    data: Seq<u8>,
    entries: Seq<FileEntry>,
    pack_type: PackType,
    key: Option<Seq<u8>>,
)
    requires
        manifest.len() <= u32::MAX,
        index.len() <= u32::MAX,
        FIXED_HEADER_LEN + manifest.len() + data.len() + index.len() <= u64::MAX,
        entries.len() == files.len(),
        laid_out(entries, data.len() as int, FIXED_HEADER_LEN + manifest.len()),
        forall|i: int|
            0 <= i < files.len() ==> describes(
                #[trigger] entries[i],
                files[i].path@,
                files[i].content@,
                payload_in(data, entries[i], FIXED_HEADER_LEN + manifest.len()),
                pack_type,
                key,
            ),
        forall|i: int, j: int| 0 <= i < j < files.len() ==> (#[trigger] files[i]).path@ != (#[trigger] files[j]).path@,
        forall|i: int| 0 <= i < files.len() ==> (#[trigger] files[i]).content@.len() <= u32::MAX,
    ensures
        well_formed(pack_bytes(manifest, data, index), entries),
        forall|i: int|
            0 <= i < files.len() ==> entry_for(entries, (#[trigger] files[i]).path@) == Some(entries[i])
                && stored_readably(pack_bytes(manifest, data, index), entries[i], key, files[i].content@),
{
    let b = pack_bytes(manifest, data, index);
    let ds = FIXED_HEADER_LEN + manifest.len();
    lemma_built_payloads_read_back(manifest, data, index, entries);
    assert forall|i: int| 0 <= i < files.len() implies entry_for(entries, (#[trigger] files[i]).path@)
        == Some(entries[i]) && stored_readably(b, entries[i], key, files[i].content@) by {
        let p = files[i].path@;
        let e = entries[i];
        assert(describes(e, p, files[i].content@, payload_in(data, e, ds), pack_type, key));
        lemma_last_with_path(entries, p);
        let l = last_with_path(entries, p);
        if l != i {
            if l > i {
                assert(entries[l].path@ == p);
                assert(describes(entries[l], files[l].path@, files[l].content@, payload_in(data, entries[l], ds), pack_type, key));
                assert(files[i].path@ != files[l].path@);
            }
        }
        assert(l == i);
        assert(payload_of(b, e) == payload_in(data, e, ds));
    }
}

proof fn lemma_window(b: Seq<u8>, lo: int, w: Seq<u8>, x: int, y: int)
    requires
        0 <= lo,
        lo + w.len() <= b.len(),
        b.subrange(lo, lo + w.len()) == w,
        lo <= x <= y <= lo + w.len(),
    ensures
        b.subrange(x, y) == w.subrange(x - lo, y - lo),
{
    assert(b.subrange(x, y) =~= w.subrange(x - lo, y - lo));
}

/// A pack held in memory with its parsed manifest and index.
pub struct LoadedPack {
    manifest: PackManifest,
    data: Vec<u8>,
    entries: Vec<FileEntry>,
    key: Option<Vec<u8>>,
}

impl LoadedPack {
    #[verifier::type_invariant]
    spec fn inv(&self) -> bool {
        &&& self.key matches Some(k) ==> k@.len() == KEY_LEN
        &&& well_formed(self.data@, self.entries@)
    }

    /// The parsed manifest.
    pub closed spec fn spec_manifest(&self) -> PackManifest {
        self.manifest
    }

    /// The whole pack, header included.
    pub closed spec fn spec_data(&self) -> Seq<u8> {
        self.data@
    }

    /// The index records, in index order.
    pub closed spec fn spec_entries(&self) -> Seq<FileEntry> {
        self.entries@
    }

    /// The key encrypted payloads are opened with, if one was set.
    pub closed spec fn spec_key(&self) -> Option<Seq<u8>> {
        match self.key {
            Some(k) => Some(k@),
            None => None,
        }
    }

    /// Assembles a loaded pack from its bytes and the manifest and index
    /// parsed from them. The header is validated again, and every entry's
    /// payload must lie in the data region, between the end of the header and
    /// the index.
    pub fn from_parts(data: Vec<u8>, manifest: PackManifest, entries: Vec<FileEntry>) -> (r: Result<
        LoadedPack,
        PackError,
    >)
        ensures
            header_of(data@) is Err ==> r == Err::<LoadedPack, PackError>(header_of(data@)->Err_0),
            header_of(data@) matches Ok(h) ==> (r is Ok <==> entries_within(
                entries@,
                h.data_start(),
                h.index_offset as int,
            )),
            r matches Err(e) ==> header_of(data@) is Err || e == PackError::InvalidFormat,
            r matches Ok(p) ==> p.spec_manifest() == manifest && p.spec_data() == data@ && p.spec_entries()
                == entries@ && p.spec_key() is None && well_formed(data@, entries@),
    {
        let header = parse_header(data.as_slice())?;
        let start = header.data_region_start();
        let end = header.index_offset;
        let n: usize = entries.len();
        let mut i: usize = 0;
        while i < n
            invariant
                n == entries@.len(),
                i <= n,
                start == header.data_start(),
                header_of(data@) == Ok::<PackHeader, PackError>(header),
                end == header.index_offset,
                forall|j: int|
                    0 <= j < i ==> start <= (#[trigger] entries@[j]).offset && entries@[j].offset
                        + entries@[j].compressed_size <= end,
            decreases n - i,
        {
            let e = &entries[i];
            if e.offset < start || e.offset > end || e.compressed_size > end - e.offset {
                assert(!(start <= entries@[i as int].offset && entries@[i as int].offset
                    + entries@[i as int].compressed_size <= end));
                return Err(PackError::InvalidFormat);
            }
            i = i + 1;
        }
        Ok(LoadedPack { manifest, data, entries, key: None })
    }

    /// The parsed manifest.
    pub fn manifest(&self) -> (r: &PackManifest)
        ensures
            *r == self.spec_manifest(),
    {
        &self.manifest
    }

    /// Opens encrypted payloads from now on with the key derived from `secret`.
    pub fn set_secret(&mut self, secret: &[u8])
        ensures
            final(self).spec_manifest() == old(self).spec_manifest(),
            final(self).spec_data() == old(self).spec_data(),
            final(self).spec_entries() == old(self).spec_entries(),
            final(self).spec_key() == Some(sha256_of(secret@)),
    {
        proof {
            use_type_invariant(&*self);
        }
        self.key = Some(derive_key(secret));
    }

    /// Position of the entry that serves `path`.
    fn position(&self, path: &str) -> (r: Option<usize>)
        ensures
            r matches Some(i) ==> i == last_with_path(self.entries@, path@),
            r is None ==> last_with_path(self.entries@, path@) == -1,
    {
        let wanted = String::from_str(path);
        let mut i: usize = self.entries.len();
        assert(self.entries@.subrange(0, i as int) =~= self.entries@);
        while i > 0
            invariant
                i <= self.entries@.len(),
                wanted@ == path@,
                last_with_path(self.entries@, path@) == last_with_path(
                    self.entries@.subrange(0, i as int),
                    path@,
                ),
            decreases i,
        {
            assert(self.entries@.subrange(0, i as int).drop_last() =~= self.entries@.subrange(
                0,
                i - 1,
            ));
            if self.entries[i - 1].path == wanted {
                return Some(i - 1);
            }
            i = i - 1;
        }
        None
    }

    /// Metadata of the file at `path`, without reading its payload.
    pub fn get_entry(&self, path: &str) -> (r: Option<&FileEntry>)
        ensures
            well_formed(self.spec_data(), self.spec_entries()),
            match r {
                Some(e) => entry_for(self.spec_entries(), path@) == Some(*e),
                None => entry_for(self.spec_entries(), path@) is None,
            },
    {
        proof {
            use_type_invariant(self);
            lemma_last_with_path(self.entries@, path@);
        }
        match self.position(path) {
            Some(i) => Some(&self.entries[i]),
            None => None,
        }
    }

    /// The virtual paths this pack serves, each once, in index order.
    pub fn file_list(&self) -> (r: Vec<String>)
        ensures
            forall|k: int| 0 <= k < r@.len() ==> last_with_path(self.spec_entries(), (#[trigger] r@[k])@) >= 0,
            forall|j: int|
                0 <= j < self.spec_entries().len() ==> exists|k: int|
                    0 <= k < r@.len() && (#[trigger] r@[k])@ == (#[trigger] self.spec_entries()[j]).path@,
            forall|k1: int, k2: int|
                0 <= k1 < k2 < r@.len() ==> (#[trigger] r@[k1])@ != (#[trigger] r@[k2])@,
    {
        let mut out: Vec<String> = Vec::new();
        let ghost mut idx: Seq<int> = Seq::empty();
        let n: usize = self.entries.len();
        let mut i: usize = 0;
        while i < n
            invariant
                n == self.entries@.len(),
                i <= n,
                idx.len() == out@.len(),
                forall|k: int|
                    0 <= k < idx.len() ==> 0 <= #[trigger] idx[k] < i && out@[k]@ == self.entries@[idx[k]].path@
                        && last_with_path(self.entries@, self.entries@[idx[k]].path@) == idx[k],
                forall|k1: int, k2: int| 0 <= k1 < k2 < idx.len() ==> #[trigger] idx[k1] < #[trigger] idx[k2],
                forall|j: int|
                    0 <= j < i && last_with_path(self.entries@, (#[trigger] self.entries@[j]).path@) == j
                        ==> exists|k: int| 0 <= k < idx.len() && idx[k] == j,
            decreases n - i,
        {
            let ghost old_idx = idx;
            let p = self.entries[i].path.as_str();
            let found = self.position(p);
            if let Some(last) = found {
                if last == i {
                    out.push(self.entries[i].path.clone());
                    proof {
                        idx = idx.push(i as int);
                        assert(idx[idx.len() - 1] == i);
                    }
                }
            }
            proof {
                assert forall|j: int|
                    0 <= j <= i && last_with_path(self.entries@, (#[trigger] self.entries@[j]).path@) == j
                    implies exists|k: int| 0 <= k < idx.len() && idx[k] == j by {
                    if j == i {
                        assert(idx[idx.len() - 1] == j);
                    } else {
                        let k = choose|k: int| 0 <= k < old_idx.len() && old_idx[k] == j;
                        assert(idx[k] == j);
                    }
                }
            }
            i = i + 1;
        }
        proof {
            assert forall|k: int| 0 <= k < out@.len() implies last_with_path(self.spec_entries(), (#[trigger] out@[k])@) >= 0 by {
                assert(out@[k]@ == self.entries@[idx[k]].path@);
            }
            assert forall|j: int| 0 <= j < self.spec_entries().len() implies exists|k: int|
                0 <= k < out@.len() && (#[trigger] out@[k])@ == (#[trigger] self.spec_entries()[j]).path@ by {
                let p = self.entries@[j].path@;
                lemma_last_with_path(self.entries@, p);
                let l = last_with_path(self.entries@, p);
                assert(self.entries@[l].path@ == p);
                let k = choose|k: int| 0 <= k < idx.len() && idx[k] == l;
                assert(out@[k]@ == p);
            }
            assert forall|k1: int, k2: int| 0 <= k1 < k2 < out@.len() implies (#[trigger] out@[k1])@ != (#[trigger] out@[k2])@ by {
                assert(idx[k1] < idx[k2]);
            }
        }
        out
    }

    /// Reads and decodes the file at `path`: its payload is opened when
    /// encrypted, then decompressed. A payload that stores `content` under
    /// the entry's tags, as the builder writes it, reads back as `content`.
    pub fn read_file(&mut self, path: &str) -> (r: Result<Vec<u8>, PackError>)
        ensures
            *final(self) == *old(self),
            well_formed(old(self).spec_data(), old(self).spec_entries()),
            res_bytes(r) == read_result(old(self).spec_data(), old(self).spec_entries(), old(self).spec_key(), path@),
            forall|content: Seq<u8>|
                entry_for(old(self).spec_entries(), path@) is Some && #[trigger] stored_readably(
                    old(self).spec_data(),
                    entry_for(old(self).spec_entries(), path@)->Some_0,
                    old(self).spec_key(),
                    content,
                ) ==> res_bytes(r) == Ok::<Seq<u8>, PackError>(content),
    {
        self.decode_file(path)
    }

    fn decode_file(&self, path: &str) -> (r: Result<Vec<u8>, PackError>)
        ensures
            well_formed(self.spec_data(), self.spec_entries()),
            res_bytes(r) == read_result(self.spec_data(), self.spec_entries(), self.spec_key(), path@),
            forall|content: Seq<u8>|
                entry_for(self.spec_entries(), path@) is Some && #[trigger] stored_readably(
                    self.spec_data(),
                    entry_for(self.spec_entries(), path@)->Some_0,
                    self.spec_key(),
                    content,
                ) ==> res_bytes(r) == Ok::<Seq<u8>, PackError>(content),
    {
        proof {
            use_type_invariant(self);
            lemma_last_with_path(self.entries@, path@);
        }
        let i = match self.position(path) {
            Some(i) => i,
            None => return Err(PackError::PathNotFound),
        };
        let e = &self.entries[i];
        let len: usize = self.data.len();
        proof {
            let h = header_of(self.data@)->Ok_0;
            assert(h.data_start() <= self.entries@[i as int].offset);
            assert(e.offset + e.compressed_size <= h.index_offset + h.index_len);
        }
        let start = e.offset as usize;
        let end = (e.offset + e.compressed_size) as usize;
        let payload = slice_subrange(self.data.as_slice(), start, end);
        assert(payload@ == payload_of(self.data@, *e));
        match e.encryption {
            EncryptionType::Plain => decompress(payload, e.compression),
            EncryptionType::Aes256Gcm => match &self.key {
                Some(k) => {
                    let opened = open(k.as_slice(), payload)?;
                    decompress(opened.as_slice(), e.compression)
                },
                None => Err(PackError::DecryptionFailure),
            },
        }
    }
}

/// Decimal digits, in order.
pub open spec fn decimal_digits() -> Seq<char> {
    seq!['0', '1', '2', '3', '4', '5', '6', '7', '8', '9']
}

/// Decimal text of a natural number, most significant digit first.
pub open spec fn decimal_nat(n: nat) -> Seq<char>
    decreases n,
{
    if n < 10 {
        seq![decimal_digits()[n as int]]
    } else {
        decimal_nat(n / 10) + seq![decimal_digits()[(n % 10) as int]]
    }
}

/// Decimal text of an integer, with a leading `-` when negative.
pub open spec fn decimal(v: int) -> Seq<char> {
    if v < 0 {
        seq!['-'] + decimal_nat((-v) as nat)
    } else {
        decimal_nat(v as nat)
    }
}

/// How a layer is shown in an override chain: `name (Priority: N)`.
pub open spec fn layer_label(m: PackManifest) -> Seq<char> {
    m.name@ + " (Priority: "@ + decimal(m.priority as int) + ")"@
}

fn digit_text(d: u32) -> (r: &'static str)
    requires
        d < 10,
    ensures
        r@ == seq![decimal_digits()[d as int]],
{
    proof {
        reveal_strlit("0");
        reveal_strlit("1");
        reveal_strlit("2");
        reveal_strlit("3");
        reveal_strlit("4");
        reveal_strlit("5");
        reveal_strlit("6");
        reveal_strlit("7");
        reveal_strlit("8");
        reveal_strlit("9");
    }
    let r = match d {
        0 => "0",
        1 => "1",
        2 => "2",
        3 => "3",
        4 => "4",
        5 => "5",
        6 => "6",
        7 => "7",
        8 => "8",
        _ => "9",
    };
    assert(r@ =~= seq![decimal_digits()[d as int]]);
    r
}

fn push_decimal_nat(out: &mut String, n: u32)
    ensures
        final(out)@ == old(out)@ + decimal_nat(n as nat),
    decreases n,
{
    if n >= 10 {
        push_decimal_nat(out, n / 10);
    }
    out.append(digit_text(n % 10));
    assert(out@ =~= old(out)@ + decimal_nat(n as nat));
}

/// Appends the decimal text of `v`.
pub fn push_decimal(out: &mut String, v: i32)
    ensures
        final(out)@ == old(out)@ + decimal(v as int),
{
    if v < 0 {
        out.append("-");
        proof {
            reveal_strlit("-");
        }
        let magnitude: u32 = (-(v as i64)) as u32;
        push_decimal_nat(out, magnitude);
        assert(out@ =~= old(out)@ + decimal(v as int));
    } else {
        push_decimal_nat(out, v as u32);
    }
}

/// Where `add_pack` puts a pack of priority `p` into `s`: right after the
/// last layer whose priority is at least `p`.
pub open spec fn insertion_index(s: Seq<LoadedPack>, p: i32) -> int
    decreases s.len(),
{
    if s.len() == 0 {
        0
    } else if s.last().spec_manifest().priority >= p {
        s.len() as int
    } else {
        insertion_index(s.drop_last(), p)
    }
}

/// The layers after adding `pack` to `s`.
pub open spec fn added(s: Seq<LoadedPack>, pack: LoadedPack) -> Seq<LoadedPack> {
    s.insert(insertion_index(s, pack.spec_manifest().priority), pack)
}

/// Whether layers run from the highest priority down.
pub open spec fn by_priority(s: Seq<LoadedPack>) -> bool {
    forall|i: int, j: int|
        0 <= i < j < s.len() ==> (#[trigger] s[i]).spec_manifest().priority >= (#[trigger] s[
            j
        ]).spec_manifest().priority
}

/// Index of the first layer of `s` that holds path `p`, or -1.
pub open spec fn first_provider(s: Seq<LoadedPack>, p: Seq<char>) -> int
    decreases s.len(),
{
    if s.len() == 0 {
        -1
    } else if entry_for(s[0].spec_entries(), p) is Some {
        0
    } else {
        let r = first_provider(s.drop_first(), p);
        if r < 0 {
            -1
        } else {
            r + 1
        }
    }
}

proof fn lemma_first_provider_bounds(s: Seq<LoadedPack>, p: Seq<char>)
    ensures
        -1 <= first_provider(s, p) < s.len(),
    decreases s.len(),
{
    if s.len() > 0 {
        lemma_first_provider_bounds(s.drop_first(), p);
    }
}

/// What resolving `p` over layers `s` yields: the decoded content from the
/// first layer that holds `p`, or nothing when no layer holds it or that
/// layer fails to decode it.
pub open spec fn resolved(s: Seq<LoadedPack>, p: Seq<char>) -> Option<Seq<u8>> {
    let i = first_provider(s, p);
    if i < 0 {
        None
    } else {
        match read_result(s[i].spec_data(), s[i].spec_entries(), s[i].spec_key(), p) {
            Ok(v) => Some(v),
            Err(_) => None,
        }
    }
}

/// Labels of the layers of `s` that hold `p`, in layer order.
pub open spec fn layer_labels(s: Seq<LoadedPack>, p: Seq<char>) -> Seq<Seq<char>>
    decreases s.len(),
{
    if s.len() == 0 {
        Seq::empty()
    } else if entry_for(s.last().spec_entries(), p) is Some {
        layer_labels(s.drop_last(), p).push(layer_label(s.last().spec_manifest()))
    } else {
        layer_labels(s.drop_last(), p)
    }
}

proof fn lemma_insertion_index(s: Seq<LoadedPack>, p: i32)
    ensures
        0 <= insertion_index(s, p) <= s.len(),
        insertion_index(s, p) > 0 ==> s[insertion_index(s, p) - 1].spec_manifest().priority >= p,
        forall|i: int|
            insertion_index(s, p) <= i < s.len() ==> (#[trigger] s[i]).spec_manifest().priority < p,
    decreases s.len(),
{
    if s.len() > 0 && s.last().spec_manifest().priority < p {
        lemma_insertion_index(s.drop_last(), p);
        assert forall|i: int| insertion_index(s, p) <= i < s.len() implies (#[trigger] s[i]).spec_manifest().priority < p by {
            if i < s.len() - 1 {
                assert(s[i] == s.drop_last()[i]);
            }
        }
    }
}

proof fn lemma_insertion_index_is(s: Seq<LoadedPack>, p: i32, j: int)
    requires
        0 <= j <= s.len(),
        j > 0 ==> s[j - 1].spec_manifest().priority >= p,
        forall|i: int| j <= i < s.len() ==> (#[trigger] s[i]).spec_manifest().priority < p,
    ensures
        insertion_index(s, p) == j,
    decreases s.len(),
{
    if s.len() > 0 && j < s.len() {
        assert(s[s.len() - 1].spec_manifest().priority < p);
        assert forall|i: int| j <= i < s.drop_last().len() implies (#[trigger] s.drop_last()[i]).spec_manifest().priority < p by {
            assert(s.drop_last()[i] == s[i]);
        }
        if j > 0 {
            assert(s.drop_last()[j - 1] == s[j - 1]);
        }
        lemma_insertion_index_is(s.drop_last(), p, j);
    }
}

/// Packs of equal priority keep the order in which they were added: adding
/// `a` and then `b` puts `b` right after `a`.
pub proof fn lemma_equal_priority_keeps_insertion_order(s: Seq<LoadedPack>, a: LoadedPack, b: LoadedPack)
    requires
        a.spec_manifest().priority == b.spec_manifest().priority,
    ensures
        ({
            let k = insertion_index(s, a.spec_manifest().priority);
            added(added(s, a), b) == s.insert(k, a).insert(k + 1, b)
        }),
{
    let p = a.spec_manifest().priority;
    let k = insertion_index(s, p);
    lemma_insertion_index(s, p);
    let t = s.insert(k, a);
    assert forall|i: int| k + 1 <= i < t.len() implies (#[trigger] t[i]).spec_manifest().priority < p by {
        assert(t[i] == s[i - 1]);
    }
    assert(t[k] == a);
    lemma_insertion_index_is(t, p, k + 1);
}

/// A pack added to the layers lands after every layer of equal or higher
/// priority already there; as adding never reorders the existing layers,
/// packs of equal priority stay in the order they were added over any
/// sequence of additions.
pub proof fn lemma_added_after_equal_or_higher(s: Seq<LoadedPack>, pack: LoadedPack)
    ensures
        ({
            let k = insertion_index(s, pack.spec_manifest().priority);
            &&& added(s, pack)[k] == pack
            &&& forall|i: int|
                0 <= i < s.len() && (#[trigger] s[i]).spec_manifest().priority >= pack.spec_manifest().priority
                    ==> i < k && added(s, pack)[i] == s[i]
            &&& forall|i: int| k < i < s.len() + 1 ==> #[trigger] added(s, pack)[i] == s[i - 1]
        }),
{
    lemma_insertion_index(s, pack.spec_manifest().priority);
}

/// The layers after adding each of `packs` to `s`, in order.
pub open spec fn added_all(s: Seq<LoadedPack>, packs: Seq<LoadedPack>) -> Seq<LoadedPack>
    decreases packs.len(),
{
    if packs.len() == 0 {
        s
    } else {
        added(added_all(s, packs.drop_last()), packs.last())
    }
}

/// Whether `a` stands before `b` in the layers `s`.
pub open spec fn precedes(s: Seq<LoadedPack>, a: LoadedPack, b: LoadedPack) -> bool {
    exists|i: int, j: int| 0 <= i < j < s.len() && #[trigger] s[i] == a && #[trigger] s[j] == b
}

proof fn lemma_added_keeps_order(s: Seq<LoadedPack>, x: LoadedPack, a: LoadedPack, b: LoadedPack)
    requires
        precedes(s, a, b),
    ensures
        precedes(added(s, x), a, b),
{
    let (i, j) = choose|i: int, j: int| 0 <= i < j < s.len() && #[trigger] s[i] == a && #[trigger] s[j] == b;
    let k = insertion_index(s, x.spec_manifest().priority);
    lemma_insertion_index(s, x.spec_manifest().priority);
    let t = added(s, x);
    let i2 = if i < k { i } else { i + 1 };
    let j2 = if j < k { j } else { j + 1 };
    assert(t[i2] == a);
    assert(t[j2] == b);
}

/// Packs of equal priority stay in the order they were added: once `a` and
/// then `b` are added, `a` stands before `b` whatever is added afterwards.
pub proof fn lemma_ties_stay_in_insertion_order(
    s: Seq<LoadedPack>,
    a: LoadedPack,
    b: LoadedPack,
    later: Seq<LoadedPack>,
)
    requires
        a.spec_manifest().priority == b.spec_manifest().priority,
    ensures
        precedes(added_all(added(added(s, a), b), later), a, b),
    decreases later.len(),
{
    if later.len() == 0 {
        lemma_equal_priority_keeps_insertion_order(s, a, b);
        let k = insertion_index(s, a.spec_manifest().priority);
        lemma_insertion_index(s, a.spec_manifest().priority);
        let t = s.insert(k, a).insert(k + 1, b);
        assert(t[k] == a);
        assert(t[k + 1] == b);
    } else {
        lemma_ties_stay_in_insertion_order(s, a, b, later.drop_last());
        lemma_added_keeps_order(
            added_all(added(added(s, a), b), later.drop_last()),
            later.last(),
            a,
            b,
        );
    }
}

/// Overlays loaded packs: the highest priority first, ties in the order the
/// packs were added.
pub struct Resolver {
    packs: Vec<LoadedPack>,
}

impl Resolver {
    /// The layers, in resolution order.
    pub closed spec fn layers(&self) -> Seq<LoadedPack> {
        self.packs@
    }

    /// A resolver with no layers.
    pub fn new() -> (r: Self)
        ensures
            r.layers() == Seq::<LoadedPack>::empty(),
    {
        Resolver { packs: Vec::new() }
    }

    /// Adds a layer after every layer of at least its priority, which keeps
    /// the layers ordered by descending priority and ties in insertion order.
    pub fn add_pack(&mut self, pack: LoadedPack)
        ensures
            final(self).layers() == added(old(self).layers(), pack),
            by_priority(old(self).layers()) ==> by_priority(final(self).layers()),
    {
        let p = pack.manifest.priority;
        let ghost s = self.packs@;
        let mut i: usize = self.packs.len();
        assert(s.subrange(0, i as int) =~= s);
        while i > 0 && self.packs[i - 1].manifest.priority < p
            invariant
                self.packs@ == s,
                i <= s.len(),
                insertion_index(s, p) == insertion_index(s.subrange(0, i as int), p),
            decreases i,
        {
            assert(s.subrange(0, i as int).drop_last() =~= s.subrange(0, i - 1));
            i = i - 1;
        }
        proof {
            lemma_insertion_index(s, p);
            lemma_insertion_index(s.subrange(0, i as int), p);
        }
        self.packs.insert(i, pack);
        proof {
            let t = self.packs@;
            if by_priority(s) {
                assert forall|x: int, y: int| 0 <= x < y < t.len() implies (#[trigger] t[x]).spec_manifest().priority
                    >= (#[trigger] t[y]).spec_manifest().priority by {
                    if x < i && y > i {
                        assert(t[x] == s[x] && t[y] == s[y - 1]);
                    } else if x == i {
                        assert(t[y] == s[y - 1]);
                    } else if y == i {
                        assert(t[x] == s[x]);
                        assert(s[i - 1].spec_manifest().priority >= p);
                    } else if x < i {
                        assert(t[x] == s[x] && t[y] == s[y]);
                    } else {
                        assert(t[x] == s[x - 1] && t[y] == s[y - 1]);
                    }
                }
            }
        }
    }

    /// The decoded content of `path` from the first layer that holds it;
    /// nothing when no layer holds it or that layer fails to decode it.
    /// Lower layers are never consulted once a higher one holds the path.
    pub fn resolve(&mut self, path: &str) -> (r: Option<Vec<u8>>)
        ensures
            final(self).layers() == old(self).layers(),
            match r {
                Some(v) => resolved(old(self).layers(), path@) == Some(v@),
                None => resolved(old(self).layers(), path@) is None,
            },
    {
        let n: usize = self.packs.len();
        let mut i: usize = 0;
        assert(self.packs@.subrange(0, n as int) =~= self.packs@);
        proof {
            lemma_first_provider_bounds(self.packs@, path@);
        }
        while i < n
            invariant
                n == self.packs@.len(),
                i <= n,
                first_provider(self.packs@, path@) == (if first_provider(self.packs@.subrange(i as int, n as int), path@) < 0 {
                    -1
                } else {
                    first_provider(self.packs@.subrange(i as int, n as int), path@) + i
                }),
            decreases n - i,
        {
            let pack = &self.packs[i];
            let ghost rest = self.packs@.subrange(i as int, n as int);
            assert(rest[0] == self.packs@[i as int]);
            assert(rest.drop_first() =~= self.packs@.subrange(i + 1, n as int));
            if pack.get_entry(path).is_some() {
                assert(first_provider(self.packs@, path@) == i);
                return match pack.decode_file(path) {
                    Ok(v) => Some(v),
                    Err(_) => None,
                };
            }
            i = i + 1;
        }
        None
    }

    /// `name (Priority: N)` for every layer that holds `path`, in resolution
    /// order: the full override chain.
    pub fn list_layers(&self, path: &str) -> (r: Vec<String>)
        ensures
            r@.len() == layer_labels(self.layers(), path@).len(),
            forall|k: int| 0 <= k < r@.len() ==> (#[trigger] r@[k])@ == layer_labels(self.layers(), path@)[k],
    {
        let mut found_in: Vec<String> = Vec::new();
        let n: usize = self.packs.len();
        let mut i: usize = 0;
        while i < n
            invariant
                n == self.packs@.len(),
                i <= n,
                found_in@.len() == layer_labels(self.packs@.subrange(0, i as int), path@).len(),
                forall|k: int|
                    0 <= k < found_in@.len() ==> (#[trigger] found_in@[k])@ == layer_labels(
                        self.packs@.subrange(0, i as int),
                        path@,
                    )[k],
            decreases n - i,
        {
            let pack = &self.packs[i];
            let ghost pre = self.packs@.subrange(0, i as int);
            let ghost next = self.packs@.subrange(0, i + 1);
            assert(next.drop_last() =~= pre);
            assert(next.last() == self.packs@[i as int]);
            if pack.get_entry(path).is_some() {
                let mut label = pack.manifest.name.clone();
                label.append(" (Priority: ");
                push_decimal(&mut label, pack.manifest.priority);
                label.append(")");
                found_in.push(label);
            }
            i = i + 1;
        }
        assert(self.packs@.subrange(0, n as int) =~= self.packs@);
        found_in
    }
}

} // verus!
