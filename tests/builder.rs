use layer_pack::builder::{codec_for, file_extension, is_packable, keep_smaller, PackBuilder, SourceFile};
use layer_pack::codec::{compress, content_hash, decompress};
use layer_pack::format::{
    assemble_pack, CompressionType, EncryptionType, PackManifest, PackType, FIXED_HEADER_LEN,
};
use layer_pack::resolver::LoadedPack;

fn manifest(name: &str, pack_type: PackType, priority: i32) -> PackManifest {
    PackManifest {
        name: name.to_string(),
        pack_type,
        lang: None,
        priority,
        description: None,
        version: Some("1.0".to_string()),
        custom_ref: None,
        author: None,
        website: None,
    }
}

fn text() -> Vec<u8> {
    b"local x = 1 -- a line of script that repeats\n".repeat(50)
}

fn tree() -> Vec<SourceFile> {
    vec![
        SourceFile { path: "scripts/main.lua".to_string(), content: text() },
        SourceFile { path: "data/table.json".to_string(), content: b"{\"k\": [1, 1, 1, 1, 1, 1, 1, 1, 1, 1, 1, 1, 1, 1, 1, 1, 1, 1]}".repeat(20) },
        SourceFile { path: "img/logo.png".to_string(), content: vec![0x89, 0x50, 0x4e, 0x47, 1, 2, 3] },
        SourceFile { path: "empty.txt".to_string(), content: Vec::new() },
    ]
}

fn build_and_load(pack_type: PackType, secret: Option<&[u8]>) -> (LoadedPack, Vec<SourceFile>) {
    let mut builder = PackBuilder::new(manifest("p", pack_type, 0));
    if let Some(s) = secret {
        builder.set_secret(s);
    }
    let files = tree();
    let manifest_text = b"{\"name\":\"p\"}";
    let packed = builder
        .pack_files(&files, (FIXED_HEADER_LEN + manifest_text.len()) as u64)
        .unwrap();
    let bytes = assemble_pack(manifest_text, &packed.data, b"[]");
    let mut pack = LoadedPack::from_parts(bytes, manifest("p", pack_type, 0), packed.entries).unwrap();
    if let Some(s) = secret {
        pack.set_secret(s);
    }
    (pack, files)
}

#[test]
fn extensions_follow_the_last_dot_of_the_file_name() {
    assert_eq!(file_extension("a/b.txt"), Some("txt".to_string()));
    assert_eq!(file_extension("x.tar.gz"), Some("gz".to_string()));
    assert_eq!(file_extension("dir.d/file"), None);
    assert_eq!(file_extension(".lua"), None);
    assert_eq!(file_extension("a/.hidden"), None);
    assert_eq!(file_extension("name."), Some("".to_string()));
    assert_eq!(file_extension(".."), None);
    assert_eq!(file_extension(""), None);
}

#[test]
fn codec_choice_by_pack_type_and_extension() {
    assert_eq!(codec_for(PackType::Text, "a.png"), Some(CompressionType::Zstd));
    assert_eq!(codec_for(PackType::Script, "s/main.lua"), Some(CompressionType::Lz4));
    assert_eq!(codec_for(PackType::Script, "s/app.js"), Some(CompressionType::Lz4));
    assert_eq!(codec_for(PackType::Script, "s/tool.py"), Some(CompressionType::Lz4));
    assert_eq!(codec_for(PackType::Script, "s/notes.txt"), None);
    for ext in ["txt", "json", "xml", "yaml", "csv"] {
        assert_eq!(codec_for(PackType::Base, &format!("d/f.{}", ext)), Some(CompressionType::Zstd));
        assert_eq!(codec_for(PackType::Mod, &format!("f.{}", ext)), Some(CompressionType::Zstd));
    }
    assert_eq!(codec_for(PackType::Image, "logo.png"), None);
    assert_eq!(codec_for(PackType::Audio, "song.ogg"), None);
    assert_eq!(codec_for(PackType::Other, "noext"), None);
}

#[test]
fn hidden_files_and_manifest_are_skipped() {
    assert!(!is_packable(".gitignore"));
    assert!(!is_packable(".git/config"));
    assert!(!is_packable("a/.DS_Store"));
    assert!(!is_packable("pack.json"));
    assert!(is_packable("sub/pack.json"));
    assert!(is_packable("a/b.txt"));
}

#[test]
fn keep_smaller_falls_back_to_store() {
    let data = vec![1u8, 2, 3, 4];
    assert_eq!(keep_smaller(&data, vec![9, 9], CompressionType::Zstd), (vec![9, 9], CompressionType::Zstd));
    assert_eq!(keep_smaller(&data, vec![9, 9, 9, 9], CompressionType::Lz4), (data.clone(), CompressionType::Store));
    assert_eq!(keep_smaller(&data, vec![9, 9, 9, 9, 9], CompressionType::Zstd), (data.clone(), CompressionType::Store));
}

#[test]
fn compress_data_keeps_only_smaller_output() {
    let b = PackBuilder::new(manifest("t", PackType::Text, 0));
    let (stored, kind) = b.compress_data(&text(), "notes.bin");
    assert_eq!(kind, CompressionType::Zstd);
    assert!(stored.len() < text().len());
    assert_eq!(decompress(&stored, kind).unwrap(), text());
    let (stored, kind) = b.compress_data(b"ab", "tiny.txt");
    assert_eq!(kind, CompressionType::Store);
    assert_eq!(stored, b"ab".to_vec());
    let s = PackBuilder::new(manifest("s", PackType::Script, 0));
    assert_eq!(s.compress_data(&text(), "main.lua").1, CompressionType::Lz4);
    assert_eq!(s.compress_data(&text(), "main.txt").1, CompressionType::Store);
}

#[test]
fn entries_tile_the_data_region_in_order() {
    let b = PackBuilder::new(manifest("p", PackType::Base, 0));
    let files = tree();
    let packed = b.pack_files(&files, 100).unwrap();
    assert_eq!(packed.entries.len(), files.len());
    let mut at = 100u64;
    for (e, f) in packed.entries.iter().zip(files.iter()) {
        assert_eq!(e.path, f.path);
        assert_eq!(e.offset, at);
        assert_eq!(e.original_size, f.content.len() as u64);
        at += e.compressed_size;
    }
    assert_eq!(at - 100, packed.data.len() as u64);
    assert_eq!(packed.entries[1].compression, CompressionType::Zstd);
    assert_eq!(packed.entries[2].compression, CompressionType::Store);
    assert_eq!(packed.entries[3].compression, CompressionType::Store);
}

#[test]
fn stored_hash_is_sha256_of_original_bytes() {
    for pack_type in [PackType::Text, PackType::Script, PackType::Image] {
        for secret in [None, Some(&b"k"[..])] {
            let (pack, files) = build_and_load(pack_type, secret);
            for f in &files {
                assert_eq!(pack.get_entry(&f.path).unwrap().hash, content_hash(&f.content));
            }
        }
    }
}

#[test]
fn build_load_read_identity_for_every_codec_combination() {
    for pack_type in [PackType::Text, PackType::Script, PackType::Image, PackType::Base] {
        for secret in [None, Some(&b"build secret"[..])] {
            let (mut pack, files) = build_and_load(pack_type, secret);
            for f in &files {
                let e = pack.get_entry(&f.path).unwrap();
                let expected = if secret.is_some() { EncryptionType::Aes256Gcm } else { EncryptionType::Plain };
                assert_eq!(e.encryption, expected);
                assert_eq!(pack.read_file(&f.path).unwrap(), f.content);
            }
        }
    }
}

#[test]
fn script_pack_uses_lz4_and_encryption_adds_nonce_and_tag() {
    let (pack, files) = build_and_load(PackType::Script, Some(b"s"));
    let e = pack.get_entry("scripts/main.lua").unwrap();
    assert_eq!(e.compression, CompressionType::Lz4);
    let plain = PackBuilder::new(manifest("p", PackType::Script, 0));
    let (stored, _) = plain.compress_data(&files[0].content, "scripts/main.lua");
    assert_eq!(e.compressed_size, stored.len() as u64 + 12 + 16);
}

#[test]
fn every_encrypted_build_draws_a_fresh_nonce() {
    let mut b = PackBuilder::new(manifest("n", PackType::Image, 0));
    b.set_secret(b"s");
    let (_, first) = b.encode_file("a.bin", b"same bytes", 0).unwrap();
    let (_, second) = b.encode_file("a.bin", b"same bytes", 0).unwrap();
    assert_eq!(first.len(), second.len());
    assert_ne!(&first[..12], &second[..12]);
}

#[test]
fn builder_and_pack_expose_their_manifest() {
    let b = PackBuilder::new(manifest("named", PackType::Audio, 4));
    assert_eq!(b.manifest().name, "named");
    assert_eq!(b.manifest().priority, 4);
    let (pack, _) = build_and_load(PackType::Audio, None);
    assert_eq!(pack.manifest().name, "p");
    assert_eq!(pack.manifest().pack_type, PackType::Audio);
}

#[test]
fn zstd_is_chosen_whenever_its_frame_is_smaller() {
    let data = text();
    let frame = compress(&data, CompressionType::Zstd);
    assert!(frame.len() < data.len());
    let text_pack = PackBuilder::new(manifest("t", PackType::Text, 0));
    assert_eq!(text_pack.compress_data(&data, "any/name.bin"), (frame.clone(), CompressionType::Zstd));
    let base = PackBuilder::new(manifest("b", PackType::Base, 0));
    for ext in ["txt", "json", "xml", "yaml", "csv"] {
        assert_eq!(base.compress_data(&data, &format!("f.{}", ext)), (frame.clone(), CompressionType::Zstd));
    }
    assert_eq!(base.compress_data(&data, "f.lua"), (data.clone(), CompressionType::Store));
}
