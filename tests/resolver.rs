use layer_pack::builder::{PackBuilder, SourceFile};
use layer_pack::format::{assemble_pack, FileEntry, PackError, PackManifest, PackType, FIXED_HEADER_LEN};
use layer_pack::resolver::{push_decimal, LoadedPack, Resolver};

fn manifest(name: &str, priority: i32) -> PackManifest {
    PackManifest {
        name: name.to_string(),
        pack_type: PackType::Base,
        lang: None,
        priority,
        description: None,
        version: None,
        custom_ref: None,
        author: Some("someone".to_string()),
        website: None,
    }
}

fn make_pack(name: &str, priority: i32, files: &[(&str, &[u8])], secret: Option<&[u8]>) -> LoadedPack {
    let mut builder = PackBuilder::new(manifest(name, priority));
    if let Some(s) = secret {
        builder.set_secret(s);
    }
    let sources: Vec<SourceFile> = files
        .iter()
        .map(|(p, c)| SourceFile { path: p.to_string(), content: c.to_vec() })
        .collect();
    let packed = builder.pack_files(&sources, FIXED_HEADER_LEN as u64 + 2).unwrap();
    let bytes = assemble_pack(b"{}", &packed.data, b"[]");
    LoadedPack::from_parts(bytes, manifest(name, priority), packed.entries).unwrap()
}

#[test]
fn higher_priority_layer_wins() {
    let p1 = make_pack("P1", 10, &[("a", b"from p1")], None);
    let p2 = make_pack("P2", 5, &[("a", b"from p2"), ("b", b"only p2")], None);
    let mut r = Resolver::new();
    r.add_pack(p2);
    r.add_pack(p1);
    assert_eq!(r.resolve("a"), Some(b"from p1".to_vec()));
    assert_eq!(r.list_layers("a"), vec!["P1 (Priority: 10)".to_string(), "P2 (Priority: 5)".to_string()]);
    assert_eq!(r.resolve("b"), Some(b"only p2".to_vec()));
    assert_eq!(r.list_layers("b"), vec!["P2 (Priority: 5)".to_string()]);
}

#[test]
fn equal_priorities_keep_insertion_order() {
    let mut r = Resolver::new();
    r.add_pack(make_pack("first", 3, &[("x", b"1")], None));
    r.add_pack(make_pack("high", 9, &[("x", b"h")], None));
    r.add_pack(make_pack("second", 3, &[("x", b"2")], None));
    r.add_pack(make_pack("low", -1, &[("x", b"l")], None));
    r.add_pack(make_pack("third", 3, &[("x", b"3")], None));
    assert_eq!(
        r.list_layers("x"),
        vec![
            "high (Priority: 9)".to_string(),
            "first (Priority: 3)".to_string(),
            "second (Priority: 3)".to_string(),
            "third (Priority: 3)".to_string(),
            "low (Priority: -1)".to_string(),
        ]
    );
    let mut ties = Resolver::new();
    ties.add_pack(make_pack("one", 0, &[("y", b"one")], None));
    ties.add_pack(make_pack("two", 0, &[("y", b"two")], None));
    assert_eq!(ties.resolve("y"), Some(b"one".to_vec()));
}

#[test]
fn missing_path_yields_nothing() {
    let mut pack = make_pack("P", 1, &[("a", b"x")], None);
    assert!(pack.get_entry("nonexistent").is_none());
    assert_eq!(pack.read_file("nonexistent"), Err(PackError::PathNotFound));
    let mut r = Resolver::new();
    assert_eq!(r.resolve("nonexistent"), None);
    r.add_pack(pack);
    assert_eq!(r.resolve("nonexistent"), None);
    assert!(r.list_layers("nonexistent").is_empty());
}

#[test]
fn undecodable_top_layer_shadows_lower_layers() {
    let top = make_pack("top", 10, &[("a", b"secret content")], Some(b"k"));
    let low = make_pack("low", 1, &[("a", b"plain content")], None);
    let mut r = Resolver::new();
    r.add_pack(low);
    r.add_pack(top);
    assert_eq!(r.resolve("a"), None);
}

#[test]
fn encrypted_pack_needs_the_right_secret() {
    let mut pack = make_pack("e", 0, &[("a", b"hidden")], Some(b"right"));
    assert_eq!(pack.read_file("a"), Err(PackError::DecryptionFailure));
    pack.set_secret(b"wrong");
    assert_eq!(pack.read_file("a"), Err(PackError::DecryptionFailure));
    pack.set_secret(b"right");
    assert_eq!(pack.read_file("a"), Ok(b"hidden".to_vec()));
}

#[test]
fn file_list_has_each_path_once() {
    let pack = make_pack("d", 0, &[("a", b"1"), ("b", b"2"), ("a", b"3")], None);
    let mut list = pack.file_list();
    list.sort();
    assert_eq!(list, vec!["a".to_string(), "b".to_string()]);
    assert_eq!(pack.get_entry("a").unwrap().original_size, 1);
}

#[test]
fn last_duplicate_entry_wins() {
    let mut pack = make_pack("d", 0, &[("a", b"first"), ("a", b"second!")], None);
    assert_eq!(pack.read_file("a"), Ok(b"second!".to_vec()));
}

#[test]
fn entry_outside_data_region_is_rejected() {
    let bytes = assemble_pack(b"{}", b"abcd", b"[]");
    let bad = FileEntry {
        path: "a".to_string(),
        offset: 27,
        original_size: 10,
        compressed_size: 10,
        compression: layer_pack::format::CompressionType::Store,
        encryption: layer_pack::format::EncryptionType::Plain,
        hash: String::new(),
    };
    assert!(matches!(
        LoadedPack::from_parts(bytes.clone(), manifest("m", 0), vec![bad]),
        Err(PackError::InvalidFormat)
    ));
    let mut corrupt = bytes.clone();
    corrupt[0] = b'Z';
    assert!(matches!(
        LoadedPack::from_parts(corrupt, manifest("m", 0), Vec::new()),
        Err(PackError::InvalidFormat)
    ));
}

#[test]
fn decimal_text_of_priorities() {
    for (v, s) in [(0, "0"), (7, "7"), (10, "10"), (-3, "-3"), (i32::MAX, "2147483647"), (i32::MIN, "-2147483648")] {
        let mut out = String::from("p=");
        push_decimal(&mut out, v);
        assert_eq!(out, format!("p={}", s));
    }
}
