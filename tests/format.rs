use layer_pack::format::{
    assemble_pack, parse_header, read_u32_le, read_u64_le, EncryptionType, PackError, PackHeader,
    FORMAT_VERSION,
};

fn sample_pack() -> Vec<u8> {
    assemble_pack(b"{\"name\":\"x\"}", b"DATA", b"[index]")
}

#[test]
fn assembled_pack_layout() {
    let b = sample_pack();
    assert_eq!(&b[..5], b"LPACK");
    assert_eq!(read_u32_le(&b, 5), FORMAT_VERSION);
    assert_eq!(read_u32_le(&b, 9), 12);
    assert_eq!(&b[13..25], b"{\"name\":\"x\"}");
    assert_eq!(read_u64_le(&b, 25), 41);
    assert_eq!(read_u32_le(&b, 33), 7);
    assert_eq!(&b[37..41], b"DATA");
    assert_eq!(&b[41..], b"[index]");
}

#[test]
fn header_of_assembled_pack() {
    let b = sample_pack();
    let h = parse_header(&b).unwrap();
    assert_eq!(
        h,
        PackHeader { version: 1, manifest_len: 12, index_offset: 41, index_len: 7 }
    );
    assert_eq!(h.data_region_start(), 37);
    assert_eq!(h.manifest_text(&b), b"{\"name\":\"x\"}".to_vec());
    assert_eq!(h.index_text(&b), b"[index]".to_vec());
}

#[test]
fn bad_magic_is_invalid_format() {
    let mut b = sample_pack();
    b[0] = b'X';
    assert_eq!(parse_header(&b), Err(PackError::InvalidFormat));
    assert_eq!(parse_header(b"NOTAPACKATALL"), Err(PackError::InvalidFormat));
}

#[test]
fn index_longer_than_file_is_truncated() {
    let mut b = sample_pack();
    b[33] = 200;
    assert_eq!(parse_header(&b), Err(PackError::TruncatedInput));
    let n = b.len();
    let mut c = sample_pack();
    c.truncate(n - 1);
    assert_eq!(parse_header(&c), Err(PackError::TruncatedInput));
}

#[test]
fn index_pointer_in_header_with_length_past_end_is_truncated() {
    let mut b = sample_pack();
    for i in 25..33 {
        b[i] = 0;
    }
    b[33] = 0xff;
    b[34] = 0xff;
    assert_eq!(parse_header(&b), Err(PackError::TruncatedInput));
}

#[test]
fn short_inputs_are_truncated() {
    assert_eq!(parse_header(b""), Err(PackError::TruncatedInput));
    assert_eq!(parse_header(b"LPA"), Err(PackError::TruncatedInput));
    assert_eq!(parse_header(b"LPACK\x01\x00"), Err(PackError::TruncatedInput));
    let b = sample_pack();
    assert_eq!(parse_header(&b[..20]), Err(PackError::TruncatedInput));
}

#[test]
fn unknown_version_is_invalid_format() {
    let mut b = sample_pack();
    b[5] = 2;
    assert_eq!(parse_header(&b), Err(PackError::InvalidFormat));
}

#[test]
fn zeroed_index_pointer_is_invalid_format() {
    let mut b = sample_pack();
    for i in 25..37 {
        b[i] = 0;
    }
    assert_eq!(parse_header(&b), Err(PackError::InvalidFormat));
}

#[test]
fn missing_encryption_tag_means_plain() {
    assert_eq!(EncryptionType::default(), EncryptionType::Plain);
}
