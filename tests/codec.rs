use layer_pack::codec::{compress, content_hash, decompress, derive_key, open, seal};
use layer_pack::format::{CompressionType, PackError};

fn sample() -> Vec<u8> {
    b"the quick brown fox jumps over the lazy dog\n".repeat(40)
}

#[test]
fn store_round_trip() {
    let data = sample();
    let stored = compress(&data, CompressionType::Store);
    assert_eq!(stored, data);
    assert_eq!(decompress(&stored, CompressionType::Store).unwrap(), data);
}

#[test]
fn zstd_round_trip() {
    let data = sample();
    let stored = compress(&data, CompressionType::Zstd);
    assert!(stored.len() < data.len());
    assert_ne!(stored, data);
    assert_eq!(decompress(&stored, CompressionType::Zstd).unwrap(), data);
}

#[test]
fn lz4_round_trip() {
    let data = sample();
    let stored = compress(&data, CompressionType::Lz4);
    assert!(stored.len() < data.len());
    assert_eq!(&stored[..4], &(data.len() as u32).to_le_bytes());
    assert_eq!(decompress(&stored, CompressionType::Lz4).unwrap(), data);
}

#[test]
fn empty_content_round_trips_in_every_codec() {
    for kind in [CompressionType::Store, CompressionType::Zstd, CompressionType::Lz4] {
        let stored = compress(&[], kind);
        assert_eq!(decompress(&stored, kind).unwrap(), Vec::<u8>::new());
    }
}

#[test]
fn malformed_streams_fail_to_decompress() {
    let junk = b"definitely not a compressed stream".to_vec();
    assert_eq!(decompress(&junk, CompressionType::Zstd), Err(PackError::DecompressionFailure));
    assert_eq!(decompress(&[1, 2], CompressionType::Lz4), Err(PackError::DecompressionFailure));
}

#[test]
fn seal_then_open_round_trip() {
    let key = derive_key(b"app secret");
    let nonce = [7u8; 12];
    let data = sample();
    let payload = seal(&key, &nonce, &data).unwrap();
    assert_eq!(&payload[..12], &nonce);
    assert_eq!(payload.len(), 12 + data.len() + 16);
    assert_eq!(open(&key, &payload).unwrap(), data);
}

#[test]
fn wrong_key_fails_to_open() {
    let key = derive_key(b"app secret");
    let other = derive_key(b"another secret");
    let payload = seal(&key, &[1u8; 12], b"payload bytes").unwrap();
    assert_eq!(open(&other, &payload), Err(PackError::DecryptionFailure));
}

#[test]
fn tampered_or_short_payload_fails_to_open() {
    let key = derive_key(b"app secret");
    let mut payload = seal(&key, &[1u8; 12], b"payload bytes").unwrap();
    let last = payload.len() - 1;
    payload[last] ^= 1;
    assert_eq!(open(&key, &payload), Err(PackError::DecryptionFailure));
    assert_eq!(open(&key, &[0u8; 5]), Err(PackError::DecryptionFailure));
}

#[test]
fn content_hash_is_hex_sha256() {
    assert_eq!(
        content_hash(b"abc"),
        "ba7816bf8f01cfea414140de5dae2223b00361a396177a9cb410ff61f20015ad"
    );
    assert_eq!(
        content_hash(b""),
        "e3b0c44298fc1c149afbf4c8996fb92427ae41e4649b934ca495991b7852b855"
    );
}

#[test]
fn derived_key_is_sha256_of_secret() {
    let key = derive_key(b"abc");
    assert_eq!(key.len(), 32);
    assert_eq!(key[0], 0xba);
    assert_eq!(key[31], 0xad);
}
