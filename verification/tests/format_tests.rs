//! Tests of the SSTable format layer: varint codec, block handles, and
//! the fixed footer.

use boxkv::sstable::format::{decode, encode, encoded_size, BlockHandle, Footer};
use boxkv::sstable::{SSTableError, FOOTER_SIZE, MAGIC, MAGIC_SIZE};

#[test]
fn test_varint_encode_decode_roundtrip() {
    let test_cases = vec![
        0u64,
        1,
        127,
        128,
        255,
        256,
        300,
        1024,
        65535,
        65536,
        1_000_000,
        u32::MAX as u64,
        u64::MAX / 2,
        u64::MAX,
    ];

    for value in test_cases {
        let mut buf = Vec::new();
        encode(value, &mut buf);

        let (decoded, bytes_read) = decode(&buf).unwrap();
        assert_eq!(value, decoded, "Roundtrip failed for value {}", value);
        assert_eq!(
            bytes_read,
            buf.len(),
            "Bytes read mismatch for value {}",
            value
        );
    }
}

#[test]
fn test_varint_encoded_size() {
    assert_eq!(encoded_size(0), 1);
    assert_eq!(encoded_size(127), 1);
    assert_eq!(encoded_size(128), 2);
    assert_eq!(encoded_size(255), 2);
    assert_eq!(encoded_size(16383), 2);
    assert_eq!(encoded_size(16384), 3);
    assert_eq!(encoded_size(u32::MAX as u64), 5);
    assert_eq!(encoded_size(u64::MAX), 10);
}

#[test]
fn test_varint_encode_size_matches_actual() {
    let test_cases = vec![0, 127, 128, 300, 1024, 65535, 1_000_000, u64::MAX];

    for value in test_cases {
        let expected_size = encoded_size(value);
        let mut buf = Vec::new();
        encode(value, &mut buf);
        assert_eq!(
            expected_size,
            buf.len(),
            "Encoded size mismatch for value {}: expected {}, got {}",
            value,
            expected_size,
            buf.len()
        );
    }
}

#[test]
fn test_varint_decode_empty_input() {
    let result = decode(&[]);
    assert!(result.is_err());
    match result {
        Err(SSTableError::Decode(msg)) => {
            assert!(msg.contains("empty"));
        }
        _ => panic!("Expected Decode error"),
    }
}

#[test]
fn test_varint_decode_incomplete() {
    // An incomplete varint: every byte carries the continuation bit.
    let incomplete = vec![0x80, 0x80, 0x80];
    let result = decode(&incomplete);
    assert!(result.is_err());
    match result {
        Err(SSTableError::Decode(msg)) => {
            assert!(msg.contains("incomplete"));
        }
        _ => panic!("Expected Decode error"),
    }
}

#[test]
fn test_varint_specific_encodings() {
    let mut buf = Vec::new();
    encode(300, &mut buf);
    assert_eq!(buf, vec![0xAC, 0x02]);

    buf.clear();
    encode(127, &mut buf);
    assert_eq!(buf, vec![0x7F]);

    buf.clear();
    encode(128, &mut buf);
    assert_eq!(buf, vec![0x80, 0x01]);
}

#[test]
fn test_varint_decode_too_long() {
    // Ten continuation bytes followed by anything need more than 64
    // bits: rejected whatever the eleventh byte holds.
    let too_long = vec![0x80, 0x80, 0x80, 0x80, 0x80, 0x80, 0x80, 0x80, 0x80, 0x80, 0x01];
    let result = decode(&too_long);
    assert!(result.is_err());
    match result {
        Err(SSTableError::Decode(msg)) => {
            assert!(msg.contains("too long"));
        }
        _ => panic!("Expected Decode error"),
    }
}

#[test]
fn test_varint_exactly_ten_bytes() {
    // u64::MAX encodes to exactly ten bytes, the tenth without the
    // continuation bit; that form is accepted.
    let mut buf = Vec::new();
    encode(u64::MAX, &mut buf);
    assert_eq!(buf.len(), 10);
    assert_eq!(buf[9] & 0x80, 0);
    let (decoded, n) = decode(&buf).unwrap();
    assert_eq!(decoded, u64::MAX);
    assert_eq!(n, 10);
}

#[test]
fn test_block_handle_new() {
    let handle = BlockHandle::new(100, 200);
    assert_eq!(handle.offset, 100);
    assert_eq!(handle.size, 200);
}

#[test]
fn test_block_handle_encode_decode_roundtrip() {
    let test_cases = vec![
        BlockHandle::new(0, 0),
        BlockHandle::new(100, 200),
        BlockHandle::new(1024, 4096),
        BlockHandle::new(u32::MAX as u64, u32::MAX as u64),
        BlockHandle::new(u64::MAX / 2, u64::MAX / 2),
    ];

    for handle in test_cases {
        let encoded = handle.encode();
        let (decoded, bytes_read) = BlockHandle::decode(&encoded).unwrap();

        assert_eq!(handle, decoded, "Roundtrip failed for handle {:?}", handle);
        assert_eq!(
            bytes_read,
            encoded.len(),
            "Bytes read mismatch for handle {:?}",
            handle
        );
    }
}

#[test]
fn test_block_handle_encoded_size() {
    let handle1 = BlockHandle::new(127, 127);
    assert_eq!(handle1.encoded_size(), 2);

    let handle2 = BlockHandle::new(128, 128);
    assert_eq!(handle2.encoded_size(), 4);

    let handle3 = BlockHandle::new(0, u64::MAX);
    assert_eq!(handle3.encoded_size(), 11);
}

#[test]
fn test_block_handle_encoded_size_matches_actual() {
    let handles = vec![
        BlockHandle::new(0, 0),
        BlockHandle::new(100, 200),
        BlockHandle::new(1024, 4096),
        BlockHandle::new(u64::MAX, u64::MAX),
    ];

    for handle in handles {
        let expected_size = handle.encoded_size();
        let encoded = handle.encode();
        assert_eq!(
            expected_size,
            encoded.len(),
            "Encoded size mismatch for handle {:?}",
            handle
        );
    }
}

#[test]
fn test_block_handle_decode_incomplete() {
    // An incomplete varint for the offset.
    let incomplete = vec![0x80];
    let result = BlockHandle::decode(&incomplete);
    assert!(result.is_err());
}

#[test]
fn test_block_handle_decode_partial() {
    // A complete offset, an incomplete size.
    let mut buf = Vec::new();
    encode(100, &mut buf);
    buf.push(0x80);
    let result = BlockHandle::decode(&buf);
    assert!(result.is_err());
}

#[test]
fn test_footer_new() {
    let meta_handle = BlockHandle::new(100, 200);
    let index_handle = BlockHandle::new(300, 400);
    let footer = Footer::new(meta_handle, index_handle);

    assert_eq!(footer.meta_index_handle, meta_handle);
    assert_eq!(footer.index_handle, index_handle);
    assert_eq!(footer.magic, MAGIC);
}

#[test]
fn test_footer_encode_decode_roundtrip() {
    let test_cases = vec![
        (BlockHandle::new(0, 0), BlockHandle::new(0, 0)),
        (BlockHandle::new(100, 200), BlockHandle::new(300, 400)),
        (BlockHandle::new(1024, 4096), BlockHandle::new(8192, 16384)),
        (
            BlockHandle::new(u32::MAX as u64, u32::MAX as u64),
            BlockHandle::new(u32::MAX as u64, u32::MAX as u64),
        ),
    ];

    for (meta_handle, index_handle) in test_cases {
        let footer = Footer::new(meta_handle, index_handle);
        let buf = footer.encode();

        let decoded = Footer::decode(&buf).unwrap();
        assert_eq!(footer, decoded, "Roundtrip failed for footer");
        assert!(decoded.validate_magic());
    }
}

#[test]
fn test_footer_magic_validation() {
    let footer = Footer::new(BlockHandle::new(100, 200), BlockHandle::new(300, 400));
    assert!(footer.validate_magic());

    let mut corrupted = footer.clone();
    corrupted.magic = 0;
    assert!(!corrupted.validate_magic());

    let mut corrupted2 = footer.clone();
    corrupted2.magic = u64::MAX;
    assert!(!corrupted2.validate_magic());
}

#[test]
fn test_footer_encode_fixed_size() {
    let footer = Footer::new(BlockHandle::new(100, 200), BlockHandle::new(300, 400));
    let buf = footer.encode();

    assert_eq!(buf.len(), FOOTER_SIZE);
    let magic_start = FOOTER_SIZE - MAGIC_SIZE;
    let magic_bytes = &buf[magic_start..];
    let decoded_magic = u64::from_be_bytes(magic_bytes.try_into().unwrap());
    assert_eq!(decoded_magic, MAGIC);
}

#[test]
fn test_footer_decode_invalid_block_handles() {
    // Every byte carries the continuation bit: invalid varints.
    let mut buf = [0x80u8; FOOTER_SIZE];
    let magic_bytes = MAGIC.to_be_bytes();
    buf[FOOTER_SIZE - MAGIC_SIZE..].copy_from_slice(&magic_bytes);

    let result = Footer::decode(&buf);
    assert!(result.is_err());
    match result {
        Err(SSTableError::Decode(_)) => {}
        _ => panic!("Expected Decode error, got different error"),
    }
}

#[test]
fn test_footer_padding_is_zero() {
    let footer = Footer::new(BlockHandle::new(100, 200), BlockHandle::new(300, 400));
    let buf = footer.encode();

    let meta_size = footer.meta_index_handle.encoded_size();
    let index_size = footer.index_handle.encoded_size();
    let padding_start = meta_size + index_size;
    let padding_end = FOOTER_SIZE - MAGIC_SIZE;

    for i in padding_start..padding_end {
        assert_eq!(buf[i], 0, "Padding byte at index {} should be zero", i);
    }
}

#[test]
fn test_footer_large_block_handles() {
    let footer = Footer::new(
        BlockHandle::new(u64::MAX, u64::MAX),
        BlockHandle::new(u64::MAX, u64::MAX),
    );

    let buf = footer.encode();

    let decoded = Footer::decode(&buf).unwrap();
    assert_eq!(footer, decoded);
}

#[test]
fn test_footer_small_block_handles() {
    let footer = Footer::new(BlockHandle::new(0, 0), BlockHandle::new(0, 0));

    let buf = footer.encode();

    let decoded = Footer::decode(&buf).unwrap();
    assert_eq!(footer, decoded);
}

#[test]
fn test_footer_magic_position() {
    let footer = Footer::new(BlockHandle::new(100, 200), BlockHandle::new(300, 400));
    let buf = footer.encode();

    let magic_bytes = &buf[FOOTER_SIZE - MAGIC_SIZE..];
    let magic = u64::from_be_bytes(magic_bytes.try_into().unwrap());
    assert_eq!(magic, MAGIC);
}

#[test]
fn test_varint_blockhandle_footer_integration() {
    let meta_handle = BlockHandle::new(12345, 67890);
    let index_handle = BlockHandle::new(11111, 22222);

    let meta_encoded = meta_handle.encode();
    let index_encoded = index_handle.encode();

    let (meta_decoded, _) = BlockHandle::decode(&meta_encoded).unwrap();
    let (index_decoded, _) = BlockHandle::decode(&index_encoded).unwrap();

    assert_eq!(meta_handle, meta_decoded);
    assert_eq!(index_handle, index_decoded);

    let footer = Footer::new(meta_handle, index_handle);
    let buf = footer.encode();

    let footer_decoded = Footer::decode(&buf).unwrap();
    assert_eq!(footer, footer_decoded);
    assert!(footer_decoded.validate_magic());
}

#[test]
fn test_edge_case_zero_values() {
    let footer = Footer::new(BlockHandle::new(0, 0), BlockHandle::new(0, 0));
    let buf = footer.encode();

    let decoded = Footer::decode(&buf).unwrap();
    assert_eq!(footer, decoded);
    assert_eq!(decoded.meta_index_handle.offset, 0);
    assert_eq!(decoded.meta_index_handle.size, 0);
}

#[test]
fn test_edge_case_max_values() {
    let footer = Footer::new(
        BlockHandle::new(u64::MAX, u64::MAX),
        BlockHandle::new(u64::MAX, u64::MAX),
    );
    let buf = footer.encode();

    let decoded = Footer::decode(&buf).unwrap();
    assert_eq!(footer, decoded);
    assert_eq!(decoded.meta_index_handle.offset, u64::MAX);
    assert_eq!(decoded.meta_index_handle.size, u64::MAX);
}

#[test]
fn test_footer_decode_wrong_length_is_corrupted() {
    let short = vec![0u8; 47];
    match Footer::decode(&short) {
        Err(SSTableError::Corrupted(_)) => {}
        other => panic!("expected Corrupted, got {:?}", other),
    }
}

#[test]
fn test_footer_scenario_meta_and_index() {
    // A footer with meta (100, 200) and index (300, 400): exactly 48
    // encoded bytes, the magic big-endian in the last eight, and both
    // handles reproduced by decoding.
    let footer = Footer::new(BlockHandle::new(100, 200), BlockHandle::new(300, 400));
    let buf = footer.encode();
    assert_eq!(buf.len(), 48);
    let magic = u64::from_be_bytes(buf[40..48].try_into().unwrap());
    assert_eq!(magic, MAGIC);
    let decoded = Footer::decode(&buf).unwrap();
    assert_eq!(decoded.meta_index_handle, BlockHandle::new(100, 200));
    assert_eq!(decoded.index_handle, BlockHandle::new(300, 400));
}
