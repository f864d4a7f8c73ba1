//! Tests of the WAL record format, the record reader, file naming,
//! and recovery.

use boxkv::types::{Entry, ValueType};
use boxkv::wal::reader::{ReadError, WalIterator};
use boxkv::wal::writer::encode_record;
use boxkv::wal::{parse_wal_file_id, recover_entries, wal_file_name, WalError, WalFile};

fn read_all(data: Vec<u8>) -> Vec<Result<Option<Entry>, ReadError>> {
    let mut it = WalIterator::new(data);
    let mut out = Vec::new();
    loop {
        let step = it.read_next_entry();
        let stop = !matches!(step, Ok(Some(_)));
        out.push(step);
        if stop {
            return out;
        }
    }
}

#[test]
fn test_record_roundtrip_normal() {
    let entry = Entry::new_normal(100, b"key1".to_vec(), b"value1".to_vec());
    let bytes = encode_record(&entry);
    assert_eq!(bytes.len(), 29 + 4 + 6);
    let steps = read_all(bytes);
    assert_eq!(steps.len(), 2);
    let got = steps[0].as_ref().unwrap().as_ref().unwrap();
    assert_eq!(got.seq(), 100);
    assert_eq!(got.key().as_slice(), b"key1");
    match got.val() {
        ValueType::Normal(data) => assert_eq!(data.as_slice(), b"value1"),
        _ => panic!("Expected Normal value"),
    }
    assert!(matches!(steps[1], Ok(None)));
}

#[test]
fn test_record_roundtrip_tombstone() {
    let entry = Entry::new_tombstone(200, b"deleted_key".to_vec());
    let bytes = encode_record(&entry);
    let steps = read_all(bytes);
    let got = steps[0].as_ref().unwrap().as_ref().unwrap();
    assert_eq!(got.seq(), 200);
    assert_eq!(got.key().as_slice(), b"deleted_key");
    assert!(got.is_tombstone());
}

#[test]
fn test_record_roundtrip_expiring() {
    let entry = Entry::new_expiring(300, b"expire_key".to_vec(), b"expire_value".to_vec(), 1234567890);
    let bytes = encode_record(&entry);
    let steps = read_all(bytes);
    let got = steps[0].as_ref().unwrap().as_ref().unwrap();
    assert_eq!(got.seq(), 300);
    assert_eq!(got.key().as_slice(), b"expire_key");
    match got.val() {
        ValueType::Expiring { data, expire_at } => {
            assert_eq!(data.as_slice(), b"expire_value");
            assert_eq!(*expire_at, 1234567890);
        }
        _ => panic!("Expected Expiring value"),
    }
}

#[test]
fn test_record_roundtrip_empty_key_and_value() {
    let entry = Entry::new_normal(1, Vec::new(), Vec::new());
    let bytes = encode_record(&entry);
    assert_eq!(bytes.len(), 29);
    let steps = read_all(bytes);
    let got = steps[0].as_ref().unwrap().as_ref().unwrap();
    assert_eq!(got.key().len(), 0);
    match got.val() {
        ValueType::Normal(data) => assert_eq!(data.len(), 0),
        _ => panic!("Expected Normal value"),
    }
}

#[test]
fn test_record_roundtrip_limit_sizes() {
    // A key of exactly 1 MiB and a value of exactly 64 MiB are still
    // within the reader's limits.
    let key = vec![b'k'; 1024 * 1024];
    let value = vec![b'v'; 64 * 1024 * 1024];
    let entry = Entry::new_normal(9, key.clone(), value.clone());
    let bytes = encode_record(&entry);
    let steps = read_all(bytes);
    let got = steps[0].as_ref().unwrap().as_ref().unwrap();
    assert_eq!(got.key().len(), key.len());
    match got.val() {
        ValueType::Normal(data) => {
            assert_eq!(data.len(), value.len());
            assert_eq!(data.as_slice(), value.as_slice());
        }
        _ => panic!("Expected Normal value"),
    }
}

#[test]
fn test_record_golden_bytes() {
    // The exact wire image of a known record, CRC32 (IEEE) included:
    // CRC 0x52791de8, payload length 10, tag 0, seq 1, key length 1,
    // key "a", value "b", every integer big-endian.
    let entry = Entry::new_normal(1, b"a".to_vec(), b"b".to_vec());
    let bytes = encode_record(&entry);
    let expected: Vec<u8> = vec![
        0x52, 0x79, 0x1d, 0xe8, 0, 0, 0, 0, 0, 0, 0, 10, 0, 0, 0, 0, 0, 0, 0, 0, 1, 0, 0, 0, 0, 0,
        0, 0, 1, 97, 98,
    ];
    assert_eq!(bytes, expected);
}

#[test]
fn test_record_crc_catches_bit_flips() {
    // Flipping any bit of the tag, sequence number, key bytes, or
    // value bytes leaves the lengths intact, so the read reaches the
    // CRC check and reports the mismatch. Flipping a bit of the CRC
    // field itself mismatches too.
    let entry = Entry::new_normal(42, b"k".to_vec(), b"v".to_vec());
    let bytes = encode_record(&entry);
    assert_eq!(bytes.len(), 31);
    let mut regions: Vec<usize> = (0..4).collect(); // the CRC field
    regions.extend(12..21); // tag and sequence number
    regions.extend(29..31); // key and value bytes
    for byte in regions {
        for bit in 0..8 {
            let mut corrupt = bytes.clone();
            corrupt[byte] ^= 1 << bit;
            let steps = read_all(corrupt);
            match &steps[0] {
                Err(ReadError::CrcMismatch { .. }) => {}
                other => panic!("byte {} bit {}: expected CrcMismatch, got {:?}", byte, bit, other),
            }
        }
    }
    // Flipping a bit of a length field is caught too, though it may be
    // reported as a truncation or an oversized payload instead.
    for byte in (4..12).chain(21..29) {
        for bit in 0..8 {
            let mut corrupt = bytes.clone();
            corrupt[byte] ^= 1 << bit;
            let steps = read_all(corrupt);
            assert!(steps[0].is_err(), "byte {} bit {} slipped through", byte, bit);
        }
    }
}

#[test]
fn test_record_invalid_tag() {
    // A record whose tag is unknown passes the CRC check and is then
    // rejected by tag.
    let entry = Entry::new_tombstone(5, b"x".to_vec());
    let mut bytes = encode_record(&entry);
    bytes[12] = 3;
    // Recompute the CRC over everything after the CRC field.
    let crc = crc32fast::hash(&bytes[4..]);
    bytes[0..4].copy_from_slice(&crc.to_be_bytes());
    let steps = read_all(bytes);
    assert!(matches!(steps[0], Err(ReadError::InvalidRecordType(3))));
}

#[test]
fn test_record_payload_too_large() {
    // A header that announces a key beyond the sanity limit is
    // rejected before any allocation, provided the bytes are present;
    // here the file is short, so the read reports the truncation.
    let entry = Entry::new_normal(5, b"x".to_vec(), b"y".to_vec());
    let mut bytes = encode_record(&entry);
    // Overwrite KeyLen (bytes 21..29) with 2 MiB.
    let huge: u64 = 2 * 1024 * 1024;
    bytes[21..29].copy_from_slice(&huge.to_be_bytes());
    let steps = read_all(bytes);
    assert!(matches!(steps[0], Err(ReadError::Truncated)));

    // With enough bytes on disk to cover the announced key, the limit
    // check rejects the record.
    let big_entry = Entry::new_normal(6, vec![b'a'; (huge + 64) as usize], Vec::new());
    let mut big = encode_record(&big_entry);
    big[21..29].copy_from_slice(&huge.to_be_bytes());
    let steps = read_all(big);
    match &steps[0] {
        Err(ReadError::PayloadTooLarge { key_len, .. }) => assert_eq!(*key_len, huge),
        other => panic!("expected PayloadTooLarge, got {:?}", other),
    }
}

#[test]
fn test_torn_tail_yields_previous_records() {
    // Write three records and truncate anywhere from the end of the
    // second record to one byte short of the end: exactly the first
    // two records come back, with no error.
    let entries = vec![
        Entry::new_normal(1, b"a".to_vec(), b"1".to_vec()),
        Entry::new_tombstone(2, b"b".to_vec()),
        Entry::new_expiring(3, b"c".to_vec(), b"3".to_vec(), 77),
    ];
    let mut full = Vec::new();
    let mut lens = Vec::new();
    for e in &entries {
        let rec = encode_record(e);
        lens.push(rec.len());
        full.extend_from_slice(&rec);
    }
    let two = lens[0] + lens[1];
    for cut in two..full.len() {
        let data = full[..cut].to_vec();
        let steps = read_all(data);
        let mut got = Vec::new();
        for s in &steps {
            match s {
                Ok(Some(e)) => got.push(e.seq()),
                Ok(None) => assert_eq!(cut, two, "clean end only at a record boundary"),
                Err(ReadError::Truncated) => assert!(cut > two),
                Err(other) => panic!("cut {}: unexpected error {:?}", cut, other),
            }
        }
        assert_eq!(got, vec![1, 2], "cut at {}", cut);
    }
}

#[test]
fn test_wal_file_naming() {
    assert_eq!(wal_file_name(1), b"000000001.wal".to_vec());
    assert_eq!(wal_file_name(42), b"000000042.wal".to_vec());
    assert_eq!(wal_file_name(123456789), b"123456789.wal".to_vec());
    assert_eq!(wal_file_name(9999999999), b"9999999999.wal".to_vec());
}

#[test]
fn test_parse_wal_file_id() {
    assert_eq!(parse_wal_file_id(b"000000001.wal"), Some(1));
    assert_eq!(parse_wal_file_id(b"123456789.wal"), Some(123456789));
    // A naive stem parse accepts non-canonical names too.
    assert_eq!(parse_wal_file_id(b"1.wal"), Some(1));
    assert_eq!(parse_wal_file_id(b"18446744073709551615.wal"), Some(u64::MAX));
    assert_eq!(parse_wal_file_id(b"18446744073709551616.wal"), None);
    assert_eq!(parse_wal_file_id(b"abc.wal"), None);
    assert_eq!(parse_wal_file_id(b"12x.wal"), None);
    assert_eq!(parse_wal_file_id(b"123.txt"), None);
    assert_eq!(parse_wal_file_id(b".wal"), None);
    assert_eq!(parse_wal_file_id(b""), None);
}

fn file_of(file_id: u64, entries: &[Entry]) -> WalFile {
    let mut data = Vec::new();
    for e in entries {
        data.extend_from_slice(&encode_record(e));
    }
    WalFile { file_id, data }
}

#[test]
fn test_recovery_scenario_two_puts() {
    // One WAL with two synced puts: recovery from floor zero returns
    // both, in sequence order, and the maximum sequence number.
    let file = file_of(
        1,
        &[
            Entry::new_normal(100, b"key1".to_vec(), b"value1".to_vec()),
            Entry::new_normal(101, b"key2".to_vec(), b"value2".to_vec()),
        ],
    );
    let (entries, max_seq) = recover_entries(&[file], 0).unwrap();
    assert_eq!(max_seq, 101);
    assert_eq!(entries.len(), 2);

    assert_eq!(entries[0].seq(), 100);
    assert_eq!(entries[0].key().as_slice(), b"key1");
    match entries[0].val() {
        ValueType::Normal(data) => assert_eq!(data.as_slice(), b"value1"),
        _ => panic!("Expected Normal value"),
    }

    assert_eq!(entries[1].seq(), 101);
    assert_eq!(entries[1].key().as_slice(), b"key2");
    match entries[1].val() {
        ValueType::Normal(data) => assert_eq!(data.as_slice(), b"value2"),
        _ => panic!("Expected Normal value"),
    }
}

#[test]
fn test_recovery_scenario_tombstone() {
    let file = file_of(1, &[Entry::new_tombstone(200, b"deleted_key".to_vec())]);
    let (entries, max_seq) = recover_entries(&[file], 0).unwrap();
    assert_eq!(max_seq, 200);
    assert_eq!(entries.len(), 1);
    assert_eq!(entries[0].seq(), 200);
    assert_eq!(entries[0].key().as_slice(), b"deleted_key");
    assert!(entries[0].is_tombstone());
    assert!(matches!(entries[0].val(), ValueType::Tombstone));
}

#[test]
fn test_recovery_scenario_expiring() {
    let expire_at = 1234567890u64;
    let file = file_of(
        1,
        &[Entry::new_expiring(300, b"expire_key".to_vec(), b"expire_value".to_vec(), expire_at)],
    );
    let (entries, max_seq) = recover_entries(&[file], 0).unwrap();
    assert_eq!(max_seq, 300);
    assert_eq!(entries.len(), 1);
    assert_eq!(entries[0].seq(), 300);
    assert_eq!(entries[0].key().as_slice(), b"expire_key");
    match entries[0].val() {
        ValueType::Expiring { data, expire_at: exp } => {
            assert_eq!(data.as_slice(), b"expire_value");
            assert_eq!(*exp, expire_at);
        }
        _ => panic!("Expected Expiring value"),
    }
}

#[test]
fn test_recovery_scenario_three_files_with_floor() {
    // Files 1, 2, 3 hold seqs {10, 20}, {30, 40}, {50}; a floor of 25
    // keeps 30, 40, 50 in that order, with maximum 50.
    let files = vec![
        file_of(
            1,
            &[
                Entry::new_normal(10, b"k1".to_vec(), b"v1".to_vec()),
                Entry::new_normal(20, b"k2".to_vec(), b"v2".to_vec()),
            ],
        ),
        file_of(
            2,
            &[
                Entry::new_normal(30, b"k3".to_vec(), b"v3".to_vec()),
                Entry::new_tombstone(40, b"k1".to_vec()),
            ],
        ),
        file_of(3, &[Entry::new_expiring(50, b"k4".to_vec(), b"v4".to_vec(), 8888)]),
    ];
    let (entries, max_seq) = recover_entries(&files, 25).unwrap();
    assert_eq!(max_seq, 50);
    let seqs: Vec<u64> = entries.iter().map(|e| e.seq()).collect();
    assert_eq!(seqs, vec![30, 40, 50]);
}

#[test]
fn test_recovery_min_seq_filtering() {
    let file = file_of(
        1,
        &[
            Entry::new_normal(10, b"k1".to_vec(), b"v1".to_vec()),
            Entry::new_normal(20, b"k2".to_vec(), b"v2".to_vec()),
            Entry::new_normal(30, b"k3".to_vec(), b"v3".to_vec()),
            Entry::new_normal(40, b"k4".to_vec(), b"v4".to_vec()),
        ],
    );
    let (entries, max_seq) = recover_entries(&[file], 25).unwrap();
    assert_eq!(max_seq, 40);
    assert_eq!(entries.len(), 2);
    assert_eq!(entries[0].seq(), 30);
    assert_eq!(entries[1].seq(), 40);

    let file = file_of(
        1,
        &[
            Entry::new_normal(10, b"k1".to_vec(), b"v1".to_vec()),
            Entry::new_normal(40, b"k4".to_vec(), b"v4".to_vec()),
        ],
    );
    let (entries, max_seq) = recover_entries(&[file], 40).unwrap();
    assert_eq!(max_seq, 40);
    assert_eq!(entries.len(), 1);
    assert_eq!(entries[0].seq(), 40);

    let file = file_of(1, &[Entry::new_normal(10, b"k1".to_vec(), b"v1".to_vec())]);
    let (entries, max_seq) = recover_entries(&[file], 100).unwrap();
    assert_eq!(entries.len(), 0);
    assert_eq!(max_seq, 0);
}

#[test]
fn test_recovery_empty() {
    let (entries, max_seq) = recover_entries(&[], 0).unwrap();
    assert_eq!(entries.len(), 0);
    assert_eq!(max_seq, 0);
}

#[test]
fn test_recovery_unsorted_seqs_are_sorted() {
    let file = file_of(
        1,
        &[
            Entry::new_normal(100, b"k100".to_vec(), b"v100".to_vec()),
            Entry::new_normal(50, b"k50".to_vec(), b"v50".to_vec()),
            Entry::new_normal(200, b"k200".to_vec(), b"v200".to_vec()),
            Entry::new_normal(75, b"k75".to_vec(), b"v75".to_vec()),
        ],
    );
    let (entries, max_seq) = recover_entries(&[file], 0).unwrap();
    assert_eq!(max_seq, 200);
    let seqs: Vec<u64> = entries.iter().map(|e| e.seq()).collect();
    assert_eq!(seqs, vec![50, 75, 100, 200]);
}

#[test]
fn test_recovery_torn_tail_in_one_file_continues_with_next() {
    let mut file1 = file_of(
        1,
        &[
            Entry::new_normal(1, b"a".to_vec(), b"1".to_vec()),
            Entry::new_normal(2, b"b".to_vec(), b"2".to_vec()),
        ],
    );
    // Tear the tail of the first file inside its second record.
    file1.data.truncate(file1.data.len() - 3);
    let file2 = file_of(2, &[Entry::new_normal(3, b"c".to_vec(), b"3".to_vec())]);
    let (entries, max_seq) = recover_entries(&[file1, file2], 0).unwrap();
    let seqs: Vec<u64> = entries.iter().map(|e| e.seq()).collect();
    assert_eq!(seqs, vec![1, 3]);
    assert_eq!(max_seq, 3);
}

#[test]
fn test_recovery_reports_corrupt_file_by_name() {
    let file1 = file_of(1, &[Entry::new_normal(1, b"a".to_vec(), b"1".to_vec())]);
    let mut file2 = file_of(2, &[Entry::new_normal(2, b"b".to_vec(), b"2".to_vec())]);
    // Corrupt a value byte of the second file: its CRC no longer
    // matches.
    let last = file2.data.len() - 1;
    file2.data[last] ^= 0xff;
    let err = recover_entries(&[file1, file2], 0).unwrap_err();
    match err {
        WalError::Read { path, source } => {
            assert_eq!(path, b"000000002.wal".to_vec());
            assert!(matches!(source, ReadError::CrcMismatch { .. }));
        }
    }
}

#[test]
fn test_recovery_files_processed_in_id_order() {
    // The files arrive unsorted; entries with equal standing are
    // still returned in global sequence order.
    let file3 = file_of(3, &[Entry::new_normal(30, b"c".to_vec(), b"3".to_vec())]);
    let file1 = file_of(1, &[Entry::new_normal(10, b"a".to_vec(), b"1".to_vec())]);
    let file2 = file_of(2, &[Entry::new_normal(20, b"b".to_vec(), b"2".to_vec())]);
    let (entries, max_seq) = recover_entries(&[file3, file1, file2], 0).unwrap();
    let seqs: Vec<u64> = entries.iter().map(|e| e.seq()).collect();
    assert_eq!(seqs, vec![10, 20, 30]);
    assert_eq!(max_seq, 30);
}
