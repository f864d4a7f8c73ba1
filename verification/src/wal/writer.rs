//! Serializing entries into WAL records.

use vstd::prelude::*;

use crate::byteops::{copy_bytes, push_u32_be, push_u64_be};
use crate::types::{Entry, ValueType};
use crate::wal::{crc32, spec_record, spec_record_covered, spec_record_fits};

verus! {

/// Serializes `entry` into one WAL record: the CRC32 over everything
/// after it, then payload length, value tag, sequence number, key
/// length, key, and value section, all integers big-endian.
pub fn encode_record(entry: &Entry) -> (r: Vec<u8>)
    requires
        spec_record_fits(entry@),
    ensures
        r@ == spec_record(entry@),
{
    let key_len = entry.key.len() as u64;
    let vs_len = entry.val.data_len() as u64 + entry.val.meta_len() as u64;
    let payload_len = 8 + key_len + vs_len;
    let mut covered: Vec<u8> = Vec::new();
    push_u64_be(&mut covered, payload_len);
    covered.push(entry.val.type_tag());
    push_u64_be(&mut covered, entry.seq);
    push_u64_be(&mut covered, key_len);
    let mut key_copy = copy_bytes(entry.key.as_slice());
    covered.append(&mut key_copy);
    match &entry.val {
        ValueType::Normal(data) => {
            let mut data_copy = copy_bytes(data.as_slice());
            covered.append(&mut data_copy);
        },
        ValueType::Tombstone => {},
        ValueType::Expiring { data, expire_at } => {
            push_u64_be(&mut covered, *expire_at);
            let mut data_copy = copy_bytes(data.as_slice());
            covered.append(&mut data_copy);
        },
    }
    assert(covered@ =~= spec_record_covered(entry@));
    let crc = crc32(covered.as_slice());
    let mut r: Vec<u8> = Vec::new();
    push_u32_be(&mut r, crc);
    r.append(&mut covered);
    assert(r@ =~= spec_record(entry@));
    r
}

} // verus!
