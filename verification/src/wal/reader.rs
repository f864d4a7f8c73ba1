//! Reading WAL records back from bytes: a forward-only cursor that
//! validates lengths, CRC, and value tags, and distinguishes a torn
//! tail from corruption.

use vstd::prelude::*;

use crate::byteops::{copy_bytes, read_u32_be, read_u64_be, spec_u32_be_val, spec_u64_be_val};
use crate::types::{views_of, Entry, EntryView, ValueView, EXPIRING_VALUE_TYPE, NORMAL_VALUE_TYPE, TOMBSTONE_VALUE_TYPE};
use crate::wal::{crc32, crc32_of, WAL_HEADER_SIZE, WAL_MAX_KEY_SIZE, WAL_MAX_VAL_SIZE};

verus! {

/// Errors a record read can produce.
///
/// `Truncated` stands where a file ends inside a record: the torn-tail
/// signal that recovery tolerates at the end of the newest file. The
/// other variants are corruption, fatal for the record.
#[derive(Debug, Clone, Copy, PartialEq, Eq, Structural)]
pub enum ReadError {
    /// The input ended in the middle of a record.
    Truncated,
    /// The stored CRC does not match the one computed over the record.
    CrcMismatch { expected: u32, actual: u32 },
    /// An unknown value tag, or an expiring record whose value section
    /// cannot hold the timestamp.
    InvalidRecordType(u8),
    /// Key or value length in the header exceeds the sanity limits.
    PayloadTooLarge { key_len: u64, val_len: u64, max_key: u64, max_val: u64 },
}

/// Subtraction as the record reader performs it on untrusted header
/// fields: wrapping around at 2^64.
pub open spec fn spec_wrap_sub(a: u64, b: u64) -> u64 {
    if a - b < 0 {
        (a - b + 0x10000000000000000) as u64
    } else {
        (a - b) as u64
    }
}

/// Outcome of one step of the record reader at a position: clean end
/// of input, a torn record, a record and the next position, or a
/// corruption error.
pub enum RecordStep {
    End,
    Torn,
    Rec(EntryView, int),
    Fail(ReadError),
}

/// What reading one record at `pos` in `data` yields. This mirrors the
/// reader: header, key length, key, derived value-section length,
/// sanity limits, value section, CRC check, then the tag dispatch.
pub open spec fn spec_record_step(data: Seq<u8>, pos: int) -> RecordStep {
    let len = data.len() as int;
    if pos == len {
        RecordStep::End
    } else if len - pos < 21 {
        RecordStep::Torn
    } else {
        let crc = spec_u32_be_val(data.subrange(pos, pos + 4));
        let plen = spec_u64_be_val(data.subrange(pos + 4, pos + 12));
        let tag = data[pos + 12];
        let seq = spec_u64_be_val(data.subrange(pos + 13, pos + 21));
        if len - (pos + 21) < 8 {
            RecordStep::Torn
        } else {
            let key_len = spec_u64_be_val(data.subrange(pos + 21, pos + 29));
            if len - (pos + 29) < key_len {
                RecordStep::Torn
            } else {
                let key = data.subrange(pos + 29, pos + 29 + key_len);
                let val_len = spec_wrap_sub(spec_wrap_sub(plen, 8), key_len);
                if key_len > WAL_MAX_KEY_SIZE || val_len > WAL_MAX_VAL_SIZE {
                    RecordStep::Fail(
                        ReadError::PayloadTooLarge {
                            key_len,
                            val_len,
                            max_key: WAL_MAX_KEY_SIZE,
                            max_val: WAL_MAX_VAL_SIZE,
                        },
                    )
                } else {
                    let key_end = pos + 29 + key_len;
                    if len - key_end < val_len {
                        RecordStep::Torn
                    } else {
                        let vs = data.subrange(key_end, key_end + val_len);
                        let computed = crc32_of(data.subrange(pos + 4, key_end + val_len));
                        if computed != crc {
                            RecordStep::Fail(
                                ReadError::CrcMismatch { expected: crc, actual: computed },
                            )
                        } else if tag == NORMAL_VALUE_TYPE {
                            RecordStep::Rec(
                                EntryView { key, val: ValueView::Normal(vs), seq },
                                key_end + val_len,
                            )
                        } else if tag == TOMBSTONE_VALUE_TYPE {
                            RecordStep::Rec(
                                EntryView { key, val: ValueView::Tombstone, seq },
                                key_end + val_len,
                            )
                        } else if tag == EXPIRING_VALUE_TYPE {
                            if val_len < 8 {
                                RecordStep::Fail(ReadError::InvalidRecordType(tag))
                            } else {
                                RecordStep::Rec(
                                    EntryView {
                                        key,
                                        val: ValueView::Expiring {
                                            data: vs.skip(8),
                                            expire_at: spec_u64_be_val(vs.subrange(0, 8)),
                                        },
                                        seq,
                                    },
                                    key_end + val_len,
                                )
                            }
                        } else {
                            RecordStep::Fail(ReadError::InvalidRecordType(tag))
                        }
                    }
                }
            }
        }
    }
}

/// A successful step always makes progress and stays inside the input.
pub proof fn lemma_record_step_bounds(data: Seq<u8>, pos: int)
    requires
        0 <= pos <= data.len(),
    ensures
        spec_record_step(data, pos) matches RecordStep::Rec(_, p2) ==> pos + 29 <= p2
            <= data.len(),
{
}

/// A corruption failure is never the torn-tail signal: the reader
/// reports `Truncated` only through the torn case.
pub proof fn lemma_step_fail_not_truncated(data: Seq<u8>, pos: int)
    ensures
        spec_record_step(data, pos) matches RecordStep::Fail(err) ==> err != ReadError::Truncated,
{
}

/// What reading a whole file yields: the records up to a clean end or
/// a torn tail (the flag tells which), or the first corruption error.
pub enum FileParse {
    Entries(Seq<EntryView>, bool),
    Failed(ReadError),
}

/// All records of `data` from `pos` on: reading stops cleanly at the
/// end of input, tolerantly at a torn tail, and fatally at corruption.
pub open spec fn spec_wal_entries(data: Seq<u8>, pos: int) -> FileParse
    decreases data.len() - pos,
        when 0 <= pos <= data.len()
        via spec_wal_entries_decreases
{
    match spec_record_step(data, pos) {
        RecordStep::End => FileParse::Entries(Seq::empty(), false),
        RecordStep::Torn => FileParse::Entries(Seq::empty(), true),
        RecordStep::Fail(e) => FileParse::Failed(e),
        RecordStep::Rec(e, p2) => match spec_wal_entries(data, p2) {
            FileParse::Entries(rest, torn) => FileParse::Entries(seq![e] + rest, torn),
            FileParse::Failed(err) => FileParse::Failed(err),
        },
    }
}

#[via_fn]
proof fn spec_wal_entries_decreases(data: Seq<u8>, pos: int) {
    lemma_record_step_bounds(data, pos);
}

/// The filter recovery applies: keep entries at or above the floor.
pub open spec fn spec_keep(min_seq: u64) -> spec_fn(EntryView) -> bool {
    |e: EntryView| e.seq >= min_seq
}

/// Reads every record of one file's bytes, keeping the entries whose
/// sequence number is at least `min_seq`, in file order. A torn tail
/// ends the file quietly; corruption is the error of the first corrupt
/// record.
pub fn read_file_entries(data: &[u8], min_seq: u64) -> (r: Result<Vec<Entry>, ReadError>)
    ensures
        match spec_wal_entries(data@, 0) {
            FileParse::Entries(es, _) => match r {
                Ok(v) => views_of(v@) == es.filter(spec_keep(min_seq)),
                Err(_) => false,
            },
            FileParse::Failed(err) => r == Err::<Vec<Entry>, ReadError>(err),
        },
{
    let ghost orig = data@;
    let owned = copy_bytes(data);
    let mut it = WalIterator::new(owned);
    let mut acc: Vec<Entry> = Vec::new();
    let ghost mut seen: Seq<EntryView> = Seq::empty();
    proof {
        assert(views_of(acc@) =~= seen.filter(spec_keep(min_seq)));
    }
    loop
        invariant
            orig == data@,
            it.wf(),
            it.bytes() == orig,
            0 <= it.position() <= orig.len(),
            spec_wal_entries(orig, 0) == (match spec_wal_entries(orig, it.position()) {
                FileParse::Entries(rest, torn) => FileParse::Entries(seen + rest, torn),
                FileParse::Failed(e) => FileParse::Failed(e),
            }),
            views_of(acc@) == seen.filter(spec_keep(min_seq)),
        decreases orig.len() - it.position(),
    {
        let ghost pos0 = it.position();
        proof {
            lemma_record_step_bounds(orig, pos0);
            lemma_step_fail_not_truncated(orig, pos0);
        }
        match it.read_next_entry() {
            Ok(None) => {
                proof {
                    assert(spec_wal_entries(orig, pos0) == FileParse::Entries(
                        Seq::<EntryView>::empty(),
                        false,
                    ));
                    assert(seen + Seq::<EntryView>::empty() =~= seen);
                }
                return Ok(acc);
            },
            Ok(Some(entry)) => {
                let ghost e = entry@;
                let ghost p2 = (match spec_record_step(orig, pos0) {
                    RecordStep::Rec(_, p) => p,
                    _ => 0int,
                });
                proof {
                    match spec_wal_entries(orig, p2) {
                        FileParse::Entries(rest, torn) => {
                            assert(seen + (seq![e] + rest) =~= seen.push(e) + rest);
                        },
                        FileParse::Failed(_) => {},
                    }
                    seen.lemma_filter_push(e, spec_keep(min_seq));
                    seen = seen.push(e);
                }
                if entry.seq() >= min_seq {
                    acc.push(entry);
                    proof {
                        assert(views_of(acc@) =~= seen.filter(spec_keep(min_seq)));
                    }
                } else {
                    proof {
                        assert(views_of(acc@) =~= seen.filter(spec_keep(min_seq)));
                    }
                }
            },
            Err(e) => {
                match e {
                    ReadError::Truncated => {
                        proof {
                            assert(spec_wal_entries(orig, pos0) == FileParse::Entries(
                                Seq::<EntryView>::empty(),
                                true,
                            ));
                            assert(seen + Seq::<EntryView>::empty() =~= seen);
                        }
                        return Ok(acc);
                    },
                    _ => {
                        return Err(e);
                    },
                }
            },
        }
    }
}

/// Forward-only reader over the bytes of one WAL file.
pub struct WalIterator {
    data: Vec<u8>,
    pos: usize,
}

impl WalIterator {
    /// The bytes being read.
    pub closed spec fn bytes(&self) -> Seq<u8> {
        self.data@
    }

    /// The current read position.
    pub closed spec fn position(&self) -> int {
        self.pos as int
    }

    /// The position never leaves the input.
    pub closed spec fn wf(&self) -> bool {
        self.pos <= self.data@.len()
    }

    /// Starts reading `data` from its beginning.
    pub fn new(data: Vec<u8>) -> (r: Self)
        ensures
            r.bytes() == data@,
            r.position() == 0,
            r.wf(),
    {
        Self { data, pos: 0 }
    }

    /// Reads the next record: `Ok(None)` at a clean end of input,
    /// `Ok(Some(entry))` for a valid record, `Err(Truncated)` if the
    /// input ends inside the record, and the matching corruption error
    /// otherwise. The position advances only past a valid record.
    pub fn read_next_entry(&mut self) -> (r: Result<Option<Entry>, ReadError>)
        requires
            old(self).wf(),
        ensures
            final(self).wf(),
            final(self).bytes() == old(self).bytes(),
            ({
                let step = spec_record_step(old(self).bytes(), old(self).position());
                match step {
                    RecordStep::End => r == Ok::<Option<Entry>, ReadError>(None)
                        && final(self).position() == old(self).position(),
                    RecordStep::Torn => r == Err::<Option<Entry>, ReadError>(ReadError::Truncated)
                        && final(self).position() == old(self).position(),
                    RecordStep::Rec(e, p2) => (r matches Ok(Some(en)) && en@ == e)
                        && final(self).position() == p2,
                    RecordStep::Fail(err) => r == Err::<Option<Entry>, ReadError>(err)
                        && final(self).position() == old(self).position(),
                }
            }),
    {
        let len = self.data.len();
        let pos = self.pos;
        if pos == len {
            return Ok(None);
        }
        if len - pos < WAL_HEADER_SIZE {
            return Err(ReadError::Truncated);
        }
        let slice = self.data.as_slice();
        let crc = read_u32_be(slice, pos);
        let plen = read_u64_be(slice, pos + 4);
        let tag = slice[pos + 12];
        let seq = read_u64_be(slice, pos + 13);
        if len - (pos + 21) < 8 {
            return Err(ReadError::Truncated);
        }
        let key_len = read_u64_be(slice, pos + 21);
        if ((len - (pos + 29)) as u64) < key_len {
            return Err(ReadError::Truncated);
        }
        let key_len_us = key_len as usize;
        let key_end = pos + 29 + key_len_us;
        let val_len = plen.wrapping_sub(8).wrapping_sub(key_len);
        if key_len > WAL_MAX_KEY_SIZE || val_len > WAL_MAX_VAL_SIZE {
            return Err(
                ReadError::PayloadTooLarge {
                    key_len,
                    val_len,
                    max_key: WAL_MAX_KEY_SIZE,
                    max_val: WAL_MAX_VAL_SIZE,
                },
            );
        }
        if ((len - key_end) as u64) < val_len {
            return Err(ReadError::Truncated);
        }
        let val_len_us = val_len as usize;
        let val_end = key_end + val_len_us;
        let computed = crc32(&slice[pos + 4..val_end]);
        if computed != crc {
            return Err(ReadError::CrcMismatch { expected: crc, actual: computed });
        }
        let key = copy_bytes(&slice[pos + 29..key_end]);
        let entry = if tag == NORMAL_VALUE_TYPE {
            let data = copy_bytes(&slice[key_end..val_end]);
            Entry::new_normal(seq, key, data)
        } else if tag == TOMBSTONE_VALUE_TYPE {
            Entry::new_tombstone(seq, key)
        } else if tag == EXPIRING_VALUE_TYPE {
            if val_len < 8 {
                return Err(ReadError::InvalidRecordType(tag));
            }
            let expire_at = read_u64_be(slice, key_end);
            let data = copy_bytes(&slice[key_end + 8..val_end]);
            proof {
                let whole = self.data@.subrange(key_end as int, val_end as int);
                assert(whole.subrange(0, 8) =~= self.data@.subrange(
                    key_end as int,
                    key_end + 8,
                ));
                assert(whole.skip(8) =~= self.data@.subrange(key_end + 8, val_end as int));
            }
            Entry::new_expiring(seq, key, data, expire_at)
        } else {
            return Err(ReadError::InvalidRecordType(tag));
        };
        self.pos = val_end;
        Ok(Some(entry))
    }
}

} // verus!
