//! Write-ahead log: the record binary format, its CRC-checked reader,
//! and recovery across numbered log files.
//!
//! A record is a 21-byte header — CRC32 (4), payload length (8), value
//! tag (1), sequence number (8), all big-endian — followed by the
//! payload: key length (8), key bytes, and the value section. The
//! value section is empty for a tombstone, the raw bytes for a normal
//! value, and an 8-byte big-endian expiry timestamp followed by the
//! raw bytes for an expiring value. The CRC covers everything after
//! itself.

pub mod reader;
pub mod writer;

use vstd::prelude::*;

use crate::byteops::{count_dec_digits, lemma_dec_digits_len, lemma_u32_be_roundtrip, lemma_u64_be_roundtrip, push_dec_digits, spec_dec_digits, spec_u32_be, spec_u64_be};
use crate::types::{sort_entries_by_seq, spec_type_tag, spec_value_len, views_of, Entry, EntryView, ValueView};

verus! {

/// Bytes of the CRC32 field.
pub const WAL_CRC_SIZE: usize = 4;

/// Bytes of the payload-length field.
pub const WAL_PAYLOAD_LEN_SIZE: usize = 8;

/// Bytes of the value-tag field.
pub const WAL_TYPE_SIZE: usize = 1;

/// Bytes of the sequence-number field.
pub const WAL_SEQ_SIZE: usize = 8;

/// Bytes of the fixed record header.
pub const WAL_HEADER_SIZE: usize = 21;

/// Bytes of the key-length field at the front of the payload.
pub const WAL_KEY_LEN_SIZE: usize = 8;

/// Bytes of the expiry timestamp at the front of an expiring value
/// section.
pub const WAL_EXPIRE_LEN_SIZE: usize = 8;

/// Largest key a reader accepts; a guard against corrupt headers.
pub const WAL_MAX_KEY_SIZE: u64 = 1024 * 1024;

/// Largest value section a reader accepts; a guard against corrupt
/// headers.
pub const WAL_MAX_VAL_SIZE: u64 = 64 * 1024 * 1024;

/// The CRC32 (IEEE polynomial) of a byte string, as `crc32fast`
/// computes it: a pure function of the bytes.
pub uninterp spec fn crc32_of(data: Seq<u8>) -> u32;

/// Relies on `crc32fast::hash`: the CRC32 of a byte slice, determined
/// by the bytes alone.
#[verifier::external_body]
pub(crate) fn crc32(data: &[u8]) -> (r: u32)
    ensures
        r == crc32_of(data@),
{
    crc32fast::hash(data)
}

/// The value section of a record: empty for a tombstone, the raw bytes
/// for a normal value, the expiry timestamp then the bytes for an
/// expiring value.
pub open spec fn spec_value_section(v: ValueView) -> Seq<u8> {
    match v {
        ValueView::Normal(data) => data,
        ValueView::Tombstone => Seq::empty(),
        ValueView::Expiring { data, expire_at } => spec_u64_be(expire_at) + data,
    }
}

/// Whether a record for `e` can be laid out at all: its payload length
/// must fit the 8-byte field.
pub open spec fn spec_record_fits(e: EntryView) -> bool {
    8 + e.key.len() + spec_value_len(e.val) <= u64::MAX
}

/// The payload-length field of a record for `e`: key-length field,
/// key, and value section.
pub open spec fn spec_payload_len(e: EntryView) -> u64 {
    (8 + e.key.len() + spec_value_len(e.val)) as u64
}

/// The bytes the CRC covers: payload length, tag, sequence number, key
/// length, key, and value section, in that order.
pub open spec fn spec_record_covered(e: EntryView) -> Seq<u8> {
    spec_u64_be(spec_payload_len(e)) + seq![spec_type_tag(e.val)] + spec_u64_be(e.seq)
        + spec_u64_be(e.key.len() as u64) + e.key + spec_value_section(e.val)
}

/// The full encoding of a record: the CRC over the covered bytes,
/// then the covered bytes.
pub open spec fn spec_record(e: EntryView) -> Seq<u8> {
    spec_u32_be(crc32_of(spec_record_covered(e))) + spec_record_covered(e)
}

/// Errors of the WAL layer, each tagged with the name of the log file
/// it arose in.
#[derive(Debug, PartialEq)]
pub enum WalError {
    /// Reading or decoding the named file failed.
    Read { path: Vec<u8>, source: reader::ReadError },
}

/// The name of WAL file `file_id`: its decimal digits zero-padded to
/// at least nine, followed by `.wal`.
pub open spec fn spec_wal_file_name(file_id: u64) -> Seq<u8> {
    let digits = spec_dec_digits(file_id);
    let padded = if digits.len() >= 9 {
        digits
    } else {
        Seq::new((9 - digits.len()) as nat, |i: int| 48u8) + digits
    };
    padded + seq![46u8, 119u8, 97u8, 108u8]
}

/// The file name under which WAL file `file_id` is stored: nine-digit
/// zero-padded decimal digits and the `.wal` extension, as ASCII bytes.
pub fn wal_file_name(file_id: u64) -> (r: Vec<u8>)
    ensures
        r@ == spec_wal_file_name(file_id),
{
    let n = count_dec_digits(file_id);
    let mut r: Vec<u8> = Vec::new();
    let mut i = n;
    while i < 9
        invariant
            n <= i <= 9 || (n > 9 && i == n),
            i >= n,
            n == spec_dec_digits(file_id).len(),
            r@ == Seq::new((i - n) as nat, |k: int| 48u8),
        decreases 9 - i,
    {
        r.push(48);
        assert(r@ =~= Seq::new((i + 1 - n) as nat, |k: int| 48u8));
        i = i + 1;
    }
    push_dec_digits(&mut r, file_id);
    r.push(46);
    r.push(119);
    r.push(97);
    r.push(108);
    assert(r@ =~= spec_wal_file_name(file_id));
    r
}

/// Whether `b` is an ASCII decimal digit.
pub open spec fn spec_is_digit(b: u8) -> bool {
    48 <= b <= 57
}

/// The numeric value of a string of ASCII digits.
pub open spec fn spec_dec_val(s: Seq<u8>) -> int
    decreases s.len(),
{
    if s.len() == 0 {
        0
    } else {
        spec_dec_val(s.drop_last()) * 10 + (s.last() as int - 48)
    }
}

proof fn lemma_dec_val_nonneg(s: Seq<u8>)
    requires
        forall|i: int| 0 <= i < s.len() ==> spec_is_digit(#[trigger] s[i]),
    ensures
        spec_dec_val(s) >= 0,
    decreases s.len(),
{
    if s.len() > 0 {
        assert(forall|i: int| 0 <= i < s.drop_last().len() ==> #[trigger] s.drop_last()[i] == s[i]);
        lemma_dec_val_nonneg(s.drop_last());
    }
}

proof fn lemma_dec_val_take_le(s: Seq<u8>, i: int)
    requires
        forall|k: int| 0 <= k < s.len() ==> spec_is_digit(#[trigger] s[k]),
        0 <= i <= s.len(),
    ensures
        spec_dec_val(s.take(i)) <= spec_dec_val(s),
    decreases s.len() - i,
{
    if i < s.len() {
        assert(s.take(i + 1).drop_last() =~= s.take(i));
        assert(s.take(i + 1).last() == s[i]);
        assert(forall|k: int| 0 <= k < i ==> #[trigger] s.take(i)[k] == s[k]);
        lemma_dec_val_nonneg(s.take(i));
        assert(spec_dec_val(s.take(i + 1)) == spec_dec_val(s.take(i)) * 10 + (s[i] as int - 48));
        assert(spec_dec_val(s.take(i)) <= spec_dec_val(s.take(i + 1)));
        lemma_dec_val_take_le(s, i + 1);
        assert(s.take(s.len() as int) =~= s);
    } else {
        assert(s.take(s.len() as int) =~= s);
    }
}

/// Whether `name` names a WAL file a recovery scan accepts: a
/// non-empty decimal stem whose value fits a `u64`, and the `.wal`
/// extension.
pub open spec fn spec_valid_wal_name(name: Seq<u8>) -> bool {
    &&& name.len() >= 5
    &&& name.subrange(name.len() - 4, name.len() as int) == seq![46u8, 119u8, 97u8, 108u8]
    &&& forall|i: int| 0 <= i < name.len() - 4 ==> spec_is_digit(#[trigger] name[i])
    &&& spec_dec_val(name.subrange(0, name.len() - 4)) <= u64::MAX
}

/// Parses a file name into a WAL file id: the decimal value of the
/// stem of a `{digits}.wal` name. Names of any other shape, and stems
/// whose value exceeds `u64`, are not WAL files and yield `None`.
pub fn parse_wal_file_id(name: &[u8]) -> (r: Option<u64>)
    ensures
        match r {
            Some(id) => spec_valid_wal_name(name@) && id == spec_dec_val(
                name@.subrange(0, name@.len() - 4),
            ),
            None => !spec_valid_wal_name(name@),
        },
{
    let len = name.len();
    if len < 5 {
        return None;
    }
    if name[len - 4] != 46 || name[len - 3] != 119 || name[len - 2] != 97 || name[len - 1] != 108 {
        proof {
            let ext = name@.subrange(name@.len() - 4, name@.len() as int);
            assert(ext[0] == name@[name@.len() - 4] && ext[1] == name@[name@.len() - 3] && ext[2]
                == name@[name@.len() - 2] && ext[3] == name@[name@.len() - 1]);
        }
        return None;
    }
    proof {
        assert(name@.subrange(name@.len() - 4, name@.len() as int) =~= seq![
            46u8,
            119u8,
            97u8,
            108u8,
        ]);
    }
    let stem_len = len - 4;
    let ghost stem = name@.subrange(0, name@.len() - 4);
    let mut acc: u64 = 0;
    let mut i: usize = 0;
    while i < stem_len
        invariant
            0 <= i <= stem_len,
            stem_len == name@.len() - 4,
            name@.len() >= 5,
            stem == name@.subrange(0, name@.len() - 4),
            name@.subrange(name@.len() - 4, name@.len() as int) == seq![46u8, 119u8, 97u8, 108u8],
            forall|k: int| 0 <= k < i ==> spec_is_digit(#[trigger] stem[k]),
            acc == spec_dec_val(stem.take(i as int)),
        decreases stem_len - i,
    {
        let b = name[i];
        proof {
            assert(stem[i as int] == name@[i as int]);
        }
        if b < 48 || b > 57 {
            return None;
        }
        let d = (b - 48) as u64;
        proof {
            assert(stem.take(i + 1).drop_last() =~= stem.take(i as int));
            assert(stem.take(i + 1).last() == stem[i as int]);
        }
        let next = match acc.checked_mul(10) {
            Some(t) => t.checked_add(d),
            None => None,
        };
        match next {
            Some(v) => {
                acc = v;
            },
            None => {
                proof {
                    assert(spec_dec_val(stem.take(i + 1)) > u64::MAX);
                    assert(forall|k: int| 0 <= k < i + 1 ==> spec_is_digit(#[trigger] stem[k]));
                    if spec_valid_wal_name(name@) {
                        lemma_dec_val_take_le(stem, i + 1);
                    }
                }
                return None;
            },
        }
        i = i + 1;
    }
    proof {
        assert(stem.take(stem.len() as int) =~= stem);
        assert forall|k: int| 0 <= k < name@.len() - 4 implies spec_is_digit(
            #[trigger] name@[k],
        ) by {
            assert(stem[k] == name@[k]);
        };
    }
    Some(acc)
}

proof fn lemma_dec_digits_are_digits(v: u64)
    ensures
        forall|i: int|
            0 <= i < spec_dec_digits(v).len() ==> spec_is_digit(#[trigger] spec_dec_digits(v)[i]),
    decreases v,
{
    if v >= 10 {
        lemma_dec_digits_are_digits(v / 10);
        let d = spec_dec_digits(v);
        let front = spec_dec_digits(v / 10);
        assert forall|i: int| 0 <= i < d.len() implies spec_is_digit(#[trigger] d[i]) by {
            if i < front.len() {
                assert(d[i] == front[i]);
            } else {
                assert(d[i] == ((48 + v % 10) as u8));
            }
        };
    }
}

proof fn lemma_dec_digits_val(v: u64)
    ensures
        spec_dec_val(spec_dec_digits(v)) == v,
    decreases v,
{
    if v < 10 {
        assert(spec_dec_val(Seq::<u8>::empty()) == 0);
        assert(spec_dec_digits(v).drop_last() =~= Seq::<u8>::empty());
        assert(spec_dec_digits(v).last() == ((48 + v) as u8));
    } else {
        lemma_dec_digits_val(v / 10);
        assert(spec_dec_digits(v).drop_last() =~= spec_dec_digits(v / 10));
        assert(spec_dec_digits(v).last() == ((48 + v % 10) as u8));
        assert((v / 10) * 10 + v % 10 == v) by (nonlinear_arith);
        assert(spec_dec_val(spec_dec_digits(v)) == spec_dec_val(spec_dec_digits(v / 10)) * 10 + (
        v % 10));
    }
}

proof fn lemma_dec_val_zeros(n: nat)
    ensures
        spec_dec_val(Seq::new(n, |i: int| 48u8)) == 0,
    decreases n,
{
    if n > 0 {
        lemma_dec_val_zeros((n - 1) as nat);
        assert(Seq::new(n, |i: int| 48u8).drop_last() =~= Seq::new((n - 1) as nat, |i: int| 48u8));
    }
}

proof fn lemma_dec_val_zero_prefix(n: nat, d: Seq<u8>)
    ensures
        spec_dec_val(Seq::new(n, |i: int| 48u8) + d) == spec_dec_val(d),
    decreases d.len(),
{
    let z = Seq::new(n, |i: int| 48u8);
    if d.len() == 0 {
        assert(z + d =~= z);
        lemma_dec_val_zeros(n);
    } else {
        lemma_dec_val_zero_prefix(n, d.drop_last());
        assert((z + d).drop_last() =~= z + d.drop_last());
        assert((z + d).last() == d.last());
    }
}

/// WAL file names round-trip: the name written for `file_id` is
/// accepted by the recovery scan, and its stem parses back to
/// `file_id`.
pub proof fn lemma_wal_file_name_round_trip(file_id: u64)
    ensures
        spec_valid_wal_name(spec_wal_file_name(file_id)),
        spec_dec_val(
            spec_wal_file_name(file_id).subrange(0, spec_wal_file_name(file_id).len() - 4),
        ) == file_id,
{
    let digits = spec_dec_digits(file_id);
    let name = spec_wal_file_name(file_id);
    lemma_dec_digits_len(file_id);
    lemma_dec_digits_are_digits(file_id);
    lemma_dec_digits_val(file_id);
    let padded = if digits.len() >= 9 {
        digits
    } else {
        Seq::new((9 - digits.len()) as nat, |i: int| 48u8) + digits
    };
    assert(name.subrange(name.len() - 4, name.len() as int) =~= seq![46u8, 119u8, 97u8, 108u8]);
    assert(name.subrange(0, name.len() - 4) =~= padded);
    if digits.len() < 9 {
        lemma_dec_val_zero_prefix((9 - digits.len()) as nat, digits);
    }
    assert(forall|i: int| 0 <= i < padded.len() ==> spec_is_digit(#[trigger] padded[i]));
}

/// One WAL file as recovery sees it: its numeric id and its bytes.
pub struct WalFile {
    /// The id parsed from the file's name.
    pub file_id: u64,
    /// The file's contents.
    pub data: Vec<u8>,
}

/// The entries one file contributes to recovery: those its records
/// hold with sequence number at least `min_seq`, in file order; a file
/// that fails to parse contributes nothing.
pub open spec fn spec_file_kept(data: Seq<u8>, min_seq: u64) -> Seq<EntryView> {
    match reader::spec_wal_entries(data, 0) {
        reader::FileParse::Entries(es, _) => es.filter(reader::spec_keep(min_seq)),
        reader::FileParse::Failed(_) => Seq::empty(),
    }
}

/// All entries the given files contribute to recovery, file by file.
pub open spec fn spec_kept_concat(files: Seq<WalFile>, min_seq: u64) -> Seq<EntryView>
    decreases files.len(),
{
    if files.len() == 0 {
        Seq::empty()
    } else {
        spec_kept_concat(files.drop_last(), min_seq) + spec_file_kept(
            files.last().data@,
            min_seq,
        )
    }
}

/// Every file parses without corruption (a torn tail counts as a
/// clean parse).
pub open spec fn spec_all_parse_ok(files: Seq<WalFile>) -> bool {
    forall|i: int|
        0 <= i < files.len() ==> reader::spec_wal_entries(#[trigger] files[i].data@, 0)
            is Entries
}

/// Replays the given WAL files: keeps every entry with sequence number
/// at least `min_seq`, and returns them sorted by sequence number
/// together with the largest kept sequence number (zero when nothing
/// was kept). A torn tail ends its file quietly; any other error
/// aborts recovery, reported for the failing file with the smallest
/// id, under that file's name.
pub fn recover_entries(files: &[WalFile], min_seq: u64) -> (r: Result<
    (Vec<Entry>, u64),
    WalError,
>)
    ensures
        (r is Ok) == spec_all_parse_ok(files@),
        match r {
            Ok((es, maxs)) => {
                &&& views_of(es@).to_multiset() == spec_kept_concat(
                    files@,
                    min_seq,
                ).to_multiset()
                &&& forall|i: int, j: int| 0 <= i < j < es@.len() ==> es@[i]@.seq <= es@[j]@.seq
                &&& forall|i: int| 0 <= i < es@.len() ==> #[trigger] es@[i]@.seq <= maxs
                &&& (es@.len() == 0 ==> maxs == 0)
                &&& (es@.len() > 0 ==> exists|i: int|
                    0 <= i < es@.len() && #[trigger] es@[i]@.seq == maxs)
            },
            Err(e) => match e {
                WalError::Read { path, source } => exists|k: int|
                    {
                        &&& 0 <= k < files@.len()
                        &&& path@ == spec_wal_file_name(#[trigger] files@[k].file_id)
                        &&& reader::spec_wal_entries(files@[k].data@, 0)
                            == reader::FileParse::Failed(source)
                        &&& forall|m: int|
                            0 <= m < files@.len() && (reader::spec_wal_entries(
                                #[trigger] files@[m].data@,
                                0,
                            ) is Failed) ==> files@[m].file_id >= files@[k].file_id
                    },
            },
        },
{
    let n = files.len();
    let mut all: Vec<Entry> = Vec::new();
    let mut failed: Option<(u64, reader::ReadError)> = None;
    let mut i: usize = 0;
    while i < n
        invariant
            0 <= i <= n,
            n == files@.len(),
            views_of(all@) == spec_kept_concat(files@.take(i as int), min_seq),
            match failed {
                None => forall|k: int|
                    0 <= k < i ==> reader::spec_wal_entries(#[trigger] files@[k].data@, 0)
                        is Entries,
                Some((id, err)) => {
                    &&& exists|k: int|
                        0 <= k < i && #[trigger] files@[k].file_id == id
                            && reader::spec_wal_entries(files@[k].data@, 0)
                            == reader::FileParse::Failed(err)
                    &&& forall|k: int|
                        0 <= k < i && (reader::spec_wal_entries(#[trigger] files@[k].data@, 0)
                            is Failed) ==> files@[k].file_id >= id
                },
            },
        decreases n - i,
    {
        let f = &files[i];
        let ghost pre_all = all@;
        match reader::read_file_entries(f.data.as_slice(), min_seq) {
            Ok(mut es) => {
                let ghost esv = es@;
                all.append(&mut es);
                proof {
                    assert(files@.take(i + 1).drop_last() =~= files@.take(i as int));
                    assert(files@.take(i + 1).last() == files@[i as int]);
                    assert(views_of(all@) =~= views_of(pre_all) + views_of(esv)) by {
                        assert forall|k: int| 0 <= k < all@.len() implies views_of(all@)[k] == (
                        views_of(pre_all) + views_of(esv))[k] by {
                            assert(views_of(all@)[k] == all@[k]@);
                        };
                    };
                }
            },
            Err(e) => {
                proof {
                    assert(files@.take(i + 1).drop_last() =~= files@.take(i as int));
                    assert(files@.take(i + 1).last() == files@[i as int]);
                    assert(spec_file_kept(files@[i as int].data@, min_seq)
                        =~= Seq::<EntryView>::empty());
                    assert(views_of(all@) =~= views_of(all@) + Seq::<EntryView>::empty());
                }
                match failed {
                    None => {
                        failed = Some((f.file_id, e));
                    },
                    Some((bid, _)) => {
                        if f.file_id < bid {
                            failed = Some((f.file_id, e));
                        }
                    },
                }
            },
        }
        i = i + 1;
    }
    proof {
        assert(files@.take(n as int) =~= files@);
    }
    match failed {
        None => {
            let m = all.len();
            let mut maxs: u64 = 0;
            let mut j: usize = 0;
            while j < m
                invariant
                    0 <= j <= m,
                    m == all@.len(),
                    j == 0 ==> maxs == 0,
                    forall|k: int| 0 <= k < j ==> #[trigger] all@[k]@.seq <= maxs,
                    j > 0 ==> exists|k: int| 0 <= k < j && #[trigger] all@[k]@.seq == maxs,
                decreases m - j,
            {
                let s = all[j].seq;
                if s > maxs {
                    maxs = s;
                }
                proof {
                    if s == maxs {
                        assert(all@[j as int]@.seq == maxs);
                    } else {
                        assert(j > 0 && maxs != 0);
                    }
                }
                j = j + 1;
            }
            let ghost pre = views_of(all@);
            proof {
                assert forall|k: int| 0 <= k < pre.len() implies #[trigger] pre[k].seq <= maxs by {
                    assert(pre[k] == all@[k]@);
                };
                if pre.len() > 0 {
                    let k0 = choose|k: int| 0 <= k < all@.len() && #[trigger] all@[k]@.seq == maxs;
                    assert(pre[k0] == all@[k0]@);
                    assert(pre[k0].seq == maxs);
                }
            }
            sort_entries_by_seq(&mut all);
            proof {
                broadcast use vstd::seq_lib::group_to_multiset_ensures;

                let post = views_of(all@);
                assert forall|k: int| 0 <= k < all@.len() implies #[trigger] all@[k]@.seq
                    <= maxs by {
                    assert(post[k] == all@[k]@);
                    assert(post.contains(post[k]));
                    assert(post.to_multiset().count(post[k]) > 0);
                    assert(pre.to_multiset().count(post[k]) > 0);
                    assert(pre.contains(post[k]));
                    let w = choose|w: int| 0 <= w < pre.len() && pre[w] == post[k];
                    assert(pre[w].seq <= maxs);
                };
                if all@.len() > 0 {
                    let k0 = choose|k: int| 0 <= k < pre.len() && #[trigger] pre[k].seq == maxs;
                    assert(pre.contains(pre[k0]));
                    assert(pre.to_multiset().count(pre[k0]) > 0);
                    assert(post.to_multiset().count(pre[k0]) > 0);
                    assert(post.contains(pre[k0]));
                    let w = choose|w: int| 0 <= w < post.len() && post[w] == pre[k0];
                    assert(all@[w]@ == post[w]);
                    assert(all@[w]@.seq == maxs);
                }
            }
            Ok((all, maxs))
        },
        Some((id, err)) => {
            let path = wal_file_name(id);
            Err(WalError::Read { path, source: err })
        },
    }
}

/// Whether a record for `e` is within the reader's sanity limits.
pub open spec fn spec_within_limits(e: EntryView) -> bool {
    e.key.len() <= WAL_MAX_KEY_SIZE && spec_value_len(e.val) <= WAL_MAX_VAL_SIZE
}

/// Reading at a position where a full record for `e` is laid out, with
/// anything after it, yields `e` and stops right after the record.
#[verifier::rlimit(100)]
#[verifier::spinoff_prover]
pub proof fn lemma_record_step_at(data: Seq<u8>, pos: int, e: EntryView)
    requires
        0 <= pos,
        pos + spec_record(e).len() <= data.len(),
        data.subrange(pos, pos + spec_record(e).len() as int) == spec_record(e),
        spec_within_limits(e),
    ensures
        spec_record(e).len() == 29 + e.key.len() + spec_value_len(e.val),
        reader::spec_record_step(data, pos) == reader::RecordStep::Rec(
            e,
            pos + spec_record(e).len(),
        ),
{
    let rec = spec_record(e);
    let cov = spec_record_covered(e);
    let klen = e.key.len() as int;
    let vslen = spec_value_len(e.val) as int;
    let vs = spec_value_section(e.val);
    assert(vs.len() == vslen);
    assert(cov.len() == 25 + klen + vslen);
    assert(rec.len() == 29 + klen + vslen);
    assert(forall|j: int| 0 <= j < rec.len() ==> data[pos + j] == #[trigger] rec[j]) by {
        assert(forall|j: int|
            0 <= j < rec.len() ==> #[trigger] rec[j] == data.subrange(
                pos,
                pos + rec.len() as int,
            )[j]);
    };
    let crc_val = crc32_of(cov);
    lemma_u32_be_roundtrip(crc_val);
    lemma_u64_be_roundtrip(spec_payload_len(e));
    lemma_u64_be_roundtrip(e.seq);
    lemma_u64_be_roundtrip(e.key.len() as u64);
    assert(rec.subrange(0, 4) =~= spec_u32_be(crc_val));
    assert(rec.subrange(4, 12) =~= spec_u64_be(spec_payload_len(e)));
    assert(rec[12] == spec_type_tag(e.val));
    assert(rec.subrange(13, 21) =~= spec_u64_be(e.seq));
    assert(rec.subrange(21, 29) =~= spec_u64_be(e.key.len() as u64));
    assert(rec.subrange(29, 29 + klen) =~= e.key);
    assert(rec.subrange(29 + klen, 29 + klen + vslen) =~= vs);
    assert(rec.subrange(4, 29 + klen + vslen) =~= cov);
    assert(data.subrange(pos, pos + 4) =~= rec.subrange(0, 4));
    assert(data.subrange(pos + 4, pos + 12) =~= rec.subrange(4, 12));
    assert(data[pos + 12] == rec[12]);
    assert(data.subrange(pos + 13, pos + 21) =~= rec.subrange(13, 21));
    assert(data.subrange(pos + 21, pos + 29) =~= rec.subrange(21, 29));
    assert(data.subrange(pos + 29, pos + 29 + klen) =~= rec.subrange(29, 29 + klen));
    assert(data.subrange(pos + 29 + klen, pos + 29 + klen + vslen) =~= rec.subrange(
        29 + klen,
        29 + klen + vslen,
    ));
    assert(data.subrange(pos + 4, pos + 29 + klen + vslen) =~= rec.subrange(
        4,
        29 + klen + vslen,
    ));
    let plen = spec_payload_len(e);
    assert(plen == 8 + klen + vslen);
    assert(reader::spec_wrap_sub(reader::spec_wrap_sub(plen, 8), e.key.len() as u64)
        == vslen as u64);
    match e.val {
        ValueView::Normal(d) => {
            assert(vs == d);
        },
        ValueView::Tombstone => {},
        ValueView::Expiring { data: d, expire_at } => {
            lemma_u64_be_roundtrip(expire_at);
            assert(vs.subrange(0, 8) =~= spec_u64_be(expire_at));
            assert(vs.skip(8) =~= d);
        },
    }
}

/// A WAL record round-trips: reading the encoding of any entry whose
/// key and value section are within the reader's limits yields the
/// entry back, consuming the whole record.
pub proof fn lemma_record_round_trip(e: EntryView)
    requires
        spec_within_limits(e),
    ensures
        spec_record(e).len() == 29 + e.key.len() + spec_value_len(e.val),
        reader::spec_record_step(spec_record(e), 0) matches reader::RecordStep::Rec(e2, p2)
            && e2 == e && p2 == spec_record(e).len(),
{
    let rec = spec_record(e);
    assert(rec.subrange(0, rec.len() as int) =~= rec);
    lemma_record_step_at(rec, 0, e);
}

/// Reading at a position where only a proper, non-empty prefix of a
/// record remains — the input ends inside the record — reports a torn
/// record.
#[verifier::rlimit(60)]
pub proof fn lemma_record_step_torn(data: Seq<u8>, pos: int, e: EntryView, m: int)
    requires
        0 <= pos,
        0 < m < spec_record(e).len(),
        pos + m == data.len(),
        data.subrange(pos, pos + m) == spec_record(e).take(m),
        spec_within_limits(e),
    ensures
        reader::spec_record_step(data, pos) == reader::RecordStep::Torn,
{
    let rec = spec_record(e);
    let cov = spec_record_covered(e);
    let klen = e.key.len() as int;
    let vslen = spec_value_len(e.val) as int;
    let vs = spec_value_section(e.val);
    assert(vs.len() == vslen);
    assert(cov.len() == 25 + klen + vslen);
    assert(rec.len() == 29 + klen + vslen);
    assert forall|j: int| 0 <= j < m implies data[pos + j] == #[trigger] rec[j] by {
        assert(data.subrange(pos, pos + m)[j] == rec.take(m)[j]);
    };
    if m >= 29 {
        lemma_u64_be_roundtrip(spec_payload_len(e));
        lemma_u64_be_roundtrip(e.key.len() as u64);
        assert(rec.subrange(4, 12) =~= spec_u64_be(spec_payload_len(e)));
        assert(rec.subrange(21, 29) =~= spec_u64_be(e.key.len() as u64));
        assert(data.subrange(pos + 4, pos + 12) =~= rec.subrange(4, 12));
        assert(data.subrange(pos + 21, pos + 29) =~= rec.subrange(21, 29));
        let plen = spec_payload_len(e);
        assert(plen == 8 + klen + vslen);
        assert(reader::spec_wrap_sub(reader::spec_wrap_sub(plen, 8), e.key.len() as u64)
            == vslen as u64);
    }
}

/// The concatenated encoding of a sequence of records.
pub open spec fn spec_records(es: Seq<EntryView>) -> Seq<u8>
    decreases es.len(),
{
    if es.len() == 0 {
        Seq::empty()
    } else {
        spec_record(es[0]) + spec_records(es.drop_first())
    }
}

/// Every entry of `es` is within the reader's limits.
pub open spec fn spec_all_within_limits(es: Seq<EntryView>) -> bool {
    forall|i: int| 0 <= i < es.len() ==> spec_within_limits(#[trigger] es[i])
}

/// The encoding of `es` splits at its last record.
pub proof fn lemma_records_split_last(es: Seq<EntryView>)
    requires
        es.len() >= 1,
    ensures
        spec_records(es) == spec_records(es.drop_last()) + spec_record(es.last()),
    decreases es.len(),
{
    if es.len() == 1 {
        assert(es.drop_last() =~= Seq::<EntryView>::empty());
        assert(es.drop_first() =~= Seq::<EntryView>::empty());
        assert(spec_records(es.drop_last()) + spec_record(es.last()) =~= spec_record(es[0])
            + spec_records(es.drop_first()));
    } else {
        lemma_records_split_last(es.drop_first());
        assert(es.drop_first().drop_last() =~= es.drop_last().drop_first());
        assert(es.drop_first().last() == es.last());
        assert(es.drop_last()[0] == es[0]);
        assert(es.drop_last().len() >= 1);
        assert(spec_records(es) =~= spec_records(es.drop_last()) + spec_record(es.last())) by {
            assert(spec_records(es) == spec_record(es[0]) + spec_records(es.drop_first()));
            assert(spec_records(es.drop_first()) == spec_records(es.drop_first().drop_last())
                + spec_record(es.last()));
            assert(spec_records(es.drop_last()) == spec_record(es[0]) + spec_records(
                es.drop_last().drop_first(),
            ));
        };
    }
}

/// Reading input that holds exactly the records of `es` yields `es`
/// with a clean end.
pub proof fn lemma_parse_records_clean(data: Seq<u8>, pos: int, es: Seq<EntryView>)
    requires
        0 <= pos <= data.len(),
        spec_all_within_limits(es),
        data.subrange(pos, data.len() as int) == spec_records(es),
    ensures
        reader::spec_wal_entries(data, pos) == reader::FileParse::Entries(es, false),
    decreases es.len(),
{
    if es.len() == 0 {
        assert(spec_records(es) == Seq::<u8>::empty());
        assert(data.len() - pos == 0);
        assert(es =~= Seq::<EntryView>::empty());
    } else {
        let r0 = spec_record(es[0]);
        let rest = spec_records(es.drop_first());
        assert(spec_records(es) == r0 + rest);
        assert(spec_records(es).len() == r0.len() + rest.len());
        assert(data.len() - pos == r0.len() + rest.len());
        assert(data.subrange(pos, pos + r0.len() as int) =~= r0) by {
            assert forall|j: int| 0 <= j < r0.len() implies data.subrange(
                pos,
                pos + r0.len() as int,
            )[j] == r0[j] by {
                assert(data[pos + j] == data.subrange(pos, data.len() as int)[j]);
                assert(spec_records(es)[j] == r0[j]);
            };
        };
        lemma_record_step_at(data, pos, es[0]);
        let p2 = pos + r0.len() as int;
        assert(data.subrange(p2, data.len() as int) =~= rest) by {
            assert forall|j: int| 0 <= j < rest.len() implies data.subrange(
                p2,
                data.len() as int,
            )[j] == rest[j] by {
                assert(data[p2 + j] == data.subrange(pos, data.len() as int)[r0.len() + j]);
                assert(spec_records(es)[r0.len() + j] == rest[j]);
            };
        };
        lemma_parse_records_clean(data, p2, es.drop_first());
        assert(seq![es[0]] + es.drop_first() =~= es);
    }
}

/// Reading input that holds the records of `es` and then a proper,
/// non-empty prefix of one more record yields `es` with the torn flag.
pub proof fn lemma_parse_records_torn(
    data: Seq<u8>,
    pos: int,
    es: Seq<EntryView>,
    x: EntryView,
    m: int,
)
    requires
        0 <= pos <= data.len(),
        spec_all_within_limits(es),
        spec_within_limits(x),
        0 < m < spec_record(x).len(),
        data.subrange(pos, data.len() as int) == spec_records(es) + spec_record(x).take(m),
    ensures
        reader::spec_wal_entries(data, pos) == reader::FileParse::Entries(es, true),
    decreases es.len(),
{
    let suffix = spec_records(es) + spec_record(x).take(m);
    assert(suffix.len() == spec_records(es).len() + m);
    assert(data.len() - pos == suffix.len());
    if es.len() == 0 {
        assert(spec_records(es) == Seq::<u8>::empty());
        assert(data.subrange(pos, pos + m) =~= spec_record(x).take(m)) by {
            assert forall|j: int| 0 <= j < m implies data.subrange(pos, pos + m)[j]
                == spec_record(x).take(m)[j] by {
                assert(data[pos + j] == data.subrange(pos, data.len() as int)[j]);
                assert(suffix[j] == spec_record(x).take(m)[j]);
            };
        };
        lemma_record_step_torn(data, pos, x, m);
        assert(es =~= Seq::<EntryView>::empty());
    } else {
        let r0 = spec_record(es[0]);
        let rest = spec_records(es.drop_first()) + spec_record(x).take(m);
        assert(spec_records(es) == r0 + spec_records(es.drop_first()));
        assert(spec_records(es).len() == r0.len() + spec_records(es.drop_first()).len());
        assert(rest.len() == spec_records(es.drop_first()).len() + m);
        assert(data.subrange(pos, pos + r0.len() as int) =~= r0) by {
            assert forall|j: int| 0 <= j < r0.len() implies data.subrange(
                pos,
                pos + r0.len() as int,
            )[j] == r0[j] by {
                assert(data[pos + j] == data.subrange(pos, data.len() as int)[j]);
                assert(suffix[j] == spec_records(es)[j]);
                assert(spec_records(es)[j] == r0[j]);
            };
        };
        lemma_record_step_at(data, pos, es[0]);
        let p2 = pos + r0.len() as int;
        assert(data.subrange(p2, data.len() as int) =~= rest) by {
            assert forall|j: int| 0 <= j < rest.len() implies data.subrange(
                p2,
                data.len() as int,
            )[j] == rest[j] by {
                assert(data[p2 + j] == data.subrange(pos, data.len() as int)[r0.len() + j]);
                assert(suffix[r0.len() + j] == rest[j]) by {
                    if r0.len() + j < spec_records(es).len() {
                        assert(spec_records(es)[r0.len() + j] == spec_records(es.drop_first())[j]);
                    }
                };
            };
        };
        lemma_parse_records_torn(data, p2, es.drop_first(), x, m);
        assert(seq![es[0]] + es.drop_first() =~= es);
    }
}

/// Torn-tail tolerance: write any records and truncate the log
/// anywhere from the end of the next-to-last record to just short of
/// the end — reading yields exactly the records before the last one,
/// with no error; the torn flag is raised exactly when part of the
/// last record remains.
pub proof fn lemma_torn_tail_tolerance(es: Seq<EntryView>, cut: int)
    requires
        es.len() >= 1,
        spec_all_within_limits(es),
        spec_records(es.drop_last()).len() <= cut < spec_records(es).len(),
    ensures
        reader::spec_wal_entries(spec_records(es).take(cut), 0) == reader::FileParse::Entries(
            es.drop_last(),
            cut > spec_records(es.drop_last()).len(),
        ),
{
    let front = es.drop_last();
    let last = es.last();
    lemma_records_split_last(es);
    let pl = spec_records(front).len() as int;
    let data = spec_records(es).take(cut);
    assert(spec_all_within_limits(front)) by {
        assert(forall|i: int|
            0 <= i < front.len() ==> #[trigger] front[i] == es[i] && spec_within_limits(es[i]));
    };
    assert(spec_within_limits(last));
    if cut == pl {
        assert(data =~= spec_records(front));
        assert(data.subrange(0, data.len() as int) =~= spec_records(front));
        lemma_parse_records_clean(data, 0, front);
    } else {
        let m = cut - pl;
        assert(data.subrange(0, data.len() as int) =~= spec_records(front) + spec_record(
            last,
        ).take(m)) by {
            assert(forall|j: int|
                0 <= j < pl ==> #[trigger] data[j] == spec_records(es)[j] && spec_records(es)[j]
                    == spec_records(front)[j]);
            assert(forall|j: int|
                pl <= j < cut ==> #[trigger] data[j] == spec_records(es)[j] && spec_records(es)[j]
                    == spec_record(last)[j - pl]);
        };
        lemma_parse_records_torn(data, 0, front, last, m);
    }
}

} // verus!
