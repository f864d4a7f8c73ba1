//! Encoding and decoding of SSTable building blocks: the base-128
//! variable-length integer codec, `BlockHandle`, and `Footer`.

use vstd::prelude::*;

use crate::byteops::{
    lemma_u64_be_roundtrip, push_u64_be, read_u64_be, spec_u64_be, spec_u64_be_val,
};
use crate::sstable::{SSTableError, FOOTER_SIZE, MAGIC, MAGIC_SIZE};

verus! {

/// Little-endian base-128 encoding of `v`: each byte carries seven
/// payload bits, the high bit is set on every byte but the last.
pub open spec fn spec_varint(v: u64) -> Seq<u8>
    decreases v,
{
    if v < 128 {
        seq![v as u8]
    } else {
        seq![((v % 128) + 128) as u8] + spec_varint(v / 128)
    }
}

/// How decoding a varint can fail.
pub enum VarintFail {
    /// No input bytes at all.
    EmptyInput,
    /// An eleventh byte was reached with the continuation bit still set.
    TooLong,
    /// The input ended with the continuation bit still set.
    Incomplete,
}

/// Outcome of decoding a varint: the value and the position one past
/// its last byte, or a failure.
pub enum VarintParse {
    Val(u64, int),
    Fail(VarintFail),
}

/// One step at a time, the meaning of the varint decoder: reading at
/// `pos` with `shift` bits already consumed into `acc`.
pub open spec fn varint_parse_from(data: Seq<u8>, pos: int, shift: nat, acc: u64) -> VarintParse
    decreases data.len() - pos,
{
    if pos < 0 || pos >= data.len() {
        if shift == 0 {
            VarintParse::Fail(VarintFail::EmptyInput)
        } else {
            VarintParse::Fail(VarintFail::Incomplete)
        }
    } else if shift >= 64 {
        VarintParse::Fail(VarintFail::TooLong)
    } else {
        let byte = data[pos];
        let acc2 = acc | (((byte & 0x7f) as u64) << shift);
        if byte < 128 {
            VarintParse::Val(acc2, pos + 1)
        } else {
            varint_parse_from(data, pos + 1, (shift + 7) as nat, acc2)
        }
    }
}

/// What decoding a varint that starts at `pos` in `data` yields.
pub open spec fn spec_varint_parse(data: Seq<u8>, pos: int) -> VarintParse {
    varint_parse_from(data, pos, 0, 0)
}

/// Powers of 128, used to bound varint lengths.
pub open spec fn pow128(k: nat) -> nat
    decreases k,
{
    if k == 0 {
        1
    } else {
        128 * pow128((k - 1) as nat)
    }
}

proof fn lemma_varint_len_le(v: u64, k: nat)
    requires
        k >= 1,
        (v as nat) < pow128(k),
    ensures
        spec_varint(v).len() <= k,
    decreases k,
{
    if v >= 128 {
        assert(pow128(k) == 128 * pow128((k - 1) as nat));
        if k == 1 {
            assert(pow128(1) == 128) by {
                reveal_with_fuel(pow128, 2);
            };
            assert(false);
        }
        assert(((v / 128) as nat) < pow128((k - 1) as nat)) by {
            assert((v as nat) < 128 * pow128((k - 1) as nat));
        };
        lemma_varint_len_le(v / 128, (k - 1) as nat);
    }
}

/// Every `u64` encodes to between one and ten varint bytes.
pub proof fn lemma_varint_len_bounds(v: u64)
    ensures
        1 <= spec_varint(v).len() <= 10,
{
    assert(pow128(10) == 0x400000000000000000) by {
        reveal_with_fuel(pow128, 11);
    };
    lemma_varint_len_le(v, 10);
}

/// Decoding an encoded varint embedded in `data` at `pos`, with `shift`
/// bits already consumed, recovers the encoded value.
proof fn lemma_varint_parse_encoding(data: Seq<u8>, pos: int, shift: u64, acc: u64, v: u64)
    requires
        0 <= pos,
        pos + spec_varint(v).len() <= data.len(),
        data.subrange(pos, pos + spec_varint(v).len() as int) == spec_varint(v),
        shift <= 63,
        v <= (u64::MAX >> shift),
    ensures
        varint_parse_from(data, pos, shift as nat, acc) == VarintParse::Val(
            acc | (v << shift),
            pos + spec_varint(v).len(),
        ),
    decreases v,
{
    let enc = spec_varint(v);
    assert(data[pos] == enc[0]);
    if v < 128 {
        assert(enc[0] == v as u8);
        let byte = v as u8;
        assert(byte < 128 && ((byte & 0x7f) as u64) == v) by (bit_vector)
            requires
                v < 128 && byte == v as u8,
        ;
    } else {
        let byte = ((v % 128) + 128) as u8;
        assert(enc[0] == byte);
        let lo = (v % 128) as u64;
        let hi = (v / 128) as u64;
        assert(byte >= 128 && ((byte & 0x7f) as u64) == lo) by (bit_vector)
            requires
                v >= 128 && byte == ((v % 128) + 128) as u8 && lo == (v % 128) as u64,
        ;
        assert(shift <= 56) by (bit_vector)
            requires
                v >= 128 && v <= (u64::MAX >> shift) && shift <= 63,
        ;
        assert(hi <= (u64::MAX >> ((shift + 7) as u64))) by (bit_vector)
            requires
                v <= (u64::MAX >> shift) && shift <= 56 && hi == (v / 128) as u64,
        ;
        let acc2 = acc | (lo << shift);
        let rest = spec_varint(hi);
        assert(enc == seq![byte] + rest);
        assert(data.subrange(pos + 1, pos + 1 + rest.len() as int) == rest) by {
            assert(data.subrange(pos + 1, pos + 1 + rest.len() as int) =~= rest) by {
                assert(forall|j: int|
                    0 <= j < rest.len() ==> data[pos + 1 + j] == enc[1 + j] && enc[1 + j]
                        == rest[j]);
            };
        };
        lemma_varint_parse_encoding(data, pos + 1, (shift + 7) as u64, acc2, hi);
        assert((acc | (lo << shift)) | (hi << ((shift + 7) as u64)) == acc | (v << shift))
            by (bit_vector)
            requires
                shift <= 56 && lo == (v % 128) as u64 && hi == (v / 128) as u64 && v <= (u64::MAX
                    >> shift),
        ;
    }
}

/// Decoding an encoded varint that starts at `pos` in `data` yields the
/// encoded value and stops right after its last byte.
pub proof fn lemma_varint_parse_at(data: Seq<u8>, pos: int, v: u64)
    requires
        0 <= pos,
        pos + spec_varint(v).len() <= data.len(),
        data.subrange(pos, pos + spec_varint(v).len() as int) == spec_varint(v),
    ensures
        spec_varint_parse(data, pos) == VarintParse::Val(v, pos + spec_varint(v).len()),
{
    assert(v <= (u64::MAX >> 0u64)) by (bit_vector);
    lemma_varint_parse_encoding(data, pos, 0, 0, v);
    assert(0u64 | (v << 0u64) == v) by (bit_vector);
}

/// Decoding a varint round-trips: reading back `spec_varint(v)` yields
/// `v` and consumes exactly `spec_varint(v).len()` bytes.
pub proof fn lemma_varint_round_trip(v: u64)
    ensures
        spec_varint_parse(spec_varint(v), 0) == VarintParse::Val(v, spec_varint(v).len() as int),
{
    let enc = spec_varint(v);
    assert(enc.subrange(0, enc.len() as int) =~= enc);
    lemma_varint_parse_at(enc, 0, v);
}

/// Parsing from position `pos + d` behaves as parsing the suffix
/// `data.skip(d)` from position `pos`, with positions shifted by `d`.
proof fn lemma_varint_parse_skip(data: Seq<u8>, d: int, pos: int, shift: nat, acc: u64)
    requires
        0 <= d <= data.len(),
        0 <= pos,
    ensures
        varint_parse_from(data, pos + d, shift, acc) == match varint_parse_from(
            data.skip(d),
            pos,
            shift,
            acc,
        ) {
            VarintParse::Val(v, end) => VarintParse::Val(v, end + d),
            VarintParse::Fail(f) => VarintParse::Fail(f),
        },
    decreases data.len() - pos - d,
{
    if pos + d >= data.len() {
        assert(pos >= data.skip(d).len());
    } else {
        assert(data.skip(d)[pos] == data[pos + d]);
        if shift < 64 && data[pos + d] >= 128 {
            lemma_varint_parse_skip(data, d, pos + 1, (shift + 7) as nat, acc | (((data[pos + d]
                & 0x7f) as u64) << shift));
        }
    }
}

/// A successful varint parse always makes progress and stays inside
/// the input.
pub proof fn lemma_varint_parse_bounds(data: Seq<u8>, pos: int, shift: nat, acc: u64)
    ensures
        varint_parse_from(data, pos, shift, acc) matches VarintParse::Val(_, end) ==> pos < end
            <= data.len(),
    decreases data.len() - pos,
{
    if 0 <= pos < data.len() && shift < 64 && data[pos] >= 128 {
        lemma_varint_parse_bounds(data, pos + 1, (shift + 7) as nat, acc | (((data[pos]
            & 0x7f) as u64) << shift));
    }
}

/// Public form of the suffix lemma, at the start of a varint.
pub proof fn lemma_varint_parse_suffix(data: Seq<u8>, d: int)
    requires
        0 <= d <= data.len(),
    ensures
        spec_varint_parse(data, d) == match spec_varint_parse(data.skip(d), 0) {
            VarintParse::Val(v, end) => VarintParse::Val(v, end + d),
            VarintParse::Fail(f) => VarintParse::Fail(f),
        },
{
    lemma_varint_parse_skip(data, d, 0, 0, 0);
}

proof fn lemma_varint_parse_all_cont(data: Seq<u8>, pos: int, shift: nat, acc: u64)
    requires
        0 <= pos <= data.len(),
        forall|j: int| pos <= j < data.len() ==> data[j] >= 128,
        shift + 7 * (data.len() - pos) < 71,
    ensures
        varint_parse_from(data, pos, shift, acc) == if pos == data.len() && shift == 0 {
            VarintParse::Fail(VarintFail::EmptyInput)
        } else {
            VarintParse::Fail(VarintFail::Incomplete)
        },
    decreases data.len() - pos,
{
    if pos < data.len() {
        assert(shift < 64);
        lemma_varint_parse_all_cont(data, pos + 1, (shift + 7) as nat, acc | (((data[pos]
            & 0x7f) as u64) << shift));
    }
}

proof fn lemma_varint_parse_too_long(data: Seq<u8>, pos: int, shift: nat, acc: u64)
    requires
        0 <= pos,
        shift <= 70,
        shift % 7 == 0,
        pos + (70 - shift) / 7 < data.len(),
        forall|j: int| pos <= j < pos + (70 - shift) / 7 ==> data[j] >= 128,
    ensures
        varint_parse_from(data, pos, shift, acc) == VarintParse::Fail(VarintFail::TooLong),
    decreases 71 - shift,
{
    if shift >= 64 {
    } else {
        assert((70 - shift) / 7 >= 1);
        assert(data[pos] >= 128);
        lemma_varint_parse_too_long(data, pos + 1, (shift + 7) as nat, acc | (((data[pos]
            & 0x7f) as u64) << shift));
    }
}

/// The decoder rejects bad input: an empty slice, a slice made only of
/// continuation bytes, and any input whose first ten bytes all have the
/// continuation bit set (a value needing more than ten bytes).
pub proof fn lemma_varint_rejects_bad_input(data: Seq<u8>)
    ensures
        data.len() == 0 ==> spec_varint_parse(data, 0) == VarintParse::Fail(VarintFail::EmptyInput),
        (1 <= data.len() <= 10 && (forall|j: int| 0 <= j < data.len() ==> data[j] >= 128))
            ==> spec_varint_parse(data, 0) == VarintParse::Fail(VarintFail::Incomplete),
        (data.len() >= 11 && (forall|j: int| 0 <= j < 10 ==> data[j] >= 128))
            ==> spec_varint_parse(data, 0) == VarintParse::Fail(VarintFail::TooLong),
{
    if data.len() == 0 {
        lemma_varint_parse_all_cont(data, 0, 0, 0);
    }
    if 1 <= data.len() <= 10 && (forall|j: int| 0 <= j < data.len() ==> data[j] >= 128) {
        lemma_varint_parse_all_cont(data, 0, 0, 0);
    }
    if data.len() >= 11 && (forall|j: int| 0 <= j < 10 ==> data[j] >= 128) {
        lemma_varint_parse_too_long(data, 0, 0, 0);
    }
}

/// The exact error that the decoders report for each varint failure.
pub open spec fn spec_decode_err(f: VarintFail, e: SSTableError) -> bool {
    match e {
        SSTableError::Decode(m) => match f {
            VarintFail::EmptyInput => m@ == "empty varint data"@,
            VarintFail::TooLong => m@ == "varint too long: exceeds 64 bits"@,
            VarintFail::Incomplete => m@ == "incomplete varint: input ends with continuation bit set"@,
        },
        _ => false,
    }
}

/// Appends the varint encoding of `value` to `buf`.
pub fn encode(value: u64, buf: &mut Vec<u8>)
    ensures
        final(buf)@ == old(buf)@ + spec_varint(value),
{
    let mut v = value;
    let ghost mut done: Seq<u8> = Seq::empty();
    assert(buf@ =~= old(buf)@ + done);
    while v >= 128
        invariant
            buf@ == old(buf)@ + done,
            spec_varint(value) == done + spec_varint(v),
        decreases v,
    {
        let byte = (v as u8) | 0x80;
        assert(byte == ((v % 128) + 128) as u8) by (bit_vector)
            requires
                v >= 128 && byte == (v as u8) | 0x80,
        ;
        buf.push(byte);
        proof {
            done = done + seq![byte];
            assert(spec_varint(value) =~= done + spec_varint(v / 128));
        }
        let next = v >> 7;
        assert(next == v / 128) by (bit_vector)
            requires
                next == v >> 7,
        ;
        v = next;
    }
    buf.push(v as u8);
    assert(spec_varint(v) =~= seq![v as u8]);
    assert(buf@ =~= old(buf)@ + spec_varint(value));
}

/// Decodes a varint from the front of `data`, returning the value and
/// the number of bytes consumed, or the reason the bytes are not a
/// well-formed varint.
pub fn decode(data: &[u8]) -> (r: Result<(u64, usize), SSTableError>)
    ensures
        ({
            let p = spec_varint_parse(data@, 0);
            match r {
                Ok((v, n)) => p == VarintParse::Val(v, n as int) && n <= data@.len(),
                Err(e) => match p {
                    VarintParse::Fail(f) => spec_decode_err(f, e),
                    _ => false,
                },
            }
        }),
{
    let n = data.len();
    if n == 0 {
        return Err(SSTableError::Decode("empty varint data".to_owned()));
    }
    let mut i: usize = 0;
    let mut shift: u64 = 0;
    let mut result: u64 = 0;
    loop
        invariant
            0 <= i <= n,
            n == data@.len(),
            n > 0,
            shift == 7 * i,
            i > 0 ==> shift > 0,
            shift <= 70,
            spec_varint_parse(data@, 0) == varint_parse_from(data@, i as int, shift as nat, result),
        decreases n - i,
    {
        if i == n {
            return Err(
                SSTableError::Decode("incomplete varint: input ends with continuation bit set".to_owned()),
            );
        }
        if shift >= 64 {
            return Err(SSTableError::Decode("varint too long: exceeds 64 bits".to_owned()));
        }
        let byte = data[i];
        result = result | (((byte & 0x7f) as u64) << shift);
        if byte < 128 {
            return Ok((result, i + 1));
        }
        i = i + 1;
        shift = shift + 7;
    }
}

/// Location and size of a block inside an SSTable file.
#[derive(Debug, Clone, Copy, PartialEq, Eq, Structural)]
pub struct BlockHandle {
    /// File offset in bytes at which the block starts.
    pub offset: u64,
    /// Size of the block in bytes.
    pub size: u64,
}

/// Encoding of a block handle: the offset varint followed by the size
/// varint.
pub open spec fn spec_handle_enc(h: BlockHandle) -> Seq<u8> {
    spec_varint(h.offset) + spec_varint(h.size)
}

/// Outcome of decoding a block handle: the handle and the position one
/// past its last byte, or a failure.
pub enum HandleParse {
    Val(BlockHandle, int),
    Fail(VarintFail),
}

/// What decoding a block handle that starts at `pos` in `data` yields:
/// two consecutive varints.
pub open spec fn spec_handle_parse(data: Seq<u8>, pos: int) -> HandleParse {
    match spec_varint_parse(data, pos) {
        VarintParse::Val(offset, p1) => match spec_varint_parse(data, p1) {
            VarintParse::Val(size, p2) => HandleParse::Val(BlockHandle { offset, size }, p2),
            VarintParse::Fail(f) => HandleParse::Fail(f),
        },
        VarintParse::Fail(f) => HandleParse::Fail(f),
    }
}

/// Decoding an encoded block handle embedded at `pos` in `data`
/// recovers the handle and stops right after its last byte.
pub proof fn lemma_handle_parse_at(data: Seq<u8>, pos: int, h: BlockHandle)
    requires
        0 <= pos,
        pos + spec_handle_enc(h).len() <= data.len(),
        data.subrange(pos, pos + spec_handle_enc(h).len() as int) == spec_handle_enc(h),
    ensures
        spec_handle_parse(data, pos) == HandleParse::Val(h, pos + spec_handle_enc(h).len()),
{
    let e1 = spec_varint(h.offset);
    let e2 = spec_varint(h.size);
    let enc = spec_handle_enc(h);
    assert(data.subrange(pos, pos + e1.len() as int) == e1) by {
        assert(data.subrange(pos, pos + e1.len() as int) =~= e1) by {
            assert(forall|j: int|
                0 <= j < e1.len() ==> data[pos + j] == enc[j] && enc[j] == e1[j]);
        };
    };
    lemma_varint_parse_at(data, pos, h.offset);
    let p1 = pos + e1.len();
    assert(data.subrange(p1, p1 + e2.len() as int) == e2) by {
        assert(data.subrange(p1, p1 + e2.len() as int) =~= e2) by {
            assert(forall|j: int|
                0 <= j < e2.len() ==> data[p1 + j] == enc[e1.len() + j] && enc[e1.len() + j]
                    == e2[j]);
        };
    };
    lemma_varint_parse_at(data, p1, h.size);
}

/// A block handle round-trips through its encoding.
pub proof fn lemma_handle_round_trip(h: BlockHandle)
    ensures
        spec_handle_parse(spec_handle_enc(h), 0) == HandleParse::Val(
            h,
            spec_handle_enc(h).len() as int,
        ),
{
    let enc = spec_handle_enc(h);
    assert(enc.subrange(0, enc.len() as int) =~= enc);
    lemma_handle_parse_at(enc, 0, h);
}

impl BlockHandle {
    /// Creates a handle for the block at `offset` spanning `size` bytes.
    pub fn new(offset: u64, size: u64) -> (r: Self)
        ensures
            r == (BlockHandle { offset, size }),
    {
        Self { offset, size }
    }

    /// Encodes the handle as two consecutive varints.
    pub fn encode(&self) -> (r: Vec<u8>)
        ensures
            r@ == spec_handle_enc(*self),
            r@.len() <= 20,
    {
        proof {
            lemma_varint_len_bounds(self.offset);
            lemma_varint_len_bounds(self.size);
        }
        let mut buf: Vec<u8> = Vec::new();
        encode(self.offset, &mut buf);
        encode(self.size, &mut buf);
        assert(buf@ =~= spec_handle_enc(*self));
        buf
    }

    /// Decodes a handle from the front of `data`, returning the handle
    /// and the number of bytes consumed; varint failures propagate.
    pub fn decode(data: &[u8]) -> (r: Result<(Self, usize), SSTableError>)
        ensures
            ({
                let p = spec_handle_parse(data@, 0);
                match r {
                    Ok((h, n)) => p == HandleParse::Val(h, n as int) && n <= data@.len(),
                    Err(e) => match p {
                        HandleParse::Fail(f) => spec_decode_err(f, e),
                        _ => false,
                    },
                }
            }),
    {
        let (offset, n1) = decode(data)?;
        let rest = &data[n1..data.len()];
        proof {
            assert(rest@ =~= data@.skip(n1 as int));
            lemma_varint_parse_suffix(data@, n1 as int);
        }
        match decode(rest) {
            Ok((size, n2)) => Ok((Self { offset, size }, n1 + n2)),
            Err(e) => Err(e),
        }
    }

    /// Number of bytes `encode` produces for this handle.
    pub fn encoded_size(&self) -> (n: usize)
        ensures
            n == spec_handle_enc(*self).len(),
            2 <= n <= 20,
    {
        encoded_size(self.offset) + encoded_size(self.size)
    }
}

/// A sequence of `n` zero bytes, the footer's padding.
pub open spec fn spec_zeros(n: nat) -> Seq<u8> {
    Seq::new(n, |i: int| 0u8)
}

/// Fixed 48-byte footer at the end of every SSTable file, pointing at
/// the meta-index and index blocks.
#[derive(Debug, Clone, PartialEq, Eq, Structural)]
pub struct Footer {
    /// Handle of the meta-index block.
    pub meta_index_handle: BlockHandle,
    /// Handle of the index block.
    pub index_handle: BlockHandle,
    /// Magic number read from, or written to, the file.
    pub magic: u64,
}

/// Encoding of a footer: the two handles, zero padding up to byte 40,
/// and the magic constant big-endian in bytes 40 to 48.
pub open spec fn spec_footer_enc(f: Footer) -> Seq<u8> {
    let handles = spec_handle_enc(f.meta_index_handle) + spec_handle_enc(f.index_handle);
    handles + spec_zeros((40 - handles.len()) as nat) + spec_u64_be(MAGIC)
}

/// Outcome of decoding a 48-byte footer.
pub enum FooterParse {
    Val(Footer),
    Fail(VarintFail),
}

/// What decoding a 48-byte footer yields: two handles from the front,
/// and the magic from the last eight bytes.
pub open spec fn spec_footer_parse(data: Seq<u8>) -> FooterParse {
    match spec_handle_parse(data, 0) {
        HandleParse::Val(meta, p1) => match spec_handle_parse(data, p1) {
            HandleParse::Val(index, p2) => FooterParse::Val(
                Footer {
                    meta_index_handle: meta,
                    index_handle: index,
                    magic: spec_u64_be_val(data.subrange(40, 48)),
                },
            ),
            HandleParse::Fail(f) => FooterParse::Fail(f),
        },
        HandleParse::Fail(f) => FooterParse::Fail(f),
    }
}

/// Parsing a handle at position `d` behaves as parsing the suffix
/// `data.skip(d)` from its start, with positions shifted by `d`.
proof fn lemma_handle_parse_suffix(data: Seq<u8>, d: int)
    requires
        0 <= d <= data.len(),
    ensures
        spec_handle_parse(data, d) == match spec_handle_parse(data.skip(d), 0) {
            HandleParse::Val(h, end) => HandleParse::Val(h, end + d),
            HandleParse::Fail(f) => HandleParse::Fail(f),
        },
{
    lemma_varint_parse_skip(data, d, 0, 0, 0);
    match spec_varint_parse(data.skip(d), 0) {
        VarintParse::Val(v, p1) => {
            lemma_varint_parse_bounds(data.skip(d), 0, 0, 0);
            lemma_varint_parse_skip(data, d, p1, 0, 0);
        },
        VarintParse::Fail(_) => {},
    }
}

/// A footer whose magic field holds the magic constant round-trips
/// through its encoding; `decode` reproduces both handles and the magic.
pub proof fn lemma_footer_round_trip(f: Footer)
    requires
        f.magic == MAGIC,
    ensures
        spec_footer_enc(f).len() == 48,
        spec_footer_parse(spec_footer_enc(f)) == FooterParse::Val(f),
{
    let e1 = spec_handle_enc(f.meta_index_handle);
    let e2 = spec_handle_enc(f.index_handle);
    let enc = spec_footer_enc(f);
    lemma_varint_len_bounds(f.meta_index_handle.offset);
    lemma_varint_len_bounds(f.meta_index_handle.size);
    lemma_varint_len_bounds(f.index_handle.offset);
    lemma_varint_len_bounds(f.index_handle.size);
    assert(enc.len() == 48);
    assert(enc.subrange(0, e1.len() as int) == e1) by {
        assert(enc.subrange(0, e1.len() as int) =~= e1);
    };
    lemma_handle_parse_at(enc, 0, f.meta_index_handle);
    let p1 = e1.len() as int;
    assert(enc.subrange(p1, p1 + e2.len() as int) == e2) by {
        assert(enc.subrange(p1, p1 + e2.len() as int) =~= e2);
    };
    lemma_handle_parse_at(enc, p1, f.index_handle);
    assert(enc.subrange(40, 48) == spec_u64_be(MAGIC)) by {
        lemma_u64_be_roundtrip(MAGIC);
        assert(enc.subrange(40, 48) =~= spec_u64_be(MAGIC));
    };
    lemma_u64_be_roundtrip(MAGIC);
}

impl Footer {
    /// Creates a footer for the given meta-index and index handles,
    /// stamped with the magic constant.
    pub fn new(meta_index: BlockHandle, index: BlockHandle) -> (r: Self)
        ensures
            r.meta_index_handle == meta_index,
            r.index_handle == index,
            r.magic == MAGIC,
    {
        Self { meta_index_handle: meta_index, index_handle: index, magic: MAGIC }
    }

    /// Encodes the footer into exactly 48 bytes: both handles, zero
    /// padding up to byte 40, and the magic constant in bytes 40 to 48.
    pub fn encode(&self) -> (r: Vec<u8>)
        ensures
            r@ == spec_footer_enc(*self),
            r@.len() == FOOTER_SIZE,
            r@.subrange(40, 48) == spec_u64_be(MAGIC),
            forall|i: int|
                spec_handle_enc(self.meta_index_handle).len() + spec_handle_enc(
                    self.index_handle,
                ).len() <= i < 40 ==> r@[i] == 0,
    {
        proof {
            lemma_varint_len_bounds(self.meta_index_handle.offset);
            lemma_varint_len_bounds(self.meta_index_handle.size);
            lemma_varint_len_bounds(self.index_handle.offset);
            lemma_varint_len_bounds(self.index_handle.size);
        }
        let ghost handles = spec_handle_enc(self.meta_index_handle) + spec_handle_enc(
            self.index_handle,
        );
        let mut buf: Vec<u8> = Vec::new();
        encode(self.meta_index_handle.offset, &mut buf);
        encode(self.meta_index_handle.size, &mut buf);
        encode(self.index_handle.offset, &mut buf);
        encode(self.index_handle.size, &mut buf);
        assert(buf@ =~= handles + spec_zeros(0));
        while buf.len() < 40
        invariant
            buf@.len() >= handles.len(),
            buf@.len() <= 40,
            buf@ == handles + spec_zeros((buf@.len() - handles.len()) as nat),
        decreases 40 - buf@.len(),
        {
            buf.push(0);
            assert(buf@ =~= handles + spec_zeros((buf@.len() - handles.len()) as nat));
        }
        push_u64_be(&mut buf, MAGIC);
        assert(buf@ =~= spec_footer_enc(*self));
        assert(buf@.subrange(40, 48) =~= spec_u64_be(MAGIC));
        buf
    }

    /// Decodes a footer from a 48-byte buffer: the two handles from the
    /// front and the big-endian magic from the last eight bytes. A
    /// buffer of any other length is structurally corrupt.
    pub fn decode(data: &[u8]) -> (r: Result<Self, SSTableError>)
        ensures
            data@.len() != FOOTER_SIZE ==> (r matches Err(e) && e is Corrupted),
            data@.len() == FOOTER_SIZE ==> match r {
                Ok(f) => spec_footer_parse(data@) == FooterParse::Val(f),
                Err(e) => match spec_footer_parse(data@) {
                    FooterParse::Fail(f) => spec_decode_err(f, e),
                    _ => false,
                },
            },
    {
        if data.len() != FOOTER_SIZE {
            return Err(SSTableError::Corrupted("footer must be exactly 48 bytes".to_owned()));
        }
        let (meta_index_handle, n1) = BlockHandle::decode(data)?;
        let rest = &data[n1..FOOTER_SIZE];
        proof {
            assert(rest@ =~= data@.skip(n1 as int));
            lemma_handle_parse_suffix(data@, n1 as int);
        }
        let (index_handle, _n2) = match BlockHandle::decode(rest) {
            Ok(v) => v,
            Err(e) => {
                return Err(e);
            },
        };
        let magic = read_u64_be(data, 40);
        Ok(Self { meta_index_handle, index_handle, magic })
    }

    /// Whether the decoded magic matches the format's magic constant.
    pub fn validate_magic(&self) -> (r: bool)
        ensures
            r == (self.magic == MAGIC),
    {
        self.magic == MAGIC
    }
}

/// Number of bytes `encode` produces for `value`; always between one
/// and ten.
pub fn encoded_size(value: u64) -> (n: usize)
    ensures
        n == spec_varint(value).len(),
        1 <= n <= 10,
{
    proof {
        lemma_varint_len_bounds(value);
    }
    let mut v = value;
    let mut n: usize = 1;
    while v >= 128
        invariant
            1 <= n <= 10,
            spec_varint(value).len() == (n - 1) + spec_varint(v).len(),
        decreases v,
    {
        proof {
            lemma_varint_len_bounds(v / 128);
            lemma_varint_len_bounds(value);
        }
        v = v / 128;
        n = n + 1;
    }
    n
}

} // verus!
