//! The append-only log image: a fixed header, then a sequence of
//! self-describing, checksummed, optionally compressed blocks.
//!
//! The module holds the log as an in-memory image of the backing file; the
//! host that owns the file maps it and persists the image.  Every byte of
//! the format is produced and checked here.

use crate::clock::{now_nanos, now_seconds};
use crate::compression::{zstd_unframe, AdaptiveCompressor};
use crate::encoding::{spec_enc_batch};
use crate::error::TimeSeriesError;
use crate::types::{points_view, points_wf, DataPoint, DataPointView, TimeSeriesConfig};
use vstd::bytes::{
    lemma_auto_spec_u16_to_from_le_bytes, lemma_auto_spec_u32_to_from_le_bytes,
    lemma_auto_spec_u64_to_from_le_bytes, spec_u16_from_le_bytes, spec_u16_to_le_bytes,
    spec_u32_from_le_bytes, spec_u32_to_le_bytes, spec_u64_from_le_bytes, spec_u64_to_le_bytes,
    u16_from_le_bytes, u16_to_le_bytes, u32_from_le_bytes, u32_to_le_bytes, u64_from_le_bytes,
    u64_to_le_bytes,
};
use vstd::prelude::*;
use vstd::slice::slice_subrange;

verus! {

/// The file-format magic number.
pub const MAGIC_NUMBER: u32 = 0x42495354;

/// The file-format version.
pub const FILE_VERSION: u16 = 1;

/// Encoded header size in bytes; blocks start at this offset.
pub const HEADER_SIZE: u64 = 73;

/// Initial log image size: one mebibyte.
pub const MIN_FILE_SIZE: usize = 1048576;

/// The log header.
#[derive(Debug, Clone, Copy)]
pub struct FileHeader {
    pub magic: u32,
    pub version: u16,
    pub header_size: u32,
    pub total_points: u64,
    pub first_timestamp: Option<i64>,
    pub last_timestamp: Option<i64>,
    pub compression_enabled: bool,
    pub compression_level: i32,
    pub created_at: u64,
    pub modified_at: u64,
    pub data_offset: u64,
    pub checksum: u64,
}

/// Encoded form of an optional timestamp: a presence byte, then eight
/// little-endian bytes (zero when absent).
pub open spec fn spec_enc_opt_i64(v: Option<i64>) -> Seq<u8> {
    match v {
        Some(x) => seq![1u8] + spec_u64_to_le_bytes(x as u64),
        None => seq![0u8] + spec_u64_to_le_bytes(0),
    }
}

/// Encoded form of the header: all fields little-endian at fixed offsets.
pub open spec fn spec_enc_header(h: FileHeader) -> Seq<u8> {
    spec_u32_to_le_bytes(h.magic) + spec_u16_to_le_bytes(h.version) + spec_u32_to_le_bytes(
        h.header_size,
    ) + spec_u64_to_le_bytes(h.total_points) + spec_enc_opt_i64(h.first_timestamp)
        + spec_enc_opt_i64(h.last_timestamp) + seq![(if h.compression_enabled {
        1u8
    } else {
        0u8
    })] + spec_u32_to_le_bytes(h.compression_level as u32) + spec_u64_to_le_bytes(h.created_at)
        + spec_u64_to_le_bytes(h.modified_at) + spec_u64_to_le_bytes(h.data_offset)
        + spec_u64_to_le_bytes(h.checksum)
}

/// Parse a header from the front of `b`; malformed presence or boolean
/// bytes are rejected.
pub open spec fn spec_dec_header(b: Seq<u8>) -> Option<FileHeader> {
    if b.len() >= HEADER_SIZE {
        let magic = spec_u32_from_le_bytes(b.subrange(0, 4));
        let version = spec_u16_from_le_bytes(b.subrange(4, 6));
        let header_size = spec_u32_from_le_bytes(b.subrange(6, 10));
        let total_points = spec_u64_from_le_bytes(b.subrange(10, 18));
        let first_tag = b[18];
        let first_val = spec_u64_from_le_bytes(b.subrange(19, 27));
        let last_tag = b[27];
        let last_val = spec_u64_from_le_bytes(b.subrange(28, 36));
        let comp_byte = b[36];
        let level = spec_u32_from_le_bytes(b.subrange(37, 41));
        let created_at = spec_u64_from_le_bytes(b.subrange(41, 49));
        let modified_at = spec_u64_from_le_bytes(b.subrange(49, 57));
        let data_offset = spec_u64_from_le_bytes(b.subrange(57, 65));
        let checksum = spec_u64_from_le_bytes(b.subrange(65, 73));
        if (first_tag == 0 || first_tag == 1) && (last_tag == 0 || last_tag == 1) && (comp_byte
            == 0 || comp_byte == 1) && (first_tag == 1 || first_val == 0) && (last_tag == 1
            || last_val == 0) {
            Some(
                FileHeader {
                    magic,
                    version,
                    header_size,
                    total_points,
                    first_timestamp: (if first_tag == 1 {
                        Some(first_val as i64)
                    } else {
                        None
                    }),
                    last_timestamp: (if last_tag == 1 {
                        Some(last_val as i64)
                    } else {
                        None
                    }),
                    compression_enabled: comp_byte == 1,
                    compression_level: level as i32,
                    created_at,
                    modified_at,
                    data_offset,
                    checksum,
                },
            )
        } else {
            None
        }
    } else {
        None
    }
}

/// The header checksum: the wrapping 64-bit sum of the magic, the version,
/// the total point count and the creation time.
pub open spec fn spec_header_checksum(h: FileHeader) -> u64 {
    (((h.magic as int) + (h.version as int) + (h.total_points as int) + (h.created_at as int))
        % 0x10000000000000000) as u64
}

/// Compute the header checksum.
pub fn header_checksum(h: &FileHeader) -> (c: u64)
    ensures
        c == spec_header_checksum(*h),
{
    let mut sum: u64 = 0;
    sum = sum.wrapping_add(h.magic as u64);
    sum = sum.wrapping_add(h.version as u64);
    sum = sum.wrapping_add(h.total_points);
    sum = sum.wrapping_add(h.created_at);
    proof {
        let m = h.magic as int;
        let v = h.version as int;
        let t = h.total_points as int;
        let c = h.created_at as int;
        let k: int = 0x10000000000000000;
        vstd::arithmetic::div_mod::lemma_small_mod(h.version as nat, 0x10000000000000000);
        vstd::arithmetic::div_mod::lemma_small_mod(h.total_points as nat, 0x10000000000000000);
        vstd::arithmetic::div_mod::lemma_small_mod(h.created_at as nat, 0x10000000000000000);
        vstd::arithmetic::div_mod::lemma_add_mod_noop(m, v, k);
        vstd::arithmetic::div_mod::lemma_add_mod_noop(m + v, t, k);
        vstd::arithmetic::div_mod::lemma_add_mod_noop(m + v + t, c, k);
    }
    sum
}

/// Parsing an encoded header recovers it exactly.
pub proof fn lemma_header_round_trip(h: FileHeader, rest: Seq<u8>)
    ensures
        spec_dec_header(spec_enc_header(h) + rest) == Some(h),
        spec_enc_header(h).len() == HEADER_SIZE,
{
    lemma_auto_spec_u16_to_from_le_bytes();
    lemma_auto_spec_u32_to_from_le_bytes();
    lemma_auto_spec_u64_to_from_le_bytes();
    let b = spec_enc_header(h) + rest;
    assert(b.subrange(0, 4) =~= spec_u32_to_le_bytes(h.magic));
    assert(b.subrange(4, 6) =~= spec_u16_to_le_bytes(h.version));
    assert(b.subrange(6, 10) =~= spec_u32_to_le_bytes(h.header_size));
    assert(b.subrange(10, 18) =~= spec_u64_to_le_bytes(h.total_points));
    match h.first_timestamp {
        Some(x) => {
            assert(b[18] == 1);
            assert(b.subrange(19, 27) =~= spec_u64_to_le_bytes(x as u64));
            assert((x as u64) as i64 == x) by (bit_vector);
        },
        None => {
            assert(b[18] == 0);
            assert(b.subrange(19, 27) =~= spec_u64_to_le_bytes(0));
        },
    }
    match h.last_timestamp {
        Some(x) => {
            assert(b[27] == 1);
            assert(b.subrange(28, 36) =~= spec_u64_to_le_bytes(x as u64));
            assert((x as u64) as i64 == x) by (bit_vector);
        },
        None => {
            assert(b[27] == 0);
            assert(b.subrange(28, 36) =~= spec_u64_to_le_bytes(0));
        },
    }
    assert(b[36] == (if h.compression_enabled {
        1u8
    } else {
        0u8
    }));
    assert(b.subrange(37, 41) =~= spec_u32_to_le_bytes(h.compression_level as u32));
    let lv = h.compression_level;
    assert((lv as u32) as i32 == lv) by (bit_vector);
    assert(b.subrange(41, 49) =~= spec_u64_to_le_bytes(h.created_at));
    assert(b.subrange(49, 57) =~= spec_u64_to_le_bytes(h.modified_at));
    assert(b.subrange(57, 65) =~= spec_u64_to_le_bytes(h.data_offset));
    assert(b.subrange(65, 73) =~= spec_u64_to_le_bytes(h.checksum));
}

/// Append the encoding of an optional timestamp to `out`.
fn push_opt_i64(out: &mut Vec<u8>, v: &Option<i64>)
    ensures
        final(out)@ == old(out)@ + spec_enc_opt_i64(*v),
{
    match v {
        Some(x) => {
            out.push(1);
            let mut b = u64_to_le_bytes(*x as u64);
            out.append(&mut b);
        },
        None => {
            out.push(0);
            let mut b = u64_to_le_bytes(0);
            out.append(&mut b);
        },
    }
    proof {
        assert(final(out)@ =~= old(out)@ + spec_enc_opt_i64(*v));
    }
}

/// Serialize a header to its canonical 73 bytes.
pub fn encode_header(h: &FileHeader) -> (out: Vec<u8>)
    ensures
        out@ == spec_enc_header(*h),
        out@.len() == HEADER_SIZE,
{
    let mut out: Vec<u8> = Vec::new();
    let mut b = u32_to_le_bytes(h.magic);
    out.append(&mut b);
    let mut b = u16_to_le_bytes(h.version);
    out.append(&mut b);
    let mut b = u32_to_le_bytes(h.header_size);
    out.append(&mut b);
    let mut b = u64_to_le_bytes(h.total_points);
    out.append(&mut b);
    push_opt_i64(&mut out, &h.first_timestamp);
    push_opt_i64(&mut out, &h.last_timestamp);
    out.push(if h.compression_enabled {
        1
    } else {
        0
    });
    let mut b = u32_to_le_bytes(h.compression_level as u32);
    out.append(&mut b);
    let mut b = u64_to_le_bytes(h.created_at);
    out.append(&mut b);
    let mut b = u64_to_le_bytes(h.modified_at);
    out.append(&mut b);
    let mut b = u64_to_le_bytes(h.data_offset);
    out.append(&mut b);
    let mut b = u64_to_le_bytes(h.checksum);
    out.append(&mut b);
    proof {
        assert(out@ =~= spec_enc_header(*h));
        lemma_header_round_trip(*h, Seq::empty());
    }
    out
}

/// Parse the header at the front of the image.
pub fn decode_header(b: &Vec<u8>) -> (r: Option<FileHeader>)
    ensures
        r == spec_dec_header(b@),
{
    proof {
        lemma_auto_spec_u16_to_from_le_bytes();
        lemma_auto_spec_u32_to_from_le_bytes();
        lemma_auto_spec_u64_to_from_le_bytes();
    }
    if b.len() < 73 {
        return None;
    }
    let magic = u32_from_le_bytes(slice_subrange(b.as_slice(), 0, 4));
    let version = u16_from_le_bytes(slice_subrange(b.as_slice(), 4, 6));
    let header_size = u32_from_le_bytes(slice_subrange(b.as_slice(), 6, 10));
    let total_points = u64_from_le_bytes(slice_subrange(b.as_slice(), 10, 18));
    let first_tag = b[18];
    let first_val = u64_from_le_bytes(slice_subrange(b.as_slice(), 19, 27));
    let last_tag = b[27];
    let last_val = u64_from_le_bytes(slice_subrange(b.as_slice(), 28, 36));
    let comp_byte = b[36];
    let level = u32_from_le_bytes(slice_subrange(b.as_slice(), 37, 41));
    let created_at = u64_from_le_bytes(slice_subrange(b.as_slice(), 41, 49));
    let modified_at = u64_from_le_bytes(slice_subrange(b.as_slice(), 49, 57));
    let data_offset = u64_from_le_bytes(slice_subrange(b.as_slice(), 57, 65));
    let checksum = u64_from_le_bytes(slice_subrange(b.as_slice(), 65, 73));
    if !(first_tag == 0 || first_tag == 1) || !(last_tag == 0 || last_tag == 1) || !(comp_byte == 0
        || comp_byte == 1) {
        return None;
    }
    if first_tag == 0 && first_val != 0 {
        return None;
    }
    if last_tag == 0 && last_val != 0 {
        return None;
    }
    Some(
        FileHeader {
            magic,
            version,
            header_size,
            total_points,
            first_timestamp: if first_tag == 1 {
                Some(first_val as i64)
            } else {
                None
            },
            last_timestamp: if last_tag == 1 {
                Some(last_val as i64)
            } else {
                None
            },
            compression_enabled: comp_byte == 1,
            compression_level: level as i32,
            created_at,
            modified_at,
            data_offset,
            checksum,
        },
    )
}

/// Model of one stored block.
pub ghost struct BlockView {
    pub write_ts: u64,
    pub point_count: u32,
    pub compressed_size: u32,
    pub uncompressed_size: u32,
    pub is_compressed: bool,
    pub checksum: u64,
    pub payload: Seq<u8>,
}

/// The rolling payload checksum over the first `n` bytes:
/// `h <- h * 31 + byte`, wrapping at 64 bits.
pub open spec fn spec_rolling_checksum(bytes: Seq<u8>, n: int) -> u64
    decreases n,
{
    if n <= 0 {
        0
    } else {
        ((spec_rolling_checksum(bytes, n - 1) as int * 31 + bytes[n - 1]) % 0x10000000000000000)
            as u64
    }
}

/// Compute the rolling checksum of a byte slice.
pub fn rolling_checksum(data: &[u8]) -> (c: u64)
    ensures
        c == spec_rolling_checksum(data@, data@.len() as int),
{
    let mut c: u64 = 0;
    let n = data.len();
    let mut i: usize = 0;
    while i < n
        invariant
            n == data@.len(),
            i <= n,
            c == spec_rolling_checksum(data@, i as int),
        decreases n - i,
    {
        let byte = *vstd::slice::slice_index_get(data, i);
        let next = c.wrapping_mul(31).wrapping_add(byte as u64);
        proof {
            let k: int = 0x10000000000000000;
            let ci = c as int;
            let bi = byte as int;
            vstd::arithmetic::div_mod::lemma_small_mod(byte as nat, 0x10000000000000000);
            vstd::arithmetic::div_mod::lemma_add_mod_noop(ci * 31, bi, k);
        }
        c = next;
        i = i + 1;
    }
    c
}

/// A block is internally consistent: sizes match, the checksum covers the
/// payload, and it holds at least one point.
pub open spec fn spec_block_wf(b: BlockView) -> bool {
    &&& b.payload.len() == b.compressed_size
    &&& b.point_count >= 1
    &&& b.checksum == spec_rolling_checksum(b.payload, b.payload.len() as int)
}

/// Little-endian bytes of a 32-bit unsigned integer, written out openly
/// so that parses of concrete bytes evaluate.
pub open spec fn spec_le32(x: u32) -> Seq<u8> {
    seq![
        (x & 0xff) as u8,
        ((x >> 8) & 0xff) as u8,
        ((x >> 16) & 0xff) as u8,
        ((x >> 24) & 0xff) as u8,
    ]
}

/// The 32-bit value four little-endian bytes spell.
pub open spec fn spec_le32_val(s: Seq<u8>) -> u32
    recommends
        s.len() == 4,
{
    (s[0] as u32) | ((s[1] as u32) << 8) | ((s[2] as u32) << 16) | ((s[3] as u32) << 24)
}

/// The 32-bit little-endian round trip.
pub proof fn lemma_le32_round_trip(x: u32)
    ensures
        spec_le32(x).len() == 4,
        spec_le32_val(spec_le32(x)) == x,
{
    assert(((x & 0xff) as u8 as u32) | ((((x >> 8) & 0xff) as u8 as u32) << 8) | ((((x >> 16)
        & 0xff) as u8 as u32) << 16) | ((((x >> 24) & 0xff) as u8 as u32) << 24) == x)
        by (bit_vector);
}

/// Append the little-endian bytes of a 32-bit integer to `out`.
pub fn push_u32_le(out: &mut Vec<u8>, x: u32)
    ensures
        final(out)@ == old(out)@ + spec_le32(x),
{
    out.push((x & 0xff) as u8);
    out.push(((x >> 8) & 0xff) as u8);
    out.push(((x >> 16) & 0xff) as u8);
    out.push(((x >> 24) & 0xff) as u8);
    proof {
        assert(final(out)@ =~= old(out)@ + spec_le32(x));
    }
}

/// Read the 32-bit little-endian integer at `pos`.
pub fn read_u32_le(b: &Vec<u8>, pos: usize) -> (x: u32)
    requires
        pos + 4 <= b@.len(),
    ensures
        x == spec_le32_val(b@.subrange(pos as int, pos as int + 4)),
{
    let len = b.len();
    let b0 = b[pos] as u32;
    let b1 = b[pos + 1] as u32;
    let b2 = b[pos + 2] as u32;
    let b3 = b[pos + 3] as u32;
    proof {
        let s = b@.subrange(pos as int, pos as int + 4);
        assert(s[0] == b@[pos as int]);
        assert(s[1] == b@[pos as int + 1]);
        assert(s[2] == b@[pos as int + 2]);
        assert(s[3] == b@[pos as int + 3]);
        let v0 = b@[pos as int];
        let v1 = b@[pos as int + 1];
        let v2 = b@[pos as int + 2];
        let v3 = b@[pos as int + 3];
        assert((v0 as u32) | ((v1 as u32) << 8) | ((v2 as u32) << 16) | ((v3 as u32) << 24)
            == ((v0 as u32) | ((v1 as u32) << 8)) | ((v2 as u32) << 16) | ((v3 as u32) << 24))
            by (bit_vector);
    }
    (b0 | (b1 << 8)) | (b2 << 16) | (b3 << 24)
}

/// Encoded form of a block: a 29-byte prologue, then the payload.
pub open spec fn spec_enc_block(b: BlockView) -> Seq<u8> {
    spec_u64_to_le_bytes(b.write_ts) + spec_le32(b.point_count) + spec_le32(b.compressed_size)
        + spec_le32(b.uncompressed_size) + seq![(if b.is_compressed {
        1u8
    } else {
        0u8
    })] + spec_u64_to_le_bytes(b.checksum) + b.payload
}

/// Parse one block from the front of `b`: the prologue must be complete,
/// the payload must fit, the flag byte, point count and checksum must be
/// valid.
pub open spec fn spec_dec_block(b: Seq<u8>) -> Option<(BlockView, int)> {
    if b.len() >= 29 {
        let write_ts = spec_u64_from_le_bytes(b.subrange(0, 8));
        let point_count = spec_le32_val(b.subrange(8, 12));
        let compressed_size = spec_le32_val(b.subrange(12, 16));
        let uncompressed_size = spec_le32_val(b.subrange(16, 20));
        let flag = b[20];
        let checksum = spec_u64_from_le_bytes(b.subrange(21, 29));
        let csize = compressed_size as int;
        if (flag == 0 || flag == 1) && point_count >= 1 && b.len() >= 29 + csize && checksum
            == spec_rolling_checksum(b.subrange(29, 29 + csize), csize) {
            Some(
                (
                    BlockView {
                        write_ts,
                        point_count,
                        compressed_size,
                        uncompressed_size,
                        is_compressed: flag == 1,
                        checksum,
                        payload: b.subrange(29, 29 + csize),
                    },
                    29 + csize,
                ),
            )
        } else {
            None
        }
    } else {
        None
    }
}

/// Parsing an encoded well-formed block recovers it exactly.
pub proof fn lemma_block_round_trip(b: BlockView, rest: Seq<u8>)
    requires
        spec_block_wf(b),
    ensures
        spec_dec_block(spec_enc_block(b) + rest) == Some((b, spec_enc_block(b).len() as int)),
        spec_enc_block(b).len() == 29 + b.payload.len(),
{
    lemma_auto_spec_u64_to_from_le_bytes();
    lemma_le32_round_trip(b.point_count);
    lemma_le32_round_trip(b.compressed_size);
    lemma_le32_round_trip(b.uncompressed_size);
    let e = spec_enc_block(b) + rest;
    assert(e.subrange(0, 8) =~= spec_u64_to_le_bytes(b.write_ts));
    assert(e.subrange(8, 12) =~= spec_le32(b.point_count));
    assert(e.subrange(12, 16) =~= spec_le32(b.compressed_size));
    assert(e.subrange(16, 20) =~= spec_le32(b.uncompressed_size));
    assert(e[20] == (if b.is_compressed {
        1u8
    } else {
        0u8
    }));
    assert(e.subrange(21, 29) =~= spec_u64_to_le_bytes(b.checksum));
    assert(e.subrange(29, 29 + b.compressed_size as int) =~= b.payload);
}

/// The bytes of a block sequence, in order.
pub open spec fn spec_blocks_bytes(bs: Seq<BlockView>) -> Seq<u8>
    decreases bs.len(),
{
    if bs.len() == 0 {
        Seq::empty()
    } else {
        spec_enc_block(bs[0]) + spec_blocks_bytes(bs.drop_first())
    }
}

/// Concatenation distributes over block-sequence bytes.
pub proof fn lemma_blocks_bytes_concat(a: Seq<BlockView>, c: Seq<BlockView>)
    ensures
        spec_blocks_bytes(a + c) == spec_blocks_bytes(a) + spec_blocks_bytes(c),
    decreases a.len(),
{
    if a.len() == 0 {
        assert(a + c =~= c);
        assert(spec_blocks_bytes(a) =~= Seq::<u8>::empty());
        assert(spec_blocks_bytes(a) + spec_blocks_bytes(c) =~= spec_blocks_bytes(c));
    } else {
        assert((a + c).drop_first() =~= a.drop_first() + c);
        assert((a + c)[0] == a[0]);
        lemma_blocks_bytes_concat(a.drop_first(), c);
        assert(spec_blocks_bytes(a + c) =~= spec_blocks_bytes(a) + spec_blocks_bytes(c));
    }
}

/// All recorded batches, flattened in order.
pub open spec fn concat_batches(bs: Seq<Seq<DataPointView>>) -> Seq<DataPointView>
    decreases bs.len(),
{
    if bs.len() == 0 {
        Seq::empty()
    } else {
        concat_batches(bs.drop_last()) + bs.last()
    }
}

/// Unfolding `concat_batches` from the front.
pub proof fn lemma_concat_batches_first(bs: Seq<Seq<DataPointView>>)
    requires
        bs.len() > 0,
    ensures
        concat_batches(bs) == bs[0] + concat_batches(bs.drop_first()),
    decreases bs.len(),
{
    if bs.len() == 1 {
        assert(bs.drop_last() =~= Seq::<Seq<DataPointView>>::empty());
        assert(bs.drop_first() =~= Seq::<Seq<DataPointView>>::empty());
        assert(concat_batches(bs) =~= bs[0] + concat_batches(bs.drop_first()));
    } else {
        lemma_concat_batches_first(bs.drop_last());
        assert(bs.drop_last()[0] == bs[0]);
        assert(bs.drop_last().drop_first() =~= bs.drop_first().drop_last());
        assert(bs.drop_first().last() == bs.last());
        assert(concat_batches(bs) =~= bs[0] + concat_batches(bs.drop_first()));
    }
}

/// Summed lengths of the recorded batches.
pub open spec fn sum_batch_lens(bs: Seq<Seq<DataPointView>>) -> int
    decreases bs.len(),
{
    if bs.len() == 0 {
        0
    } else {
        sum_batch_lens(bs.drop_last()) + bs.last().len()
    }
}

/// A block and the batch it stores belong together: the block is
/// well-formed, the batch is well-formed and non-empty, the counts match,
/// and the payload is the batch's serialized form, raw or as a zstd frame.
pub open spec fn spec_block_batch_ok(b: BlockView, batch: Seq<DataPointView>) -> bool {
    &&& spec_block_wf(b)
    &&& points_wf(batch)
    &&& crate::encoding::batch_encodable(batch)
    &&& batch.len() >= 1
    &&& batch.len() <= u32::MAX
    &&& b.point_count == batch.len()
    &&& (if b.is_compressed {
        zstd_unframe(b.payload) == Some(spec_enc_batch(batch))
    } else {
        b.payload == spec_enc_batch(batch)
    })
}

/// The blocks and batches correspond pairwise.
pub open spec fn spec_blocks_ok(bs: Seq<BlockView>, batches: Seq<Seq<DataPointView>>) -> bool {
    &&& bs.len() == batches.len()
    &&& forall|i: int|
        0 <= i < bs.len() ==> spec_block_batch_ok(#[trigger] bs[i], batches[i])
}

/// The structural facts a usable header carries.
pub open spec fn spec_header_ok(h: FileHeader) -> bool {
    &&& h.magic == MAGIC_NUMBER
    &&& h.version == FILE_VERSION
    &&& h.header_size == HEADER_SIZE
    &&& h.data_offset == HEADER_SIZE
    &&& h.checksum == spec_header_checksum(h)
}

/// A log image laid out as the format demands: the header at the front,
/// the recorded blocks from the data offset to `data_end`, the point
/// count exact, and no further block parseable past the end.
pub open spec fn spec_image_layout(
    img: Seq<u8>,
    h: FileHeader,
    bs: Seq<BlockView>,
    batches: Seq<Seq<DataPointView>>,
    data_end: int,
) -> bool {
    &&& img.len() <= usize::MAX
    &&& img.subrange(0, 73) == spec_enc_header(h)
    &&& spec_header_ok(h)
    &&& spec_blocks_ok(bs, batches)
    &&& data_end == 73 + spec_blocks_bytes(bs).len()
    &&& data_end <= img.len()
    &&& img.subrange(73, data_end) == spec_blocks_bytes(bs)
    &&& spec_dec_block(img.skip(data_end)) is None
    &&& h.total_points == sum_batch_lens(batches)
}

/// A zero-filled region does not parse as a block.
pub proof fn lemma_zeros_no_block(b: Seq<u8>)
    requires
        forall|i: int| 0 <= i < b.len() ==> b[i] == 0,
    ensures
        spec_dec_block(b) is None,
{
    if b.len() >= 29 {
        let s = b.subrange(8, 12);
        assert(s[0] == 0 && s[1] == 0 && s[2] == 0 && s[3] == 0);
        assert((0u32) | ((0u32) << 8) | ((0u32) << 16) | ((0u32) << 24) == 0u32) by (bit_vector);
        assert(spec_le32_val(s) == 0);
    }
}


/// One parsed block, executable form.
#[derive(Debug)]
pub struct BlockRec {
    pub write_ts: u64,
    pub point_count: u32,
    pub compressed_size: u32,
    pub uncompressed_size: u32,
    pub is_compressed: bool,
    pub checksum: u64,
    pub payload: Vec<u8>,
}

impl View for BlockRec {
    type V = BlockView;

    open spec fn view(&self) -> BlockView {
        BlockView {
            write_ts: self.write_ts,
            point_count: self.point_count,
            compressed_size: self.compressed_size,
            uncompressed_size: self.uncompressed_size,
            is_compressed: self.is_compressed,
            checksum: self.checksum,
            payload: self.payload@,
        }
    }
}

/// Serialize a block to its on-disk bytes.
pub fn encode_block(b: &BlockRec) -> (out: Vec<u8>)
    ensures
        out@ == spec_enc_block(b@),
{
    let mut out: Vec<u8> = Vec::new();
    let mut w = u64_to_le_bytes(b.write_ts);
    out.append(&mut w);
    push_u32_le(&mut out, b.point_count);
    push_u32_le(&mut out, b.compressed_size);
    push_u32_le(&mut out, b.uncompressed_size);
    out.push(if b.is_compressed {
        1
    } else {
        0
    });
    let mut w = u64_to_le_bytes(b.checksum);
    out.append(&mut w);
    out.extend_from_slice(b.payload.as_slice());
    proof {
        assert(out@ =~= spec_enc_block(b@));
    }
    out
}

/// Parse the block starting at `pos`, if one is valid there.
pub fn decode_block_at(b: &Vec<u8>, pos: usize) -> (r: Option<(BlockRec, usize)>)
    requires
        pos <= b@.len(),
    ensures
        match spec_dec_block(b@.skip(pos as int)) {
            Some(pr) => r matches Some(rr) && rr.0@ == pr.0 && rr.1 == pos + pr.1 && rr.1
                <= b@.len(),
            None => r is None,
        },
{
    proof {
        lemma_auto_spec_u64_to_from_le_bytes();
    }
    let ghost tail = b@.skip(pos as int);
    if b.len() - pos < 29 {
        return None;
    }
    let write_ts = crate::encoding::read_u64_at(b, pos);
    let point_count = read_u32_le(b, pos + 8);
    let compressed_size = read_u32_le(b, pos + 12);
    let uncompressed_size = read_u32_le(b, pos + 16);
    let flag = b[pos + 20];
    let checksum = crate::encoding::read_u64_at(b, pos + 21);
    proof {
        assert(b@.subrange(pos as int, pos as int + 8) =~= tail.subrange(0, 8));
        assert(b@.subrange(pos as int + 8, pos as int + 12) =~= tail.subrange(8, 12));
        assert(b@.subrange(pos as int + 12, pos as int + 16) =~= tail.subrange(12, 16));
        assert(b@.subrange(pos as int + 16, pos as int + 20) =~= tail.subrange(16, 20));
        assert(b@[pos as int + 20] == tail[20]);
        assert(b@.subrange(pos as int + 21, pos as int + 29) =~= tail.subrange(21, 29));
    }
    if flag != 0 && flag != 1 {
        return None;
    }
    if point_count < 1 {
        return None;
    }
    let remaining = b.len() - pos - 29;
    if compressed_size as u64 > remaining as u64 {
        return None;
    }
    let csize = compressed_size as usize;
    let payload_slice = slice_subrange(b.as_slice(), pos + 29, pos + 29 + csize);
    proof {
        assert(payload_slice@ =~= tail.subrange(29, 29 + compressed_size as int));
    }
    let actual = rolling_checksum(payload_slice);
    if actual != checksum {
        return None;
    }
    let payload = vstd::slice::slice_to_vec(payload_slice);
    Some(
        (
            BlockRec {
                write_ts,
                point_count,
                compressed_size,
                uncompressed_size,
                is_compressed: flag == 1,
                checksum,
                payload,
            },
            pos + 29 + csize,
        ),
    )
}

/// Overwrite `count == bytes.len()` bytes of the image at `at`.
fn write_bytes_at(image: &mut Vec<u8>, at: usize, bytes: &Vec<u8>)
    requires
        at + bytes@.len() <= old(image)@.len(),
    ensures
        final(image)@.len() == old(image)@.len(),
        final(image)@ == old(image)@.take(at as int) + bytes@ + old(image)@.skip(
            at as int + bytes@.len() as int,
        ),
{
    let n = bytes.len();
    let total = image.len();
    let mut i: usize = 0;
    while i < n
        invariant
            n == bytes@.len(),
            total == old(image)@.len(),
            at + n <= total,
            at + n <= image@.len(),
            image@.len() == old(image)@.len(),
            i <= n,
            forall|j: int| 0 <= j < at ==> image@[j] == old(image)@[j],
            forall|j: int| 0 <= j < i ==> image@[at + j] == bytes@[j],
            forall|j: int| at + n <= j < image@.len() ==> image@[j] == old(image)@[j],
            forall|j: int| at + i <= j < at + n ==> image@[j] == old(image)@[j],
        decreases n - i,
    {
        image[at + i] = bytes[i];
        i = i + 1;
    }
    proof {
        assert(final(image)@ =~= old(image)@.take(at as int) + bytes@ + old(image)@.skip(
            at as int + bytes@.len() as int,
        ));
    }
}

/// Zero the image from `at` to its end.
fn zero_from(image: &mut Vec<u8>, at: usize)
    requires
        at <= old(image)@.len(),
    ensures
        final(image)@.len() == old(image)@.len(),
        forall|j: int| 0 <= j < at ==> final(image)@[j] == old(image)@[j],
        forall|j: int| at <= j < final(image)@.len() ==> final(image)@[j] == 0,
{
    let n = image.len();
    let mut i: usize = at;
    while i < n
        invariant
            n == image@.len(),
            image@.len() == old(image)@.len(),
            at <= i <= n,
            forall|j: int| 0 <= j < at ==> image@[j] == old(image)@[j],
            forall|j: int| at <= j < i ==> image@[j] == 0,
        decreases n - i,
    {
        image[i] = 0;
        i = i + 1;
    }
}

/// The memory-mapped log: an image of the backing file, held and updated
/// in memory.  The host that owns the file maps it, hands the bytes in at
/// open, and writes the image back at flush.
///
/// Every write goes through [`MmapStorage::append_data_points`], which
/// seals the batch into one block immediately; recovery scans blocks from
/// the data offset until a record fails to parse, tolerating a truncated
/// tail.
pub struct MmapStorage {
    image: Vec<u8>,
    header: FileHeader,
    write_offset: u64,
    compressor: AdaptiveCompressor,
    blocks: Ghost<Seq<BlockView>>,
    batches: Ghost<Seq<Seq<DataPointView>>>,
}

/// Storage statistics.
#[derive(Debug, Clone, Copy)]
pub struct StorageStats {
    pub file_size: usize,
    pub data_size: usize,
    pub total_points: u64,
    pub first_timestamp: Option<i64>,
    pub last_timestamp: Option<i64>,
    pub compression_enabled: bool,
    pub compression_level: i32,
    pub created_at: u64,
    pub modified_at: u64,
}

impl MmapStorage {
    /// Every sample durably recorded in the log, in append order.
    pub closed spec fn history(&self) -> Seq<DataPointView> {
        concat_batches(self.batches@)
    }

    /// The log image bytes.
    pub closed spec fn spec_image(&self) -> Seq<u8> {
        self.image@
    }

    /// The end of the recorded data.
    pub closed spec fn spec_write_offset(&self) -> int {
        self.write_offset as int
    }

    /// The current header.
    pub closed spec fn spec_header(&self) -> FileHeader {
        self.header
    }

    /// The recorded blocks.
    pub closed spec fn spec_blocks(&self) -> Seq<BlockView> {
        self.blocks@
    }

    /// The recorded batches.
    pub closed spec fn spec_batches(&self) -> Seq<Seq<DataPointView>> {
        self.batches@
    }

    /// Whether the adaptive compressor's configuration is usable.
    pub closed spec fn spec_compressor_wf(&self) -> bool {
        self.compressor.wf()
    }

    /// The payload size the adaptive codec would store for this batch.
    pub closed spec fn spec_chosen_payload_len(&self, batch: Seq<DataPointView>) -> int {
        self.compressor.spec_chosen_len(spec_enc_batch(batch))
    }

    /// The bounds under which an append is owed success: the batch and its
    /// serialized and stored forms fit the block fields, the image offset
    /// arithmetic fits the machine, and the point counter has headroom.
    pub open spec fn spec_append_fits(&self, batch: Seq<DataPointView>) -> bool {
        &&& batch.len() <= 0xffffffff
        &&& spec_enc_batch(batch).len() <= 0xffffffff
        &&& self.spec_chosen_payload_len(batch) <= 0xffffffff
        &&& self.spec_write_offset() + 29 + self.spec_chosen_payload_len(batch) <= usize::MAX
        &&& self.spec_header().total_points + batch.len() <= u64::MAX
    }

    /// Well-formed: the image is laid out as the format demands and the
    /// region past the recorded data is zero-filled.
    pub open spec fn wf(&self) -> bool {
        &&& self.spec_compressor_wf()
        &&& spec_image_layout(
            self.spec_image(),
            self.spec_header(),
            self.spec_blocks(),
            self.spec_batches(),
            self.spec_write_offset(),
        )
        &&& forall|j: int|
            self.spec_write_offset() <= j < self.spec_image().len() ==> self.spec_image()[j] == 0
    }

    /// A fresh log image for the given configuration, stamped with the
    /// given creation time.
    pub fn initialize_new_at(config: &TimeSeriesConfig, created_at: u64) -> (s: Self)
        ensures
            s.wf(),
            s.history() == Seq::<DataPointView>::empty(),
            s.spec_header().compression_enabled == config.enable_compression,
            s.spec_header().compression_level == config.compression_level,
            s.spec_header().created_at == created_at,
            s.spec_header().total_points == 0,
            s.spec_image().len() == MIN_FILE_SIZE,
    {
        let mut header = FileHeader {
            magic: MAGIC_NUMBER,
            version: FILE_VERSION,
            header_size: 73,
            total_points: 0,
            first_timestamp: None,
            last_timestamp: None,
            compression_enabled: config.enable_compression,
            compression_level: config.compression_level,
            created_at,
            modified_at: created_at,
            data_offset: 73,
            checksum: 0,
        };
        header.checksum = header_checksum(&header);
        proof {
            assert(spec_header_checksum(header) == spec_header_checksum(
                FileHeader { checksum: 0, ..header },
            ));
        }
        let mut image: Vec<u8> = vec![0u8; MIN_FILE_SIZE];
        let header_bytes = encode_header(&header);
        write_bytes_at(&mut image, 0, &header_bytes);
        let s = MmapStorage {
            image,
            header,
            write_offset: 73,
            compressor: AdaptiveCompressor::new(),
            blocks: Ghost(Seq::empty()),
            batches: Ghost(Seq::empty()),
        };
        proof {
            assert(s.spec_image().subrange(0, 73) =~= spec_enc_header(header));
            assert(spec_blocks_bytes(s.spec_blocks()) =~= Seq::<u8>::empty());
            assert(s.spec_image().subrange(73, 73) =~= spec_blocks_bytes(s.spec_blocks()));
            assert(forall|j: int|
                73 <= j < s.spec_image().len() ==> s.spec_image()[j] == 0);
            lemma_zeros_no_block(s.spec_image().skip(73));
            assert(s.history() =~= Seq::<DataPointView>::empty());
        }
        s
    }

    /// A fresh log image for the given configuration, stamped with the
    /// wall clock.
    pub fn initialize_new(config: &TimeSeriesConfig) -> (s: Self)
        ensures
            s.wf(),
            s.history() == Seq::<DataPointView>::empty(),
            s.spec_header().compression_enabled == config.enable_compression,
            s.spec_header().compression_level == config.compression_level,
            s.spec_header().total_points == 0,
    {
        let created_at = now_seconds();
        MmapStorage::initialize_new_at(config, created_at)
    }

    /// The image bytes, for the host to persist.
    pub fn image(&self) -> (r: &Vec<u8>)
        ensures
            r@ == self.spec_image(),
    {
        &self.image
    }

    /// The image size in bytes.
    pub fn file_size(&self) -> (n: usize)
        ensures
            n == self.spec_image().len(),
    {
        self.image.len()
    }

    /// The end of the recorded data.
    pub fn write_offset(&self) -> (n: u64)
        ensures
            n == self.spec_write_offset(),
    {
        self.write_offset
    }

    /// A snapshot of storage statistics.
    pub fn stats(&self) -> (s: StorageStats)
        requires
            self.wf(),
        ensures
            s.file_size == self.spec_image().len(),
            s.data_size == self.spec_write_offset(),
            s.total_points == self.spec_header().total_points,
            s.first_timestamp == self.spec_header().first_timestamp,
            s.last_timestamp == self.spec_header().last_timestamp,
            s.compression_enabled == self.spec_header().compression_enabled,
            s.compression_level == self.spec_header().compression_level,
            s.created_at == self.spec_header().created_at,
            s.modified_at == self.spec_header().modified_at,
    {
        StorageStats {
            file_size: self.image.len(),
            data_size: self.write_offset as usize,
            total_points: self.header.total_points,
            first_timestamp: self.header.first_timestamp,
            last_timestamp: self.header.last_timestamp,
            compression_enabled: self.header.compression_enabled,
            compression_level: self.header.compression_level,
            created_at: self.header.created_at,
            modified_at: self.header.modified_at,
        }
    }

    /// Nothing is pending in memory: persistence of the image belongs to
    /// the host that owns the mapping.
    pub fn flush(&self) -> (r: Result<(), TimeSeriesError>)
        ensures
            r is Ok,
    {
        Ok(())
    }

    /// Close the log; the image stays valid for a final host flush.
    pub fn close(&self) -> (r: Result<(), TimeSeriesError>)
        ensures
            r is Ok,
    {
        Ok(())
    }
}


impl MmapStorage {
    /// Seal a batch into one block at the given write timestamp, growing
    /// the image when needed, and update the header.  An empty batch is a
    /// no-op.  On failure nothing is recorded.
    #[verifier::rlimit(100)]
    pub fn append_at(
        &mut self,
        data_points: &Vec<DataPoint>,
        write_ts: u64,
        now_secs: u64,
    ) -> (r: Result<(), TimeSeriesError>)
        requires
            old(self).wf(),
            points_wf(points_view(data_points@)),
        ensures
            final(self).wf(),
            final(self).spec_header().created_at == old(self).spec_header().created_at,
            final(self).spec_header().compression_enabled == old(
                self,
            ).spec_header().compression_enabled,
            final(self).spec_header().compression_level == old(
                self,
            ).spec_header().compression_level,
            r is Ok && data_points@.len() > 0 ==> final(self).history() == old(self).history()
                + points_view(data_points@) && final(self).spec_header().total_points == old(
                self,
            ).spec_header().total_points + data_points@.len(),
            r is Ok && data_points@.len() > 0 ==> final(self).spec_header().modified_at
                == now_secs && final(self).spec_header().first_timestamp == Some(
                (match old(self).spec_header().first_timestamp {
                    None => crate::query::spec_min_ts(points_view(data_points@)),
                    Some(f) => if crate::query::spec_min_ts(points_view(data_points@)) < f {
                        crate::query::spec_min_ts(points_view(data_points@))
                    } else {
                        f
                    },
                }),
            ) && final(self).spec_header().last_timestamp == Some(
                (match old(self).spec_header().last_timestamp {
                    None => crate::query::spec_max_ts(points_view(data_points@)),
                    Some(l) => if crate::query::spec_max_ts(points_view(data_points@)) > l {
                        crate::query::spec_max_ts(points_view(data_points@))
                    } else {
                        l
                    },
                }),
            ),
            data_points@.len() == 0 ==> r is Ok,
            old(self).spec_append_fits(points_view(data_points@)) ==> r is Ok,
            r is Ok && data_points@.len() == 0 ==> *final(self) == *old(self),
            r is Err ==> final(self).history() == old(self).history(),
    {
        if data_points.len() == 0 {
            return Ok(());
        }
        let ghost views = points_view(data_points@);
        let ghost fits = old(self).spec_append_fits(views);
        let count = data_points.len();
        if count as u64 > 0xffffffffu64 {
            return Err(TimeSeriesError::persistence("too many points for one block"));
        }
        let compressed = match self.compressor.compress_if_beneficial(data_points) {
            Ok(c) => c,
            Err(e) => {
                proof {
                    assert(false);
                }
                return Err(e);
            },
        };
        proof {
            assert(compressed.compressed_size == old(self).spec_chosen_payload_len(views));
            assert(compressed.data@.len() == compressed.compressed_size);
            assert(compressed.original_size == spec_enc_batch(views).len());
        }
        if compressed.data.len() as u64 > 0xffffffffu64 {
            return Err(TimeSeriesError::persistence("block payload too large"));
        }
        if compressed.original_size as u64 > 0xffffffffu64 {
            return Err(TimeSeriesError::persistence("serialized batch too large"));
        }
        let checksum = rolling_checksum(compressed.data.as_slice());
        let block = BlockRec {
            write_ts,
            point_count: count as u32,
            compressed_size: compressed.data.len() as u32,
            uncompressed_size: compressed.original_size as u32,
            is_compressed: compressed.is_compressed,
            checksum,
            payload: compressed.data,
        };
        proof {
            assert(spec_block_batch_ok(block@, points_view(data_points@))) by {
                let serialized = spec_enc_batch(points_view(data_points@));
                if block@.is_compressed {
                    assert(zstd_unframe(block@.payload) == Some(serialized));
                }
            }
        }
        let block_bytes = encode_block(&block);
        let bb_len = block_bytes.len();
        proof {
            lemma_block_round_trip(block@, Seq::empty());
            assert(bb_len == 29 + old(self).spec_chosen_payload_len(views));
        }
        let wo = self.write_offset as usize;
        let required = match wo.checked_add(bb_len) {
            Some(v) => v,
            None => {
                proof {
                    if fits {
                        assert(false);
                    }
                }
                return Err(TimeSeriesError::persistence("log image size limit reached"));
            },
        };
        let new_total = match self.header.total_points.checked_add(count as u64) {
            Some(t) => t,
            None => {
                proof {
                    if fits {
                        assert(false);
                    }
                }
                return Err(TimeSeriesError::persistence("point count limit reached"));
            },
        };
        let ghost pre = *self;
        if required > self.image.len() {
            let doubled_file = self.image.len().checked_mul(2).unwrap_or(usize::MAX);
            let doubled_req = required.checked_mul(2).unwrap_or(usize::MAX);
            let new_size = if doubled_file > doubled_req {
                doubled_file
            } else {
                doubled_req
            };
            let ghost before_grow = self.image@;
            self.image.resize(new_size, 0);
            proof {
                assert(self.image@.subrange(0, before_grow.len() as int) =~= before_grow);
                assert forall|j: int|
                    0 <= j < before_grow.len() implies self.image@[j] == before_grow[j] by {
                    assert(self.image@.subrange(0, before_grow.len() as int)[j]
                        == self.image@[j]);
                }
                assert forall|j: int|
                    before_grow.len() <= j < self.image@.len() implies self.image@[j] == 0 by {
                    assert(vstd::pervasive::cloned::<u8>(0u8, self.image@[j]));
                }
                assert(self.image@.subrange(0, 73) =~= before_grow.subrange(0, 73));
                assert(self.image@.subrange(73, pre.spec_write_offset()) =~= before_grow.subrange(
                    73,
                    pre.spec_write_offset(),
                ));
            }
        }
        let ghost grown = *self;
        proof {
            assert(grown.spec_image().subrange(0, 73) == spec_enc_header(self.header));
            assert(grown.spec_image().subrange(73, grown.spec_write_offset())
                == spec_blocks_bytes(self.blocks@));
            assert forall|j: int|
                grown.spec_write_offset() <= j < grown.spec_image().len() implies
                grown.spec_image()[j] == 0 by {
                if j < pre.spec_image().len() {
                    assert(pre.spec_image()[j] == 0);
                }
            }
            lemma_zeros_no_block(grown.spec_image().skip(grown.spec_write_offset()));
            assert(spec_image_layout(
                grown.spec_image(),
                grown.spec_header(),
                grown.spec_blocks(),
                grown.spec_batches(),
                grown.spec_write_offset(),
            ));
        }
        write_bytes_at(&mut self.image, wo, &block_bytes);
        self.write_offset = required as u64;
        let first_ts = crate::query::min_ts_of(data_points);
        let last_ts = crate::query::max_ts_of(data_points);
        match self.header.first_timestamp {
            None => {
                self.header.first_timestamp = Some(first_ts);
            },
            Some(existing) => {
                if first_ts < existing {
                    self.header.first_timestamp = Some(first_ts);
                }
            },
        }
        match self.header.last_timestamp {
            None => {
                self.header.last_timestamp = Some(last_ts);
            },
            Some(existing) => {
                if last_ts > existing {
                    self.header.last_timestamp = Some(last_ts);
                }
            },
        }
        self.header.total_points = new_total;
        self.header.modified_at = now_secs;
        self.header.checksum = header_checksum(&self.header);
        let header_bytes = encode_header(&self.header);
        write_bytes_at(&mut self.image, 0, &header_bytes);
        proof {
            self.blocks@ = grown.spec_blocks().push(block@);
            self.batches@ = grown.spec_batches().push(points_view(data_points@));
        }
        proof {
            assert forall|j: int|
                73 <= j < wo implies self.image@[j] == grown.spec_image()[j] by {}
            assert(self.image@.subrange(0, 73) =~= spec_enc_header(self.header));
            assert(self.image@.subrange(73, wo as int) =~= grown.spec_image().subrange(
                73,
                wo as int,
            ));
            assert(self.image@.subrange(wo as int, self.write_offset as int) =~= block_bytes@);
            assert forall|j: int|
                self.write_offset as int <= j < self.image@.len() implies self.image@[j]
                == 0 by {
                assert(self.image@[j] == grown.spec_image()[j]);
            }
            lemma_append_layout(
                grown.spec_image(),
                grown.spec_header(),
                grown.spec_blocks(),
                grown.spec_batches(),
                wo as int,
                self.image@,
                self.header,
                block@,
                points_view(data_points@),
                self.write_offset as int,
            );
            assert(self.history() =~= grown.history() + points_view(data_points@));
        }
        Ok(())
    }

    /// Seal a batch into one block, stamped with the wall clock.  An empty
    /// batch is a no-op; a batch within the block and counter bounds is
    /// owed success.  On failure nothing is recorded.
    pub fn append_data_points(&mut self, data_points: &Vec<DataPoint>) -> (r: Result<
        (),
        TimeSeriesError,
    >)
        requires
            old(self).wf(),
            points_wf(points_view(data_points@)),
        ensures
            final(self).wf(),
            data_points@.len() == 0 ==> r is Ok,
            old(self).spec_append_fits(points_view(data_points@)) ==> r is Ok,
            r is Ok && data_points@.len() > 0 ==> final(self).history() == old(self).history()
                + points_view(data_points@) && final(self).spec_header().total_points == old(
                self,
            ).spec_header().total_points + data_points@.len(),
            r is Ok && data_points@.len() > 0 ==> final(self).spec_header().first_timestamp
                == Some(
                (match old(self).spec_header().first_timestamp {
                    None => crate::query::spec_min_ts(points_view(data_points@)),
                    Some(f) => if crate::query::spec_min_ts(points_view(data_points@)) < f {
                        crate::query::spec_min_ts(points_view(data_points@))
                    } else {
                        f
                    },
                }),
            ) && final(self).spec_header().last_timestamp == Some(
                (match old(self).spec_header().last_timestamp {
                    None => crate::query::spec_max_ts(points_view(data_points@)),
                    Some(l) => if crate::query::spec_max_ts(points_view(data_points@)) > l {
                        crate::query::spec_max_ts(points_view(data_points@))
                    } else {
                        l
                    },
                }),
            ),
            r is Ok && data_points@.len() == 0 ==> final(self).history() == old(self).history(),
            r is Err ==> final(self).history() == old(self).history(),
    {
        let write_ts = {
            let t = now_nanos();
            if t < 0 {
                0u64
            } else {
                t as u64
            }
        };
        let now_secs = now_seconds();
        self.append_at(data_points, write_ts, now_secs)
    }
}

/// Splicing one well-matched block onto a laid-out image, and rewriting
/// the header consistently, preserves the layout.
proof fn lemma_append_layout(
    old_img: Seq<u8>,
    h_old: FileHeader,
    bs_old: Seq<BlockView>,
    bts_old: Seq<Seq<DataPointView>>,
    wo: int,
    new_img: Seq<u8>,
    h_new: FileHeader,
    block: BlockView,
    batch: Seq<DataPointView>,
    end: int,
)
    requires
        spec_image_layout(old_img, h_old, bs_old, bts_old, wo),
        spec_block_batch_ok(block, batch),
        spec_header_ok(h_new),
        h_new.total_points == h_old.total_points + batch.len(),
        new_img.len() == old_img.len(),
        new_img.subrange(0, 73) == spec_enc_header(h_new),
        new_img.subrange(73, wo) == old_img.subrange(73, wo),
        end == wo + spec_enc_block(block).len(),
        end <= new_img.len(),
        new_img.subrange(wo, end) == spec_enc_block(block),
        forall|j: int| end <= j < new_img.len() ==> new_img[j] == 0,
    ensures
        spec_image_layout(new_img, h_new, bs_old.push(block), bts_old.push(batch), end),
        concat_batches(bts_old.push(batch)) == concat_batches(bts_old) + batch,
    decreases 0int,
{
    let bs = bs_old.push(block);
    let bts = bts_old.push(batch);
    lemma_blocks_bytes_concat(bs_old, seq![block]);
    assert(seq![block].drop_first() =~= Seq::<BlockView>::empty());
    assert(spec_blocks_bytes(Seq::<BlockView>::empty()) == Seq::<u8>::empty());
    assert(spec_blocks_bytes(seq![block]) =~= spec_enc_block(block));
    assert(bs =~= bs_old + seq![block]);
    assert(spec_blocks_bytes(bs) =~= spec_blocks_bytes(bs_old) + spec_enc_block(block));
    assert(new_img.subrange(73, end) =~= spec_blocks_bytes(bs)) by {
        assert forall|j: int|
            0 <= j < end - 73 implies new_img.subrange(73, end)[j] == spec_blocks_bytes(
            bs,
        )[j] by {
            if j < wo - 73 {
                assert(new_img.subrange(73, wo)[j] == old_img.subrange(73, wo)[j]);
            } else {
                assert(new_img.subrange(wo, end)[j - (wo - 73)] == spec_enc_block(block)[j - (wo
                    - 73)]);
            }
        }
    }
    lemma_zeros_no_block(new_img.skip(end));
    assert(spec_blocks_ok(bs, bts)) by {
        assert forall|i: int|
            0 <= i < bs.len() implies spec_block_batch_ok(#[trigger] bs[i], bts[i]) by {
            if i < bs_old.len() {
                assert(bs[i] == bs_old[i]);
                assert(bts[i] == bts_old[i]);
                assert(spec_block_batch_ok(bs_old[i], bts_old[i]));
            } else {
                assert(bs[i] == block);
                assert(bts[i] == batch);
            }
        }
    }
    assert(h_new.total_points == sum_batch_lens(bts)) by {
        assert(bts.drop_last() =~= bts_old);
    }
    assert(concat_batches(bts) =~= concat_batches(bts_old) + batch) by {
        assert(bts.drop_last() =~= bts_old);
    }
}



impl MmapStorage {
    /// Read back every recorded sample, in append order.  On a
    /// well-formed log this never fails and returns exactly the history.
    #[verifier::rlimit(100)]
    pub fn read_all_data_points(&self) -> (r: Result<Vec<DataPoint>, TimeSeriesError>)
        requires
            self.wf(),
        ensures
            r matches Ok(v) && points_view(v@) == self.history(),
    {
        let ghost wbs = self.spec_blocks();
        let ghost wbts = self.spec_batches();
        let mut acc: Vec<DataPoint> = Vec::new();
        let mut cur: usize = 73;
        let mut k: usize = 0;
        proof {
            assert(wbs.take(0) =~= Seq::<BlockView>::empty());
            assert(wbts.take(0) =~= Seq::<Seq<DataPointView>>::empty());
            assert(spec_blocks_bytes(wbs.take(0)) =~= Seq::<u8>::empty());
            assert(points_view(acc@) =~= concat_batches(wbts.take(0)));
        }
        while (cur as u64) < self.write_offset
            invariant
                self.wf(),
                wbs == self.spec_blocks(),
                wbts == self.spec_batches(),
                k <= wbs.len(),
                29 * k <= cur - 73,
                cur == 73 + spec_blocks_bytes(wbs.take(k as int)).len(),
                cur as int <= self.spec_write_offset(),
                points_view(acc@) == concat_batches(wbts.take(k as int)),
            decreases self.spec_write_offset() - cur,
        {
            proof {
                assert(wbs.take(wbs.len() as int) =~= wbs);
                if k == wbs.len() {
                    assert(cur as int == self.spec_write_offset());
                }
                assert(k < wbs.len());
            }
            let ghost blk = wbs[k as int];
            let ghost batch = wbts[k as int];
            proof {
                lemma_scan_block_at(
                    self.spec_image(),
                    wbs,
                    wbts,
                    k as int,
                    cur as int,
                    self.spec_write_offset(),
                );
            }
            let parsed = decode_block_at(&self.image, cur);
            let (rec, next) = match parsed {
                Some(p) => p,
                None => {
                    proof {
                        assert(false);
                    }
                    return Err(TimeSeriesError::persistence("log invariant violated"));
                },
            };
            proof {
                assert(rec@ == blk);
                assert(rec.payload@ == blk.payload);
                assert(spec_block_batch_ok(blk, batch));
            }
            let payload_bytes = if rec.is_compressed {
                match crate::compression::decompress_frame(&rec.payload) {
                    Ok(b) => b,
                    Err(_) => {
                        proof {
                            assert(zstd_unframe(rec.payload@) == Some(spec_enc_batch(batch)));
                            assert(false);
                        }
                        return Err(TimeSeriesError::persistence("log invariant violated"));
                    },
                }
            } else {
                rec.payload
            };
            proof {
                assert(payload_bytes@ == spec_enc_batch(batch));
                crate::encoding::lemma_batch_round_trip(batch);
            }
            let mut decoded = match crate::encoding::decode_batch(&payload_bytes) {
                Ok(v) => v,
                Err(_) => {
                    proof {
                        assert(false);
                    }
                    return Err(TimeSeriesError::persistence("log invariant violated"));
                },
            };
            proof {
                assert(points_view(decoded@) == batch);
            }
            let ghost accpre = acc@;
            acc.append(&mut decoded);
            proof {
                assert(points_view(acc@) =~= points_view(accpre) + batch);
                lemma_scan_advance(wbs, wbts, k as int, self.spec_write_offset());
                assert(points_view(acc@) =~= concat_batches(wbts.take(k as int + 1)));
                lemma_block_round_trip(blk, Seq::empty());
                assert(next == cur + spec_enc_block(blk).len());
            }
            cur = next;
            k = k + 1;
        }
        proof {
            if k < wbs.len() {
                lemma_scan_block_at(
                    self.spec_image(),
                    wbs,
                    wbts,
                    k as int,
                    cur as int,
                    self.spec_write_offset(),
                );
                lemma_dec_block_shape(self.spec_image().skip(cur as int));
                assert(false);
            }
            assert(wbts.take(k as int) =~= wbts);
        }
        Ok(acc)
    }
}

/// A parsed block consumes at least its prologue.
proof fn lemma_dec_block_shape(b: Seq<u8>)
    ensures
        spec_dec_block(b) matches Some(pr) ==> 29 <= pr.1 <= b.len(),
{
}

/// In a laid-out image, block `k` parses at its boundary offset.
proof fn lemma_scan_block_at(
    img: Seq<u8>,
    bs: Seq<BlockView>,
    bts: Seq<Seq<DataPointView>>,
    k: int,
    cur: int,
    end: int,
)
    requires
        spec_blocks_ok(bs, bts),
        0 <= k < bs.len(),
        cur == 73 + spec_blocks_bytes(bs.take(k)).len(),
        end == 73 + spec_blocks_bytes(bs).len(),
        end <= img.len(),
        img.subrange(73, end) == spec_blocks_bytes(bs),
    ensures
        cur <= end,
        spec_dec_block(img.skip(cur)) == Some((bs[k], spec_enc_block(bs[k]).len() as int)),
        cur + spec_enc_block(bs[k]).len() <= end,
    decreases 0int,
{
    assert(bs =~= bs.take(k) + bs.skip(k));
    lemma_blocks_bytes_concat(bs.take(k), bs.skip(k));
    assert(bs.skip(k).len() > 0);
    assert(bs.skip(k)[0] == bs[k]);
    assert(bs.skip(k).drop_first() =~= bs.skip(k + 1));
    assert(spec_blocks_bytes(bs.skip(k)) == spec_enc_block(bs[k]) + spec_blocks_bytes(
        bs.skip(k + 1),
    ));
    lemma_blocks_bytes_len_nonneg(bs.skip(k + 1));
    assert(spec_block_batch_ok(bs[k], bts[k]));
    lemma_block_round_trip(bs[k], spec_blocks_bytes(bs.skip(k + 1)) + img.skip(end));
    assert(img.skip(cur) =~= spec_enc_block(bs[k]) + (spec_blocks_bytes(bs.skip(k + 1))
        + img.skip(end))) by {
        assert forall|j: int| 0 <= j < img.len() - cur implies img.skip(cur)[j] == (
        spec_enc_block(bs[k]) + (spec_blocks_bytes(bs.skip(k + 1)) + img.skip(end)))[j] by {
            if cur + j < end {
                assert(img.subrange(73, end)[cur - 73 + j] == img[cur + j]);
                assert(spec_blocks_bytes(bs)[cur - 73 + j] == (spec_blocks_bytes(bs.take(k))
                    + spec_blocks_bytes(bs.skip(k)))[cur - 73 + j]);
            } else {
                assert(img.skip(end)[cur + j - end] == img[cur + j]);
            }
        }
    }
}

/// Block-sequence bytes have non-negative length.
proof fn lemma_blocks_bytes_len_nonneg(bs: Seq<BlockView>)
    ensures
        spec_blocks_bytes(bs).len() >= 0,
{
}

/// Each block contributes at least its 29-byte prologue.
proof fn lemma_blocks_bytes_min(bs: Seq<BlockView>)
    ensures
        spec_blocks_bytes(bs).len() >= 29 * bs.len(),
    decreases bs.len(),
{
    if bs.len() > 0 {
        lemma_blocks_bytes_min(bs.drop_first());
        lemma_auto_spec_u64_to_from_le_bytes();
        assert(spec_enc_block(bs[0]).len() >= 29);
        assert(bs.drop_first().len() == bs.len() - 1);
        assert(29 * (bs.len() as int) == 29 * (bs.len() as int - 1) + 29) by (nonlinear_arith);
    }
}

/// The scanned prefix never outruns the data end.
proof fn lemma_scan_bytes_bound(img: Seq<u8>, bs: Seq<BlockView>, k: int, end: int)
    requires
        0 <= k <= bs.len(),
        end == 73 + spec_blocks_bytes(bs).len(),
    ensures
        73 + spec_blocks_bytes(bs.take(k)).len() <= end,
    decreases 0int,
{
    assert(bs =~= bs.take(k) + bs.skip(k));
    lemma_blocks_bytes_concat(bs.take(k), bs.skip(k));
}




/// Prefix sums of batch lengths never exceed the full sum.
proof fn lemma_sum_batch_lens_prefix(bs: Seq<Seq<DataPointView>>, k: int)
    requires
        0 <= k <= bs.len(),
    ensures
        sum_batch_lens(bs.take(k)) <= sum_batch_lens(bs),
        sum_batch_lens(bs.take(k)) >= 0,
    decreases bs.len(),
{
    if bs.len() == 0 {
        assert(bs.take(k) =~= bs);
    } else if k == bs.len() {
        assert(bs.take(k) =~= bs);
        lemma_sum_batch_lens_nonneg(bs);
    } else {
        assert(bs.drop_last().take(k) =~= bs.take(k));
        lemma_sum_batch_lens_prefix(bs.drop_last(), k);
    }
}

/// Summed batch lengths are never negative.
proof fn lemma_sum_batch_lens_nonneg(bs: Seq<Seq<DataPointView>>)
    ensures
        sum_batch_lens(bs) >= 0,
    decreases bs.len(),
{
    if bs.len() > 0 {
        lemma_sum_batch_lens_nonneg(bs.drop_last());
    }
}

impl MmapStorage {
    /// Open a log from the bytes of an existing image.  The header is
    /// validated first: a bad magic number, version or checksum is a
    /// `Persistence` error.  Blocks are then scanned from the data offset;
    /// the scan stops at the first record that fails to parse, decode, or
    /// round-trip, so a truncated or corrupt tail is tolerated and elided,
    /// and the header's point count is restored from what was recovered.
    /// Every image that is a valid log of some batches is recovered whole.
    #[verifier::rlimit(100)]
    pub fn open_from_image(image: Vec<u8>) -> (r: Result<MmapStorage, TimeSeriesError>)
        ensures
            spec_dec_header(image@) is None ==> r is Err,
            (spec_dec_header(image@) matches Some(h) && (h.magic != MAGIC_NUMBER || h.version
                != FILE_VERSION || h.checksum != spec_header_checksum(h))) ==> (r matches Err(e)
                && e is Persistence),
            r matches Ok(s) ==> s.wf(),
            forall|h: FileHeader, bs: Seq<BlockView>, bts: Seq<Seq<DataPointView>>|
                #[trigger] spec_image_layout(
                    image@,
                    h,
                    bs,
                    bts,
                    73 + spec_blocks_bytes(bs).len() as int,
                ) ==> (r matches Ok(s) && s.history() == concat_batches(bts) && s.spec_header()
                    == h),
    {
        let ghost has_wit = exists|h: FileHeader, bs: Seq<BlockView>, bts: Seq<Seq<DataPointView>>|
            #[trigger] spec_image_layout(
                image@,
                h,
                bs,
                bts,
                73 + spec_blocks_bytes(bs).len() as int,
            );
        let ghost (wh, wbs, wbts): (FileHeader, Seq<BlockView>, Seq<Seq<DataPointView>>) = if has_wit {
            choose|h: FileHeader, bs: Seq<BlockView>, bts: Seq<Seq<DataPointView>>|
                #[trigger] spec_image_layout(
                    image@,
                    h,
                    bs,
                    bts,
                    73 + spec_blocks_bytes(bs).len() as int,
                )
        } else {
            arbitrary()
        };
        let ghost wend: int = 73 + spec_blocks_bytes(wbs).len() as int;
        proof {
            if has_wit {
                assert(spec_image_layout(image@, wh, wbs, wbts, wend));
                lemma_header_round_trip(wh, image@.skip(73));
                assert(image@ =~= spec_enc_header(wh) + image@.skip(73));
            }
        }
        let mut header = match decode_header(&image) {
            Some(h) => h,
            None => {
                proof {
                    if has_wit {
                        assert(false);
                    }
                }
                return Err(TimeSeriesError::persistence("truncated or malformed header"));
            },
        };
        if header.magic != MAGIC_NUMBER {
            proof {
                if has_wit {
                    assert(false);
                }
            }
            return Err(
                TimeSeriesError::persistence("invalid file format: magic number mismatch"),
            );
        }
        if header.version != FILE_VERSION {
            proof {
                if has_wit {
                    assert(false);
                }
            }
            return Err(TimeSeriesError::persistence("unsupported file version"));
        }
        let expected = header_checksum(&header);
        if header.checksum != expected {
            proof {
                if has_wit {
                    assert(false);
                }
            }
            return Err(TimeSeriesError::persistence("header checksum verification failed"));
        }
        if header.header_size != 73 || header.data_offset != 73 {
            proof {
                if has_wit {
                    assert(header == wh);
                    assert(false);
                }
            }
            return Err(TimeSeriesError::persistence("unsupported header layout"));
        }
        let ghost old_image_view = image@;
        proof {
            if has_wit {
                assert(spec_image_layout(old_image_view, wh, wbs, wbts, wend));
            }
        }
        let mut image = image;
        let image_len = image.len();
        let mut cur: usize = 73;
        let mut k: usize = 0;
        let ghost mut gblocks: Seq<BlockView> = Seq::empty();
        let ghost mut gbatches: Seq<Seq<DataPointView>> = Seq::empty();
        let mut recovered: u64 = 0;
        proof {
            assert(spec_blocks_bytes(gblocks) =~= Seq::<u8>::empty());
            assert(image@.subrange(73, 73) =~= spec_blocks_bytes(gblocks));
            if has_wit {
                assert(wbs.take(0) =~= gblocks);
                assert(wbts.take(0) =~= gbatches);
            }
        }
        loop
            invariant
                73 <= cur <= image@.len(),
                image@.len() == image_len,
                gblocks.len() == gbatches.len(),
                k == gblocks.len(),
                29 * k <= cur - 73,
                spec_blocks_ok(gblocks, gbatches),
                cur == 73 + spec_blocks_bytes(gblocks).len(),
                image@.subrange(73, cur as int) == spec_blocks_bytes(gblocks),
                recovered == sum_batch_lens(gbatches),
                has_wit ==> spec_image_layout(image@, wh, wbs, wbts, wend),
                has_wit ==> k <= wbs.len() && gblocks == wbs.take(k as int) && gbatches
                    == wbts.take(k as int),
                has_wit ==> header == wh,
            ensures
                73 <= cur <= image@.len(),
                gblocks.len() == gbatches.len(),
                spec_blocks_ok(gblocks, gbatches),
                cur == 73 + spec_blocks_bytes(gblocks).len(),
                image@.subrange(73, cur as int) == spec_blocks_bytes(gblocks),
                recovered == sum_batch_lens(gbatches),
                has_wit ==> gblocks == wbs && gbatches == wbts && header == wh,
            decreases image@.len() - cur,
        {
            proof {
                if has_wit {
                    if k < wbs.len() {
                        lemma_scan_block_at(image@, wbs, wbts, k as int, cur as int, wend);
                    } else {
                        assert(wbs.take(k as int) =~= wbs);
                        assert(cur as int == wend);
                    }
                }
            }
            let parsed = decode_block_at(&image, cur);
            let (rec, next) = match parsed {
                Some(p) => p,
                None => {
                    proof {
                        if has_wit {
                            if k < wbs.len() {
                                assert(false);
                            }
                            assert(wbts.take(k as int) =~= wbts);
                        }
                    }
                    break;
                },
            };
            proof {
                lemma_dec_block_shape(image@.skip(cur as int));
                if has_wit {
                    if k == wbs.len() {
                        assert(spec_dec_block(image@.skip(wend)) is None);
                        assert(false);
                    }
                    assert(rec@ == wbs[k as int]);
                    assert(spec_block_batch_ok(wbs[k as int], wbts[k as int]));
                }
            }
            let payload_bytes = if rec.is_compressed {
                match crate::compression::decompress_frame(&rec.payload) {
                    Ok(b) => b,
                    Err(_) => {
                        proof {
                            if has_wit {
                                assert(zstd_unframe(rec.payload@) == Some(
                                    spec_enc_batch(wbts[k as int]),
                                ));
                                assert(false);
                            }
                        }
                        break;
                    },
                }
            } else {
                crate::types::clone_bytes(&rec.payload)
            };
            proof {
                if has_wit {
                    assert(payload_bytes@ == spec_enc_batch(wbts[k as int]));
                    crate::encoding::lemma_batch_round_trip(wbts[k as int]);
                }
            }
            let decoded = match crate::encoding::decode_batch(&payload_bytes) {
                Ok(v) => v,
                Err(_) => {
                    proof {
                        if has_wit {
                            assert(false);
                        }
                    }
                    break;
                },
            };
            let ghost batch = points_view(decoded@);
            proof {
                if has_wit {
                    assert(batch == wbts[k as int]);
                }
            }
            if decoded.len() == 0 {
                proof {
                    if has_wit {
                        assert(wbts[k as int].len() >= 1);
                        assert(false);
                    }
                }
                break;
            }
            if decoded.len() as u64 > 0xffffffffu64 || rec.point_count as u64 != decoded.len()
                as u64 {
                proof {
                    if has_wit {
                        assert(wbs[k as int].point_count == wbts[k as int].len());
                        assert(false);
                    }
                }
                break;
            }
            // The format is canonical: a decoded block must serialize back
            // to the exact bytes it was decoded from, else the record is
            // treated as corrupt and the scan stops.
            let reencoded = crate::encoding::encode_batch(&decoded);
            if !crate::types::bytes_eq(&reencoded, &payload_bytes) {
                proof {
                    if has_wit {
                        assert(reencoded@ == spec_enc_batch(wbts[k as int]));
                        assert(false);
                    }
                }
                break;
            }
            let new_recovered = match recovered.checked_add(decoded.len() as u64) {
                Some(t) => t,
                None => {
                    proof {
                        if has_wit {
                            lemma_sum_batch_lens_prefix(wbts, k as int + 1);
                            lemma_sum_batch_lens_prefix(wbts, wbts.len() as int);
                            assert(wbts.take(wbts.len() as int) =~= wbts);
                            assert(wbts.take(k as int + 1).drop_last() =~= wbts.take(k as int));
                            assert(wbts.take(k as int + 1).last() == wbts[k as int]);
                            assert(false);
                        }
                    }
                    break;
                },
            };
            proof {
                let blk = rec@;
                assert(spec_block_batch_ok(blk, batch)) by {
                    assert(crate::encoding::batch_encodable(batch));
                    assert(points_wf(batch));
                    if blk.is_compressed {
                        assert(zstd_unframe(blk.payload) == Some(payload_bytes@));
                        assert(payload_bytes@ == spec_enc_batch(batch));
                    } else {
                        assert(blk.payload == payload_bytes@);
                        assert(blk.payload == spec_enc_batch(batch));
                    }
                }
                lemma_open_scan_step(
                    image@,
                    gblocks,
                    gbatches,
                    cur as int,
                    blk,
                    batch,
                    next as int,
                );
                let gb2 = gblocks.push(blk);
                let gt2 = gbatches.push(batch);
                if has_wit {
                    assert(gb2 =~= wbs.take(k as int + 1));
                    assert(gt2 =~= wbts.take(k as int + 1));
                }
                gblocks = gb2;
                gbatches = gt2;
            }
            recovered = new_recovered;
            cur = next;
            k = k + 1;
            proof {
                lemma_blocks_bytes_min(gblocks);
            }
        }
        header.total_points = recovered;
        header.checksum = header_checksum(&header);
        let header_bytes = encode_header(&header);
        proof {
            assert(73 <= image@.len());
        }
        write_bytes_at(&mut image, 0, &header_bytes);
        let ghost mid_img = image@;
        zero_from(&mut image, cur);
        let s = MmapStorage {
            image,
            header,
            write_offset: cur as u64,
            compressor: AdaptiveCompressor::new(),
            blocks: Ghost(gblocks),
            batches: Ghost(gbatches),
        };
        proof {
            assert(s.spec_image().subrange(0, 73) =~= spec_enc_header(header));
            assert(s.spec_image().subrange(73, cur as int) =~= spec_blocks_bytes(gblocks)) by {
                assert forall|j: int|
                    73 <= j < cur implies s.spec_image()[j] == spec_blocks_bytes(gblocks)[j
                    - 73] by {
                    assert(s.spec_image()[j] == mid_img[j]);
                }
            }
            assert forall|j: int|
                cur <= j < s.spec_image().len() implies s.spec_image()[j] == 0 by {}
            lemma_zeros_no_block(s.spec_image().skip(cur as int));
            assert(spec_header_ok(header)) by {
                assert(spec_header_checksum(header) == spec_header_checksum(
                    FileHeader { checksum: 0, ..header },
                ));
            }
            assert(s.wf());
            if has_wit {
                assert(s.history() == concat_batches(wbts));
                assert(header.total_points == wh.total_points) by {
                    assert(sum_batch_lens(wbts) == wh.total_points);
                }
                assert(header.checksum == wh.checksum) by {
                    assert(spec_header_checksum(header) == spec_header_checksum(wh));
                }
                assert(header == wh);
            }
            let ghost orig_img = old_image_view;
            assert forall|h2: FileHeader, bs2: Seq<BlockView>, bts2: Seq<Seq<DataPointView>>|
                #[trigger] spec_image_layout(
                    orig_img,
                    h2,
                    bs2,
                    bts2,
                    73 + spec_blocks_bytes(bs2).len() as int,
                ) implies s.history() == concat_batches(bts2) && s.spec_header() == h2 by {
                lemma_layout_unique(orig_img, wh, wbs, wbts, h2, bs2, bts2);
            }
        }
        Ok(s)
    }
}

/// A successful parse reads back exactly the block's encoding.
proof fn lemma_parse_is_enc(b: Seq<u8>, blk: BlockView)
    requires
        spec_dec_block(b) == Some((blk, spec_enc_block(blk).len() as int)),
    ensures
        forall|j: int|
            0 <= j < spec_enc_block(blk).len() ==> b[j] == #[trigger] spec_enc_block(blk)[j],
    decreases 0int,
{
    lemma_auto_spec_u64_to_from_le_bytes();
    lemma_le32_round_trip(blk.point_count);
    lemma_le32_round_trip(blk.compressed_size);
    lemma_le32_round_trip(blk.uncompressed_size);
    lemma_le32_from_val(b.subrange(8, 12));
    lemma_le32_from_val(b.subrange(12, 16));
    lemma_le32_from_val(b.subrange(16, 20));
    let e = spec_enc_block(blk);
    assert forall|j: int| 0 <= j < e.len() implies b[j] == #[trigger] e[j] by {
        if j < 8 {
            assert(spec_u64_to_le_bytes(spec_u64_from_le_bytes(b.subrange(0, 8))) =~= b.subrange(
                0,
                8,
            ));
            assert(e.subrange(0, 8) =~= spec_u64_to_le_bytes(blk.write_ts));
            assert(e.subrange(0, 8)[j] == e[j]);
            assert(b.subrange(0, 8)[j] == b[j]);
        } else if j < 12 {
            assert(e.subrange(8, 12) =~= spec_le32(blk.point_count));
            assert(spec_le32(spec_le32_val(b.subrange(8, 12))) =~= b.subrange(8, 12));
            assert(e.subrange(8, 12)[j - 8] == e[j]);
            assert(b.subrange(8, 12)[j - 8] == b[j]);
        } else if j < 16 {
            assert(e.subrange(12, 16) =~= spec_le32(blk.compressed_size));
            assert(spec_le32(spec_le32_val(b.subrange(12, 16))) =~= b.subrange(12, 16));
            assert(e.subrange(12, 16)[j - 12] == e[j]);
            assert(b.subrange(12, 16)[j - 12] == b[j]);
        } else if j < 20 {
            assert(e.subrange(16, 20) =~= spec_le32(blk.uncompressed_size));
            assert(spec_le32(spec_le32_val(b.subrange(16, 20))) =~= b.subrange(16, 20));
            assert(e.subrange(16, 20)[j - 16] == e[j]);
            assert(b.subrange(16, 20)[j - 16] == b[j]);
        } else if j == 20 {
            assert(e[20] == (if blk.is_compressed {
                1u8
            } else {
                0u8
            }));
        } else if j < 29 {
            assert(spec_u64_to_le_bytes(spec_u64_from_le_bytes(b.subrange(21, 29)))
                =~= b.subrange(21, 29));
            assert(e.subrange(21, 29) =~= spec_u64_to_le_bytes(blk.checksum));
            assert(e.subrange(21, 29)[j - 21] == e[j]);
            assert(b.subrange(21, 29)[j - 21] == b[j]);
        } else {
            assert(blk.payload == b.subrange(29, 29 + blk.compressed_size as int));
            assert(e.subrange(29, e.len() as int) =~= blk.payload);
            assert(e.subrange(29, e.len() as int)[j - 29] == e[j]);
            assert(b.subrange(29, 29 + blk.compressed_size as int)[j - 29] == b[j]);
        }
    }
}

/// Encoding the value four bytes spell gives the bytes back.
proof fn lemma_le32_from_val(s: Seq<u8>)
    requires
        s.len() == 4,
    ensures
        spec_le32(spec_le32_val(s)) == s,
{
    let b0 = s[0];
    let b1 = s[1];
    let b2 = s[2];
    let b3 = s[3];
    let x = spec_le32_val(s);
    assert({
        let v = (b0 as u32) | ((b1 as u32) << 8) | ((b2 as u32) << 16) | ((b3 as u32) << 24);
        (v & 0xff) as u8 == b0 && ((v >> 8) & 0xff) as u8 == b1 && ((v >> 16) & 0xff) as u8 == b2
            && ((v >> 24) & 0xff) as u8 == b3
    }) by (bit_vector);
    assert(spec_le32(x) =~= s);
}


/// Two valid layouts of one image agree entirely.
proof fn lemma_layout_unique(
    img: Seq<u8>,
    h1: FileHeader,
    bs1: Seq<BlockView>,
    bts1: Seq<Seq<DataPointView>>,
    h2: FileHeader,
    bs2: Seq<BlockView>,
    bts2: Seq<Seq<DataPointView>>,
)
    requires
        spec_image_layout(img, h1, bs1, bts1, 73 + spec_blocks_bytes(bs1).len() as int),
        spec_image_layout(img, h2, bs2, bts2, 73 + spec_blocks_bytes(bs2).len() as int),
    ensures
        h1 == h2,
        bs1 == bs2,
        bts1 == bts2,
    decreases 0int,
{
    lemma_header_round_trip(h1, img.skip(73));
    lemma_header_round_trip(h2, img.skip(73));
    assert(img =~= spec_enc_header(h1) + img.skip(73));
    assert(img =~= spec_enc_header(h2) + img.skip(73));
    assert(spec_dec_header(img) == Some(h1));
    assert(spec_dec_header(img) == Some(h2));
    assert(bs1.take(0) =~= bs2.take(0));
    assert(bts1.take(0) =~= bts2.take(0));
    lemma_blocks_agree(img, bs1, bts1, bs2, bts2, 0);
}

/// Block lists that tile the same image agree from position `k` on, given
/// they agree before it.
proof fn lemma_blocks_agree(
    img: Seq<u8>,
    bs1: Seq<BlockView>,
    bts1: Seq<Seq<DataPointView>>,
    bs2: Seq<BlockView>,
    bts2: Seq<Seq<DataPointView>>,
    k: int,
)
    requires
        spec_blocks_ok(bs1, bts1),
        spec_blocks_ok(bs2, bts2),
        73 + spec_blocks_bytes(bs1).len() <= img.len(),
        73 + spec_blocks_bytes(bs2).len() <= img.len(),
        img.subrange(73, 73 + spec_blocks_bytes(bs1).len() as int) == spec_blocks_bytes(bs1),
        img.subrange(73, 73 + spec_blocks_bytes(bs2).len() as int) == spec_blocks_bytes(bs2),
        spec_dec_block(img.skip(73 + spec_blocks_bytes(bs1).len() as int)) is None,
        spec_dec_block(img.skip(73 + spec_blocks_bytes(bs2).len() as int)) is None,
        0 <= k <= bs1.len(),
        k <= bs2.len(),
        bs1.take(k) == bs2.take(k),
        bts1.take(k) == bts2.take(k),
    ensures
        bs1 == bs2,
        bts1 == bts2,
    decreases bs1.len() + bs2.len() - 2 * k,
{
    let e1 = 73 + spec_blocks_bytes(bs1).len() as int;
    let e2 = 73 + spec_blocks_bytes(bs2).len() as int;
    let cur = 73 + spec_blocks_bytes(bs1.take(k)).len() as int;
    if k == bs1.len() && k == bs2.len() {
        assert(bs1.take(k) =~= bs1);
        assert(bs2.take(k) =~= bs2);
        assert(bts1 =~= bts1.take(k));
        assert(bts2 =~= bts2.take(k));
        assert(bts1 =~= bts2);
    } else if k == bs1.len() {
        assert(bs1.take(k) =~= bs1);
        assert(cur == e1);
        lemma_scan_block_at(img, bs2, bts2, k, cur, e2);
        assert(false);
    } else if k == bs2.len() {
        assert(bs2.take(k) =~= bs2);
        assert(spec_blocks_bytes(bs2.take(k)) == spec_blocks_bytes(bs1.take(k)));
        assert(cur == e2);
        lemma_scan_block_at(img, bs1, bts1, k, cur, e1);
        assert(false);
    } else {
        lemma_scan_block_at(img, bs1, bts1, k, cur, e1);
        assert(spec_blocks_bytes(bs2.take(k)) == spec_blocks_bytes(bs1.take(k)));
        lemma_scan_block_at(img, bs2, bts2, k, cur, e2);
        assert(bs1[k] == bs2[k]);
        assert(spec_block_batch_ok(bs1[k], bts1[k]));
        assert(spec_block_batch_ok(bs2[k], bts2[k]));
        assert(bts1[k] == bts2[k]) by {
            crate::encoding::lemma_batch_round_trip(bts1[k]);
            crate::encoding::lemma_batch_round_trip(bts2[k]);
            if bs1[k].is_compressed {
                assert(zstd_unframe(bs1[k].payload) == Some(spec_enc_batch(bts1[k])));
                assert(zstd_unframe(bs2[k].payload) == Some(spec_enc_batch(bts2[k])));
                assert(spec_enc_batch(bts1[k]) == spec_enc_batch(bts2[k]));
            } else {
                assert(spec_enc_batch(bts1[k]) == spec_enc_batch(bts2[k]));
            }
            assert(crate::encoding::spec_dec_batch(spec_enc_batch(bts1[k])) == Some(bts1[k]));
            assert(crate::encoding::spec_dec_batch(spec_enc_batch(bts2[k])) == Some(bts2[k]));
        }
        assert(bs1.take(k + 1) =~= bs2.take(k + 1)) by {
            assert(bs1.take(k + 1) =~= bs1.take(k).push(bs1[k]));
            assert(bs2.take(k + 1) =~= bs2.take(k).push(bs2[k]));
        }
        assert(bts1.take(k + 1) =~= bts2.take(k + 1)) by {
            assert(bts1.take(k + 1) =~= bts1.take(k).push(bts1[k]));
            assert(bts2.take(k + 1) =~= bts2.take(k).push(bts2[k]));
        }
        lemma_blocks_agree(img, bs1, bts1, bs2, bts2, k + 1);
    }
}


/// Whether offset `i` lies in a checksum-covered header field: the magic
/// number, the version, the total point count or the creation time.
pub open spec fn spec_covered_offset(i: int) -> bool {
    (0 <= i < 4) || (4 <= i < 6) || (10 <= i < 18) || (41 <= i < 49)
}

/// Corrupting any single byte of a covered header field is detected:
/// the header either no longer carries the magic number and version, or
/// its stored checksum no longer matches the recomputed one — so opening
/// the mutated image fails with a `Persistence` error.
pub proof fn lemma_header_mutation_detected(
    img: Seq<u8>,
    h: FileHeader,
    img2: Seq<u8>,
    i: int,
)
    requires
        img.len() >= 73,
        img.subrange(0, 73) == spec_enc_header(h),
        spec_header_ok(h),
        img2.len() == img.len(),
        forall|j: int| 0 <= j < img.len() && j != i ==> img2[j] == img[j],
        spec_covered_offset(i),
        img2[i] != img[i],
    ensures
        spec_dec_header(img2) matches Some(h2) ==> h2.magic != MAGIC_NUMBER || h2.version
            != FILE_VERSION || h2.checksum != spec_header_checksum(h2),
    decreases 0int,
{
    lemma_auto_spec_u16_to_from_le_bytes();
    lemma_auto_spec_u32_to_from_le_bytes();
    lemma_auto_spec_u64_to_from_le_bytes();
    lemma_header_round_trip(h, img.skip(73));
    assert(img =~= spec_enc_header(h) + img.skip(73));
    assert(spec_dec_header(img) == Some(h));
    if spec_dec_header(img2) is Some {
        let h2 = spec_dec_header(img2).unwrap();
        assert(img.subrange(65, 73) =~= img2.subrange(65, 73));
        assert(h2.checksum == h.checksum);
        if 0 <= i < 4 {
            assert(h2.magic != h.magic) by {
                if h2.magic == h.magic {
                    assert(spec_u32_to_le_bytes(spec_u32_from_le_bytes(img.subrange(0, 4)))
                        =~= img.subrange(0, 4));
                    assert(spec_u32_to_le_bytes(spec_u32_from_le_bytes(img2.subrange(0, 4)))
                        =~= img2.subrange(0, 4));
                    assert(img.subrange(0, 4) =~= img2.subrange(0, 4));
                    assert(img.subrange(0, 4)[i] == img2.subrange(0, 4)[i]);
                }
            }
        } else if 4 <= i < 6 {
            assert(h2.version != h.version) by {
                if h2.version == h.version {
                    assert(spec_u16_to_le_bytes(spec_u16_from_le_bytes(img.subrange(4, 6)))
                        =~= img.subrange(4, 6));
                    assert(spec_u16_to_le_bytes(spec_u16_from_le_bytes(img2.subrange(4, 6)))
                        =~= img2.subrange(4, 6));
                    assert(img.subrange(4, 6) =~= img2.subrange(4, 6));
                    assert(img.subrange(4, 6)[i - 4] == img2.subrange(4, 6)[i - 4]);
                }
            }
        } else if 10 <= i < 18 {
            assert(h2.magic == h.magic && h2.version == h.version && h2.created_at
                == h.created_at) by {
                assert(img.subrange(0, 4) =~= img2.subrange(0, 4));
                assert(img.subrange(4, 6) =~= img2.subrange(4, 6));
                assert(img.subrange(41, 49) =~= img2.subrange(41, 49));
            }
            assert(h2.total_points != h.total_points) by {
                if h2.total_points == h.total_points {
                    assert(spec_u64_to_le_bytes(spec_u64_from_le_bytes(img.subrange(10, 18)))
                        =~= img.subrange(10, 18));
                    assert(spec_u64_to_le_bytes(spec_u64_from_le_bytes(img2.subrange(10, 18)))
                        =~= img2.subrange(10, 18));
                    assert(img.subrange(10, 18) =~= img2.subrange(10, 18));
                    assert(img.subrange(10, 18)[i - 10] == img2.subrange(10, 18)[i - 10]);
                }
            }
            lemma_checksum_differs(h, h2);
        } else {
            assert(h2.magic == h.magic && h2.version == h.version && h2.total_points
                == h.total_points) by {
                assert(img.subrange(0, 4) =~= img2.subrange(0, 4));
                assert(img.subrange(4, 6) =~= img2.subrange(4, 6));
                assert(img.subrange(10, 18) =~= img2.subrange(10, 18));
            }
            assert(h2.created_at != h.created_at) by {
                if h2.created_at == h.created_at {
                    assert(spec_u64_to_le_bytes(spec_u64_from_le_bytes(img.subrange(41, 49)))
                        =~= img.subrange(41, 49));
                    assert(spec_u64_to_le_bytes(spec_u64_from_le_bytes(img2.subrange(41, 49)))
                        =~= img2.subrange(41, 49));
                    assert(img.subrange(41, 49) =~= img2.subrange(41, 49));
                    assert(img.subrange(41, 49)[i - 41] == img2.subrange(41, 49)[i - 41]);
                }
            }
            lemma_checksum_differs(h, h2);
        }
    }
}

/// Two headers that agree on all covered fields but one have different
/// checksums.
proof fn lemma_checksum_differs(h: FileHeader, h2: FileHeader)
    requires
        h2.magic == h.magic,
        h2.version == h.version,
        h2.checksum == h.checksum,
        h.checksum == spec_header_checksum(h),
        (h2.total_points == h.total_points && h2.created_at != h.created_at) || (h2.total_points
            != h.total_points && h2.created_at == h.created_at),
    ensures
        h2.checksum != spec_header_checksum(h2),
    decreases 0int,
{
    let k: int = 0x10000000000000000;
    let s1 = (h.magic as int) + (h.version as int) + (h.total_points as int) + (
    h.created_at as int);
    let s2 = (h2.magic as int) + (h2.version as int) + (h2.total_points as int) + (
    h2.created_at as int);
    let d = s2 - s1;
    assert(d != 0);
    assert(-k < d < k);
    if s1 % k == s2 % k {
        vstd::arithmetic::div_mod::lemma_fundamental_div_mod(s1, k);
        vstd::arithmetic::div_mod::lemma_fundamental_div_mod(s2, k);
        let q1 = s1 / k;
        let q2 = s2 / k;
        assert(d == k * (q2 - q1)) by (nonlinear_arith)
            requires
                s1 == k * q1 + s1 % k,
                s2 == k * q2 + s2 % k,
                s1 % k == s2 % k,
                d == s2 - s1,
        {}
        assert(q2 - q1 == 0) by (nonlinear_arith)
            requires
                d == k * (q2 - q1),
                -k < d < k,
                k > 0,
        {}
        assert(false);
    }
    assert(spec_header_checksum(h2) != spec_header_checksum(h));
}


/// Advancing the scan one block extends the byte prefix by that block's
/// encoding, stays within the data end, and appends that block's batch.
proof fn lemma_scan_advance(
    bs: Seq<BlockView>,
    bts: Seq<Seq<DataPointView>>,
    k: int,
    end: int,
)
    requires
        bs.len() == bts.len(),
        0 <= k < bs.len(),
        end == 73 + spec_blocks_bytes(bs).len(),
    ensures
        spec_blocks_bytes(bs.take(k + 1)) == spec_blocks_bytes(bs.take(k)) + spec_enc_block(
            bs[k],
        ),
        73 + spec_blocks_bytes(bs.take(k + 1)).len() <= end,
        29 * (k + 1) <= spec_blocks_bytes(bs.take(k + 1)).len(),
        concat_batches(bts.take(k + 1)) == concat_batches(bts.take(k)) + bts[k],
    decreases 0int,
{
    lemma_blocks_bytes_concat(bs.take(k), seq![bs[k]]);
    assert(bs.take(k + 1) =~= bs.take(k) + seq![bs[k]]);
    assert(seq![bs[k]].drop_first() =~= Seq::<BlockView>::empty());
    assert(spec_blocks_bytes(Seq::<BlockView>::empty()) == Seq::<u8>::empty());
    assert(spec_blocks_bytes(seq![bs[k]]) =~= spec_enc_block(bs[k]));
    assert(spec_blocks_bytes(bs.take(k + 1)) =~= spec_blocks_bytes(bs.take(k)) + spec_enc_block(
        bs[k],
    ));
    assert(bs =~= bs.take(k + 1) + bs.skip(k + 1));
    lemma_blocks_bytes_concat(bs.take(k + 1), bs.skip(k + 1));
    lemma_blocks_bytes_len_nonneg(bs.skip(k + 1));
    lemma_blocks_bytes_min(bs.take(k + 1));
    assert(bts.take(k + 1).drop_last() =~= bts.take(k));
    assert(bts.take(k + 1).last() == bts[k]);
}


/// Concatenating well-formed batches yields well-formed points.
proof fn lemma_concat_batches_wf(bts: Seq<Seq<DataPointView>>)
    requires
        forall|i: int| 0 <= i < bts.len() ==> points_wf(#[trigger] bts[i]),
    ensures
        points_wf(concat_batches(bts)),
    decreases bts.len(),
{
    if bts.len() > 0 {
        lemma_concat_batches_wf(bts.drop_last());
        let head = concat_batches(bts.drop_last());
        let full = concat_batches(bts);
        assert forall|i: int|
            0 <= i < full.len() implies #[trigger] crate::types::spec_point_wf(full[i]) by {
            if i < head.len() {
                assert(full[i] == head[i]);
                assert(crate::types::spec_point_wf(head[i]));
            } else {
                assert(full[i] == bts.last()[i - head.len()]);
                assert(points_wf(bts[bts.len() - 1]));
                assert(crate::types::spec_point_wf(bts.last()[i - head.len()]));
            }
        }
    }
}

/// A live log's history is exactly the concatenation of its recorded
/// batches: the public bridge between what appends accumulate and what
/// reopening recovers.
pub proof fn lemma_history_is_batches(s: &MmapStorage)
    ensures
        s.history() == concat_batches(s.spec_batches()),
{
}

/// Every sample in a well-formed log's history is well-formed.
pub proof fn lemma_history_wf(s: &MmapStorage)
    requires
        s.wf(),
    ensures
        points_wf(s.history()),
{
    let bts = s.spec_batches();
    assert forall|i: int| 0 <= i < bts.len() implies points_wf(#[trigger] bts[i]) by {
        assert(spec_block_batch_ok(s.spec_blocks()[i], bts[i]));
    }
    lemma_concat_batches_wf(bts);
}


/// Accepting one parsed block extends the scanned prefix consistently:
/// the tiled byte region grows by the block's encoding, the pairing stays
/// valid, and the recovered count grows by the batch.
proof fn lemma_open_scan_step(
    img: Seq<u8>,
    gblocks: Seq<BlockView>,
    gbatches: Seq<Seq<DataPointView>>,
    cur: int,
    blk: BlockView,
    batch: Seq<DataPointView>,
    next: int,
)
    requires
        gblocks.len() == gbatches.len(),
        spec_blocks_ok(gblocks, gbatches),
        73 <= cur <= img.len(),
        cur == 73 + spec_blocks_bytes(gblocks).len(),
        img.subrange(73, cur) == spec_blocks_bytes(gblocks),
        spec_block_batch_ok(blk, batch),
        spec_dec_block(img.skip(cur)) == Some((blk, next - cur)),
        next <= img.len(),
    ensures
        spec_blocks_ok(gblocks.push(blk), gbatches.push(batch)),
        next == 73 + spec_blocks_bytes(gblocks.push(blk)).len(),
        img.subrange(73, next) == spec_blocks_bytes(gblocks.push(blk)),
        sum_batch_lens(gbatches.push(batch)) == sum_batch_lens(gbatches) + batch.len(),
        29 * (gblocks.len() + 1) <= next - 73,
    decreases 0int,
{
    let gb2 = gblocks.push(blk);
    let gt2 = gbatches.push(batch);
    assert(spec_blocks_ok(gb2, gt2)) by {
        assert forall|i: int|
            0 <= i < gb2.len() implies spec_block_batch_ok(#[trigger] gb2[i], gt2[i]) by {
            if i < gblocks.len() {
                assert(gb2[i] == gblocks[i]);
                assert(gt2[i] == gbatches[i]);
                assert(spec_block_batch_ok(gblocks[i], gbatches[i]));
            }
        }
    }
    lemma_blocks_bytes_concat(gblocks, seq![blk]);
    assert(seq![blk].drop_first() =~= Seq::<BlockView>::empty());
    assert(spec_blocks_bytes(Seq::<BlockView>::empty()) == Seq::<u8>::empty());
    assert(spec_blocks_bytes(seq![blk]) =~= spec_enc_block(blk));
    assert(gb2 =~= gblocks + seq![blk]);
    lemma_block_round_trip(blk, Seq::empty());
    assert(next == cur + spec_enc_block(blk).len());
    assert(img.subrange(73, next) =~= spec_blocks_bytes(gb2)) by {
        assert(img.subrange(cur, next) =~= spec_enc_block(blk)) by {
            lemma_parse_is_enc(img.skip(cur), blk);
            assert forall|j: int|
                0 <= j < next - cur implies img.subrange(cur, next)[j] == spec_enc_block(
                blk,
            )[j] by {
                assert(img.skip(cur)[j] == img[cur + j]);
            }
        }
        assert forall|j: int|
            0 <= j < next - 73 implies img.subrange(73, next)[j] == spec_blocks_bytes(gb2)[j] by {
            if j < cur - 73 {
                assert(img.subrange(73, cur)[j] == spec_blocks_bytes(gblocks)[j]);
            } else {
                assert(img.subrange(cur, next)[j - (cur - 73)] == spec_enc_block(blk)[j - (cur
                    - 73)]);
            }
        }
    }
    assert(sum_batch_lens(gt2) == sum_batch_lens(gbatches) + batch.len()) by {
        assert(gt2.drop_last() =~= gbatches);
    }
    lemma_blocks_bytes_min(gblocks);
}

} // verus!