//! Canonical binary form of values, data points and batches.
//!
//! All multi-byte integers are little-endian; strings and byte arrays are
//! length-prefixed with a 64-bit length; every record is self-describing, so
//! a decoder can recover the encoded value and how many bytes it used.

use crate::error::TimeSeriesError;
use crate::types::{
    distinct_keys, pairs_has, tags_as_map, DataPoint, DataPointView, TagSet, TagsView, Value,
    ValueView,
};
use vstd::bytes::{
    lemma_auto_spec_u64_to_from_le_bytes, spec_u64_from_le_bytes, spec_u64_to_le_bytes,
    u64_from_le_bytes, u64_to_le_bytes,
};
use vstd::prelude::*;
use vstd::slice::{slice_subrange, slice_to_vec};
use vstd::string::StringSliceAdditionalSpecFns;
use vstd::utf8::{decode_utf8, encode_utf8, valid_utf8};

verus! {

/// Little-endian bytes of a 64-bit unsigned integer.
pub open spec fn enc_u64(x: u64) -> Seq<u8> {
    spec_u64_to_le_bytes(x)
}

/// Little-endian bytes of a 64-bit signed integer (two's complement).
pub open spec fn enc_i64(x: i64) -> Seq<u8> {
    spec_u64_to_le_bytes(x as u64)
}

/// Encoded form of a value: a variant tag byte followed by the payload.
pub open spec fn spec_enc_value(v: ValueView) -> Seq<u8> {
    match v {
        ValueView::Integer(i) => seq![0u8] + enc_i64(i),
        ValueView::Float(bits) => seq![1u8] + enc_u64(bits),
        ValueView::Boolean(b) => seq![2u8, (if b { 1u8 } else { 0u8 })],
        ValueView::Str(s) => seq![3u8] + enc_u64(encode_utf8(s).len() as u64) + encode_utf8(s),
        ValueView::Bytes(b) => seq![4u8] + enc_u64(b.len() as u64) + b,
    }
}

/// Whether a value's variable-length payload fits machine limits.
/// Every value held by executable code satisfies this.
pub open spec fn value_encodable(v: ValueView) -> bool {
    match v {
        ValueView::Str(s) => encode_utf8(s).len() <= usize::MAX,
        ValueView::Bytes(b) => b.len() <= usize::MAX,
        _ => true,
    }
}

/// Parse one value from the front of `b`: the value and the bytes used.
pub open spec fn spec_dec_value(b: Seq<u8>) -> Option<(ValueView, int)> {
    if b.len() < 1 {
        None
    } else if b[0] == 0 {
        if b.len() >= 9 {
            Some((ValueView::Integer(spec_u64_from_le_bytes(b.subrange(1, 9)) as i64), 9))
        } else {
            None
        }
    } else if b[0] == 1 {
        if b.len() >= 9 {
            Some((ValueView::Float(spec_u64_from_le_bytes(b.subrange(1, 9))), 9))
        } else {
            None
        }
    } else if b[0] == 2 {
        if b.len() >= 2 && (b[1] == 0 || b[1] == 1) {
            Some((ValueView::Boolean(b[1] == 1), 2))
        } else {
            None
        }
    } else if b[0] == 3 {
        if b.len() >= 9 {
            let n = spec_u64_from_le_bytes(b.subrange(1, 9)) as int;
            if b.len() >= 9 + n && valid_utf8(b.subrange(9, 9 + n)) {
                Some((ValueView::Str(decode_utf8(b.subrange(9, 9 + n))), 9 + n))
            } else {
                None
            }
        } else {
            None
        }
    } else if b[0] == 4 {
        if b.len() >= 9 {
            let n = spec_u64_from_le_bytes(b.subrange(1, 9)) as int;
            if b.len() >= 9 + n {
                Some((ValueView::Bytes(b.subrange(9, 9 + n)), 9 + n))
            } else {
                None
            }
        } else {
            None
        }
    } else {
        None
    }
}

/// Parsing an encoded value from the front of any buffer recovers the value
/// and consumes exactly its encoding.
pub proof fn lemma_value_round_trip(v: ValueView, rest: Seq<u8>)
    requires
        value_encodable(v),
    ensures
        spec_dec_value(spec_enc_value(v) + rest) == Some((v, spec_enc_value(v).len() as int)),
{
    lemma_auto_spec_u64_to_from_le_bytes();
    let b = spec_enc_value(v) + rest;
    match v {
        ValueView::Integer(i) => {
            assert(b.subrange(1, 9) =~= enc_i64(i));
            assert((i as u64) as i64 == i) by (bit_vector);
        },
        ValueView::Float(bits) => {
            assert(b.subrange(1, 9) =~= enc_u64(bits));
        },
        ValueView::Boolean(x) => {
            assert(b[0] == 2);
            assert(b[1] == (if x {
                1u8
            } else {
                0u8
            }));
        },
        ValueView::Str(s) => {
            let payload = encode_utf8(s);
            assert(b.subrange(1, 9) =~= enc_u64(payload.len() as u64));
            assert(spec_u64_from_le_bytes(b.subrange(1, 9)) == payload.len());
            assert(b.subrange(9, 9 + payload.len() as int) =~= payload);
            vstd::utf8::encode_utf8_valid_utf8(s);
            vstd::utf8::encode_utf8_decode_utf8(s);
        },
        ValueView::Bytes(payload) => {
            assert(b.subrange(1, 9) =~= enc_u64(payload.len() as u64));
            assert(spec_u64_from_le_bytes(b.subrange(1, 9)) == payload.len());
            assert(b.subrange(9, 9 + payload.len() as int) =~= payload);
        },
    }
}

/// Append the little-endian bytes of `x` to `out`.
pub fn push_u64(out: &mut Vec<u8>, x: u64)
    ensures
        final(out)@ == old(out)@ + enc_u64(x),
{
    let mut b = u64_to_le_bytes(x);
    out.append(&mut b);
}

/// Append the little-endian two's-complement bytes of `x` to `out`.
pub fn push_i64(out: &mut Vec<u8>, x: i64)
    ensures
        final(out)@ == old(out)@ + enc_i64(x),
{
    push_u64(out, x as u64);
}

/// Read the 64-bit little-endian integer at `pos`.
pub fn read_u64_at(b: &Vec<u8>, pos: usize) -> (x: u64)
    requires
        pos + 8 <= b@.len(),
    ensures
        x == spec_u64_from_le_bytes(b@.subrange(pos as int, pos as int + 8)),
{
    let len = b.len();
    proof {
        assert(pos + 8 <= len);
    }
    let s = slice_subrange(b.as_slice(), pos, pos + 8);
    u64_from_le_bytes(s)
}

/// Append the encoding of a value to `out`.
pub fn encode_value(out: &mut Vec<u8>, v: &Value)
    ensures
        final(out)@ == old(out)@ + spec_enc_value(v@),
        value_encodable(v@),
{
    match v {
        Value::Integer(i) => {
            out.push(0);
            push_i64(out, *i);
            proof {
                assert(final(out)@ =~= old(out)@ + spec_enc_value(v@));
            }
        },
        Value::Float(bits) => {
            out.push(1);
            push_u64(out, *bits);
            proof {
                assert(final(out)@ =~= old(out)@ + spec_enc_value(v@));
            }
        },
        Value::Boolean(x) => {
            out.push(2);
            out.push(if *x {
                1
            } else {
                0
            });
            proof {
                assert(final(out)@ =~= old(out)@ + spec_enc_value(v@));
            }
        },
        Value::String(s) => {
            let bytes = s.as_str().as_bytes();
            out.push(3);
            push_u64(out, bytes.len() as u64);
            out.extend_from_slice(bytes);
            proof {
                assert(final(out)@ =~= old(out)@ + spec_enc_value(v@));
            }
        },
        Value::Bytes(payload) => {
            out.push(4);
            push_u64(out, payload.len() as u64);
            out.extend_from_slice(payload.as_slice());
            proof {
                assert(final(out)@ =~= old(out)@ + spec_enc_value(v@));
            }
        },
    }
}

/// Parse the value starting at `pos`; `Ok` carries the value and the
/// position just past it.  Fails exactly where the parse model fails.
pub fn decode_value(b: &Vec<u8>, pos: usize) -> (r: Result<(Value, usize), TimeSeriesError>)
    requires
        pos <= b@.len(),
    ensures
        match spec_dec_value(b@.skip(pos as int)) {
            Some(pr) => r matches Ok(rr) && rr.0@ == pr.0 && rr.1 == pos + pr.1 && rr.1 <= b@.len(),
            None => r is Err,
        },
{
    let ghost tail = b@.skip(pos as int);
    if pos >= b.len() {
        return Err(TimeSeriesError::serialization("value: missing tag byte"));
    }
    let tag = b[pos];
    proof {
        assert(tail[0] == b@[pos as int]);
    }
    if tag == 0 || tag == 1 {
        if b.len() - pos < 9 {
            return Err(TimeSeriesError::serialization("value: truncated integer"));
        }
        let x = read_u64_at(b, pos + 1);
        proof {
            assert(b@.subrange(pos as int + 1, pos as int + 9) =~= tail.subrange(1, 9));
        }
        if tag == 0 {
            Ok((Value::Integer(x as i64), pos + 9))
        } else {
            Ok((Value::Float(x), pos + 9))
        }
    } else if tag == 2 {
        if b.len() - pos < 2 {
            return Err(TimeSeriesError::serialization("value: truncated boolean"));
        }
        let byte = b[pos + 1];
        proof {
            assert(tail[1] == b@[pos as int + 1]);
        }
        if byte == 0 {
            Ok((Value::Boolean(false), pos + 2))
        } else if byte == 1 {
            Ok((Value::Boolean(true), pos + 2))
        } else {
            Err(TimeSeriesError::serialization("value: malformed boolean"))
        }
    } else if tag == 3 || tag == 4 {
        if b.len() - pos < 9 {
            return Err(TimeSeriesError::serialization("value: truncated length"));
        }
        let n64 = read_u64_at(b, pos + 1);
        proof {
            assert(b@.subrange(pos as int + 1, pos as int + 9) =~= tail.subrange(1, 9));
        }
        let remaining = b.len() - pos - 9;
        if n64 > remaining as u64 {
            return Err(TimeSeriesError::serialization("value: payload beyond buffer"));
        }
        let n = n64 as usize;
        let payload = slice_subrange(b.as_slice(), pos + 9, pos + 9 + n);
        proof {
            assert(payload@ =~= tail.subrange(9, 9 + n64 as int));
        }
        if tag == 3 {
            match bytes_to_string(slice_to_vec(payload)) {
                Some(s) => Ok((Value::String(s), pos + 9 + n)),
                None => Err(TimeSeriesError::serialization("value: malformed text payload")),
            }
        } else {
            Ok((Value::Bytes(slice_to_vec(payload)), pos + 9 + n))
        }
    } else {
        Err(TimeSeriesError::serialization("value: unknown tag"))
    }
}

/// Relies on `String::from_utf8`: returns the string these bytes spell
/// exactly when they are valid UTF-8.
#[verifier::external_body]
fn bytes_to_string(v: Vec<u8>) -> (r: Option<String>)
    ensures
        r matches Some(s) ==> valid_utf8(v@) && s@ == decode_utf8(v@),
        valid_utf8(v@) ==> r is Some,
{
    String::from_utf8(v).ok()
}

/// Encoded form of a string: 64-bit byte length, then UTF-8 bytes.
pub open spec fn spec_enc_str(s: Seq<char>) -> Seq<u8> {
    enc_u64(encode_utf8(s).len() as u64) + encode_utf8(s)
}

/// Whether a string's UTF-8 form fits machine limits.
pub open spec fn str_encodable(s: Seq<char>) -> bool {
    encode_utf8(s).len() <= usize::MAX
}

/// Parse one string from the front of `b`.
pub open spec fn spec_dec_str(b: Seq<u8>) -> Option<(Seq<char>, int)> {
    if b.len() >= 8 {
        let n = spec_u64_from_le_bytes(b.subrange(0, 8)) as int;
        if b.len() >= 8 + n && valid_utf8(b.subrange(8, 8 + n)) {
            Some((decode_utf8(b.subrange(8, 8 + n)), 8 + n))
        } else {
            None
        }
    } else {
        None
    }
}

/// Parsing an encoded string recovers it and consumes exactly its encoding.
pub proof fn lemma_str_round_trip(s: Seq<char>, rest: Seq<u8>)
    requires
        str_encodable(s),
    ensures
        spec_dec_str(spec_enc_str(s) + rest) == Some((s, spec_enc_str(s).len() as int)),
{
    lemma_auto_spec_u64_to_from_le_bytes();
    let payload = encode_utf8(s);
    let b = spec_enc_str(s) + rest;
    assert(b.subrange(0, 8) =~= enc_u64(payload.len() as u64));
    assert(spec_u64_from_le_bytes(b.subrange(0, 8)) == payload.len());
    assert(b.subrange(8, 8 + payload.len() as int) =~= payload);
    vstd::utf8::encode_utf8_valid_utf8(s);
    vstd::utf8::encode_utf8_decode_utf8(s);
}

/// Encoded form of one tag pair: the key, then the value.
pub open spec fn spec_enc_pair(p: (Seq<char>, Seq<char>)) -> Seq<u8> {
    spec_enc_str(p.0) + spec_enc_str(p.1)
}

/// Parse one tag pair from the front of `b`.
pub open spec fn spec_dec_pair(b: Seq<u8>) -> Option<((Seq<char>, Seq<char>), int)> {
    match spec_dec_str(b) {
        None => None,
        Some((k, c1)) => match spec_dec_str(b.skip(c1)) {
            None => None,
            Some((v, c2)) => Some(((k, v), c1 + c2)),
        },
    }
}

/// Parsing an encoded pair recovers it and consumes exactly its encoding.
pub proof fn lemma_pair_round_trip(p: (Seq<char>, Seq<char>), rest: Seq<u8>)
    requires
        str_encodable(p.0),
        str_encodable(p.1),
    ensures
        spec_dec_pair(spec_enc_pair(p) + rest) == Some((p, spec_enc_pair(p).len() as int)),
{
    let b = spec_enc_pair(p) + rest;
    assert(b =~= spec_enc_str(p.0) + (spec_enc_str(p.1) + rest));
    lemma_str_round_trip(p.0, spec_enc_str(p.1) + rest);
    let c1 = spec_enc_str(p.0).len() as int;
    assert(b.skip(c1) =~= spec_enc_str(p.1) + rest);
    lemma_str_round_trip(p.1, rest);
}

/// Encoded form of a pair sequence, in order.
pub open spec fn spec_enc_pairs(ps: TagsView) -> Seq<u8>
    decreases ps.len(),
{
    if ps.len() == 0 {
        Seq::empty()
    } else {
        spec_enc_pair(ps[0]) + spec_enc_pairs(ps.drop_first())
    }
}

/// Whether every pair of a sequence fits machine limits.
pub open spec fn pairs_encodable(ps: TagsView) -> bool {
    &&& ps.len() <= usize::MAX
    &&& forall|i: int|
        0 <= i < ps.len() ==> str_encodable(#[trigger] ps[i].0) && str_encodable(ps[i].1)
}

/// Parse exactly `n` pairs from the front of `b`.
pub open spec fn spec_dec_pairs(b: Seq<u8>, n: int) -> Option<(TagsView, int)>
    decreases n,
{
    if n <= 0 {
        Some((Seq::empty(), 0))
    } else {
        match spec_dec_pair(b) {
            None => None,
            Some((p, c)) => match spec_dec_pairs(b.skip(c), n - 1) {
                None => None,
                Some((ps, c2)) => Some((seq![p] + ps, c + c2)),
            },
        }
    }
}

/// Concatenation distributes over pair-sequence encoding.
pub proof fn lemma_enc_pairs_concat(a: TagsView, c: TagsView)
    ensures
        spec_enc_pairs(a + c) == spec_enc_pairs(a) + spec_enc_pairs(c),
    decreases a.len(),
{
    if a.len() == 0 {
        assert(a + c =~= c);
        assert(spec_enc_pairs(a) =~= Seq::<u8>::empty());
        assert(spec_enc_pairs(a) + spec_enc_pairs(c) =~= spec_enc_pairs(c));
    } else {
        assert((a + c).drop_first() =~= a.drop_first() + c);
        assert((a + c)[0] == a[0]);
        lemma_enc_pairs_concat(a.drop_first(), c);
        assert(spec_enc_pairs(a + c) =~= spec_enc_pairs(a) + spec_enc_pairs(c));
    }
}

/// A parsed pair sequence has exactly the requested length and a
/// non-negative consumed count.
pub proof fn lemma_dec_pairs_shape(b: Seq<u8>, n: int)
    ensures
        spec_dec_pairs(b, n) matches Some(pr) ==> pr.0.len() == (if n <= 0 {
            0
        } else {
            n
        }) && 0 <= pr.1 <= b.len(),
    decreases n,
{
    if n > 0 {
        match spec_dec_pair(b) {
            None => {},
            Some((p, c)) => {
                lemma_dec_pair_shape(b);
                lemma_dec_pairs_shape(b.skip(c), n - 1);
            },
        }
    }
}

/// A parsed pair consumes a positive count within the buffer.
pub proof fn lemma_dec_pair_shape(b: Seq<u8>)
    ensures
        spec_dec_pair(b) matches Some(pr) ==> 0 < pr.1 <= b.len(),
{
    match spec_dec_str(b) {
        None => {},
        Some((k, c1)) => {
            lemma_dec_str_shape(b);
            lemma_dec_str_shape(b.skip(c1));
        },
    }
}

/// A parsed string consumes a positive count within the buffer.
pub proof fn lemma_dec_str_shape(b: Seq<u8>)
    ensures
        spec_dec_str(b) matches Some(pr) ==> 0 < pr.1 <= b.len(),
{
}

/// Parsing `n` encoded pairs recovers them and consumes exactly their encoding.
pub proof fn lemma_pairs_round_trip(ps: TagsView, rest: Seq<u8>)
    requires
        pairs_encodable(ps),
    ensures
        spec_dec_pairs(spec_enc_pairs(ps) + rest, ps.len() as int) == Some(
            (ps, spec_enc_pairs(ps).len() as int),
        ),
    decreases ps.len(),
{
    if ps.len() == 0 {
        assert(spec_enc_pairs(ps) + rest =~= rest);
        assert(spec_dec_pairs(rest, 0) == Some((Seq::<(Seq<char>, Seq<char>)>::empty(), 0int)));
        assert(ps =~= Seq::<(Seq<char>, Seq<char>)>::empty());
    } else {
        let b = spec_enc_pairs(ps) + rest;
        let tail = ps.drop_first();
        assert(b =~= spec_enc_pair(ps[0]) + (spec_enc_pairs(tail) + rest));
        lemma_pair_round_trip(ps[0], spec_enc_pairs(tail) + rest);
        let c = spec_enc_pair(ps[0]).len() as int;
        assert(b.skip(c) =~= spec_enc_pairs(tail) + rest);
        assert(pairs_encodable(tail)) by {
            assert(forall|i: int|
                0 <= i < tail.len() ==> tail[i] == #[trigger] ps[i + 1]);
        }
        lemma_pairs_round_trip(tail, rest);
        assert(seq![ps[0]] + tail =~= ps);
    }
}

/// Encoded form of a tag set: 64-bit pair count, then the pairs.
pub open spec fn spec_enc_tags(ps: TagsView) -> Seq<u8> {
    enc_u64(ps.len() as u64) + spec_enc_pairs(ps)
}

/// Parse a tag set from the front of `b`; duplicate keys are rejected.
pub open spec fn spec_dec_tags(b: Seq<u8>) -> Option<(TagsView, int)> {
    if b.len() >= 8 {
        let n = spec_u64_from_le_bytes(b.subrange(0, 8)) as int;
        match spec_dec_pairs(b.skip(8), n) {
            None => None,
            Some((ps, c)) => if distinct_keys(ps) {
                Some((ps, 8 + c))
            } else {
                None
            },
        }
    } else {
        None
    }
}

/// Parsing an encoded tag set recovers it and consumes exactly its encoding.
pub proof fn lemma_tags_round_trip(ps: TagsView, rest: Seq<u8>)
    requires
        pairs_encodable(ps),
        distinct_keys(ps),
    ensures
        spec_dec_tags(spec_enc_tags(ps) + rest) == Some((ps, spec_enc_tags(ps).len() as int)),
{
    lemma_auto_spec_u64_to_from_le_bytes();
    let b = spec_enc_tags(ps) + rest;
    assert(b.subrange(0, 8) =~= enc_u64(ps.len() as u64));
    assert(spec_u64_from_le_bytes(b.subrange(0, 8)) == ps.len());
    assert(b.skip(8) =~= spec_enc_pairs(ps) + rest);
    lemma_pairs_round_trip(ps, rest);
}

/// Encoded form of a data point: timestamp, value, then either a 0 byte
/// (no tags) or a 1 byte followed by the tag set.
pub open spec fn spec_enc_point(p: DataPointView) -> Seq<u8> {
    enc_i64(p.timestamp) + spec_enc_value(p.value) + (match p.tags {
        None => seq![0u8],
        Some(ps) => seq![1u8] + spec_enc_tags(ps),
    })
}

/// Whether a data point fits machine limits.
pub open spec fn point_encodable(p: DataPointView) -> bool {
    &&& value_encodable(p.value)
    &&& match p.tags {
        None => true,
        Some(ps) => pairs_encodable(ps),
    }
}

/// Parse one data point from the front of `b`.
pub open spec fn spec_dec_point(b: Seq<u8>) -> Option<(DataPointView, int)> {
    if b.len() >= 8 {
        let ts = spec_u64_from_le_bytes(b.subrange(0, 8)) as i64;
        match spec_dec_value(b.skip(8)) {
            None => None,
            Some((v, c)) => {
                let off = 8 + c;
                if b.len() >= off + 1 {
                    if b[off] == 0 {
                        Some((DataPointView { timestamp: ts, value: v, tags: None }, off + 1))
                    } else if b[off] == 1 {
                        match spec_dec_tags(b.skip(off + 1)) {
                            None => None,
                            Some((ps, c2)) => Some(
                                (
                                    DataPointView { timestamp: ts, value: v, tags: Some(ps) },
                                    off + 1 + c2,
                                ),
                            ),
                        }
                    } else {
                        None
                    }
                } else {
                    None
                }
            },
        }
    } else {
        None
    }
}

/// A parsed value consumes a positive count within the buffer.
pub proof fn lemma_dec_value_shape(b: Seq<u8>)
    ensures
        spec_dec_value(b) matches Some(pr) ==> 0 < pr.1 <= b.len(),
{
}

/// A parsed tag set consumes a positive count within the buffer.
pub proof fn lemma_dec_tags_shape(b: Seq<u8>)
    ensures
        spec_dec_tags(b) matches Some(pr) ==> 0 < pr.1 <= b.len(),
{
    if b.len() >= 8 {
        let n = spec_u64_from_le_bytes(b.subrange(0, 8)) as int;
        lemma_dec_pairs_shape(b.skip(8), n);
    }
}

/// A parsed point consumes a positive count within the buffer.
pub proof fn lemma_dec_point_shape(b: Seq<u8>)
    ensures
        spec_dec_point(b) matches Some(pr) ==> 0 < pr.1 <= b.len(),
{
    if b.len() >= 8 {
        lemma_dec_value_shape(b.skip(8));
        match spec_dec_value(b.skip(8)) {
            None => {},
            Some((v, c)) => {
                lemma_dec_tags_shape(b.skip(8 + c + 1));
            },
        }
    }
}

/// Parsing an encoded point recovers it and consumes exactly its encoding.
pub proof fn lemma_point_round_trip(p: DataPointView, rest: Seq<u8>)
    requires
        point_encodable(p),
        crate::types::spec_point_wf(p),
    ensures
        spec_dec_point(spec_enc_point(p) + rest) == Some((p, spec_enc_point(p).len() as int)),
{
    lemma_auto_spec_u64_to_from_le_bytes();
    let b = spec_enc_point(p) + rest;
    assert(b.subrange(0, 8) =~= enc_i64(p.timestamp));
    let t = p.timestamp;
    assert((t as u64) as i64 == t) by (bit_vector);
    let vb = spec_enc_value(p.value);
    match p.tags {
        None => {
            assert(b.skip(8) =~= vb + (seq![0u8] + rest));
            lemma_value_round_trip(p.value, seq![0u8] + rest);
            let c = vb.len() as int;
            assert(b[8 + c] == 0);
        },
        Some(ps) => {
            assert(b.skip(8) =~= vb + (seq![1u8] + spec_enc_tags(ps) + rest));
            lemma_value_round_trip(p.value, seq![1u8] + spec_enc_tags(ps) + rest);
            let c = vb.len() as int;
            assert(b[8 + c] == 1);
            assert(b.skip(8 + c + 1) =~= spec_enc_tags(ps) + rest);
            lemma_tags_round_trip(ps, rest);
        },
    }
}

/// Append the encoding of a string to `out`.
pub fn encode_str(out: &mut Vec<u8>, s: &String)
    ensures
        final(out)@ == old(out)@ + spec_enc_str(s@),
        str_encodable(s@),
{
    let bytes = s.as_str().as_bytes();
    push_u64(out, bytes.len() as u64);
    out.extend_from_slice(bytes);
    proof {
        assert(final(out)@ =~= old(out)@ + spec_enc_str(s@));
    }
}

/// Parse the string starting at `pos`.
pub fn decode_str(b: &Vec<u8>, pos: usize) -> (r: Result<(String, usize), TimeSeriesError>)
    requires
        pos <= b@.len(),
    ensures
        match spec_dec_str(b@.skip(pos as int)) {
            Some(pr) => r matches Ok(rr) && rr.0@ == pr.0 && rr.1 == pos + pr.1 && rr.1 <= b@.len(),
            None => r is Err,
        },
{
    let ghost tail = b@.skip(pos as int);
    if b.len() - pos < 8 {
        return Err(TimeSeriesError::serialization("string: truncated length"));
    }
    let n64 = read_u64_at(b, pos);
    proof {
        assert(b@.subrange(pos as int, pos as int + 8) =~= tail.subrange(0, 8));
    }
    let remaining = b.len() - pos - 8;
    if n64 > remaining as u64 {
        return Err(TimeSeriesError::serialization("string: payload beyond buffer"));
    }
    let n = n64 as usize;
    let payload = slice_subrange(b.as_slice(), pos + 8, pos + 8 + n);
    proof {
        assert(payload@ =~= tail.subrange(8, 8 + n64 as int));
    }
    match bytes_to_string(slice_to_vec(payload)) {
        Some(s) => Ok((s, pos + 8 + n)),
        None => Err(TimeSeriesError::serialization("string: malformed text payload")),
    }
}

/// Append the encoding of a tag set to `out`.
pub fn encode_tags(out: &mut Vec<u8>, t: &TagSet)
    ensures
        final(out)@ == old(out)@ + spec_enc_tags(t@),
        pairs_encodable(t@),
{
    let n = t.len();
    push_u64(out, n as u64);
    let ghost base = out@;
    let mut i: usize = 0;
    while i < n
        invariant
            n == t@.len(),
            i <= n,
            out@ == base + spec_enc_pairs(t@.take(i as int)),
            forall|j: int|
                0 <= j < i ==> str_encodable(#[trigger] t@[j].0) && str_encodable(t@[j].1),
        decreases n - i,
    {
        let ghost before = i as int;
        let (k, v) = t.pair_at(i);
        encode_str(out, k);
        encode_str(out, v);
        proof {
            assert(str_encodable(t@[before].0) && str_encodable(t@[before].1));
            assert forall|j: int|
                0 <= j < before + 1 implies str_encodable(#[trigger] t@[j].0) && str_encodable(
                t@[j].1,
            ) by {
                if j == before {
                    assert(str_encodable(t@[before].0));
                }
            }
            let single = seq![t@[before]];
            assert(t@.take(before + 1) =~= t@.take(before) + single);
            lemma_enc_pairs_concat(t@.take(before), single);
            assert(single.drop_first() =~= Seq::<(Seq<char>, Seq<char>)>::empty());
            assert(spec_enc_pairs(Seq::<(Seq<char>, Seq<char>)>::empty()) == Seq::<u8>::empty());
            assert(spec_enc_pairs(single) =~= spec_enc_pair(t@[before]));
            assert(out@ =~= base + spec_enc_pairs(t@.take(before + 1)));
        }
        i = i + 1;
    }
    proof {
        assert(t@.take(n as int) =~= t@);
        assert(final(out)@ =~= old(out)@ + spec_enc_tags(t@));
    }
}

/// Parse the tag set starting at `pos`; the result is well-formed.
pub fn decode_tags(b: &Vec<u8>, pos: usize) -> (r: Result<(TagSet, usize), TimeSeriesError>)
    requires
        pos <= b@.len(),
    ensures
        match spec_dec_tags(b@.skip(pos as int)) {
            Some(pr) => r matches Ok(rr) && rr.0@ == pr.0 && rr.0.wf() && rr.1 == pos + pr.1
                && rr.1 <= b@.len(),
            None => r is Err,
        },
{
    let ghost tail0 = b@.skip(pos as int);
    if b.len() - pos < 8 {
        return Err(TimeSeriesError::serialization("tags: truncated count"));
    }
    let n64 = read_u64_at(b, pos);
    proof {
        assert(b@.subrange(pos as int, pos as int + 8) =~= tail0.subrange(0, 8));
    }
    let ghost total = spec_dec_pairs(tail0.skip(8), n64 as int);
    let mut tags = TagSet::new();
    let mut cur: usize = pos + 8;
    let mut j: u64 = 0;
    proof {
        lemma_dec_pairs_shape(tail0.skip(8), n64 as int);
        assert(b@.skip(pos as int + 8) =~= tail0.skip(8));
        if total is Some {
            let pr = total.unwrap();
            assert(pr.0.skip(0) =~= pr.0);
            assert(tags@ =~= pr.0.take(0));
        }
    }
    while j < n64
        invariant
            pos + 8 <= cur <= b@.len(),
            j <= n64,
            tail0 == b@.skip(pos as int),
            tail0.len() >= 8,
            n64 == spec_u64_from_le_bytes(tail0.subrange(0, 8)),
            total == spec_dec_pairs(tail0.skip(8), n64 as int),
            tags.wf(),
            match total {
                Some(pr) => tags@ == pr.0.take(j as int) && pr.0.len() == n64 as int
                    && spec_dec_pairs(b@.skip(cur as int), n64 as int - j as int) == Some(
                    (pr.0.skip(j as int), pr.1 - (cur - (pos + 8))),
                ),
                None => spec_dec_pairs(b@.skip(cur as int), n64 as int - j as int) is None,
            },
        decreases n64 - j,
    {
        let ghost curtail = b@.skip(cur as int);
        let ghost stepn = n64 as int - j as int;
        proof {
            lemma_dec_pair_shape(curtail);
        }
        let k = match decode_str(b, cur) {
            Ok(kk) => kk,
            Err(e) => {
                proof {
                    assert(spec_dec_pair(curtail) is None);
                    assert(spec_dec_pairs(curtail, stepn) is None);
                    if total is Some {
                        assert(false);
                    }
                }
                return Err(e);
            },
        };
        proof {
            let c1 = spec_dec_str(curtail).unwrap().1;
            assert(b@.skip(k.1 as int) =~= curtail.skip(c1));
        }
        let v = match decode_str(b, k.1) {
            Ok(vv) => vv,
            Err(e) => {
                proof {
                    assert(spec_dec_pair(curtail) is None);
                    assert(spec_dec_pairs(curtail, stepn) is None);
                    if total is Some {
                        assert(false);
                    }
                }
                return Err(e);
            },
        };
        let ghost pair = ((k.0)@, (v.0)@);
        let ghost consumed = v.1 as int - cur as int;
        proof {
            assert(spec_dec_pair(curtail) == Some((pair, consumed)));
            assert(b@.skip(v.1 as int) =~= curtail.skip(consumed));
            if total is Some {
                let pr = total.unwrap();
                assert(spec_dec_pairs(curtail, stepn) == Some(
                    (pr.0.skip(j as int), pr.1 - (cur - (pos + 8))),
                ));
                let rest2 = spec_dec_pairs(curtail.skip(consumed), stepn - 1).unwrap();
                assert(seq![pair] + rest2.0 == pr.0.skip(j as int));
                assert((seq![pair] + rest2.0)[0] == pair);
                assert(pair == pr.0[j as int]);
            } else {
                assert(spec_dec_pairs(curtail, stepn) is None);
                assert(spec_dec_pairs(curtail.skip(consumed), stepn - 1) is None);
            }
        }
        let dup = match tags.get(k.0.as_str()) {
            Some(_) => true,
            None => false,
        };
        if dup {
            proof {
                if total is Some {
                    let pr = total.unwrap();
                    let km = tags_as_map(tags@);
                    assert(km.dom().contains(pair.0));
                    let a = choose|a: int| 0 <= a < tags@.len() && tags@[a].0 == pair.0;
                    assert(pr.0.take(j as int)[a] == pr.0[a]);
                    assert(pr.0[a].0 == pr.0[j as int].0);
                    assert(!distinct_keys(pr.0));
                }
            }
            return Err(TimeSeriesError::serialization("tags: duplicate key"));
        }
        proof {
            let km = tags_as_map(tags@);
            assert(!km.dom().contains(pair.0));
            assert forall|a: int| 0 <= a < tags@.len() implies tags@[a].0 != pair.0 by {
                if tags@[a].0 == pair.0 {
                    assert(km.dom().contains(pair.0));
                }
            }
        }
        let ghost tagspre = tags@;
        tags.insert(k.0, v.0);
        proof {
            assert(tags@ == tagspre.push(pair));
            if total is Some {
                let pr = total.unwrap();
                assert(tags@ =~= pr.0.take(j as int + 1));
                let rest2 = spec_dec_pairs(curtail.skip(consumed), stepn - 1).unwrap();
                assert(seq![pair] + rest2.0 == pr.0.skip(j as int));
                assert((seq![pair] + rest2.0).len() == pr.0.skip(j as int).len());
                assert forall|m: int| 0 <= m < rest2.0.len() implies rest2.0[m] == pr.0.skip(
                    j as int + 1,
                )[m] by {
                    assert((seq![pair] + rest2.0)[m + 1] == rest2.0[m]);
                    assert(pr.0.skip(j as int)[m + 1] == pr.0[j as int + 1 + m]);
                }
                assert(rest2.0 =~= pr.0.skip(j as int + 1));
                assert(rest2.1 == (pr.1 - (cur - (pos + 8))) - consumed);
            }
        }
        cur = v.1;
        j = j + 1;
    }
    proof {
        if total is None {
            assert(spec_dec_pairs(b@.skip(cur as int), 0) is None);
            assert(false);
        }
        let pr = total.unwrap();
        assert(pr.0.skip(n64 as int).len() == 0);
        assert(pr.0.len() == n64 as int);
        assert(tags@ =~= pr.0);
        assert(pr.1 == cur - (pos + 8));
        assert(distinct_keys(pr.0));
    }
    Ok((tags, cur))
}

/// Append the encoding of a data point to `out`.
pub fn encode_point(out: &mut Vec<u8>, p: &DataPoint)
    ensures
        final(out)@ == old(out)@ + spec_enc_point(p@),
        point_encodable(p@),
{
    push_i64(out, p.timestamp);
    encode_value(out, &p.value);
    match &p.tags {
        None => {
            out.push(0);
        },
        Some(t) => {
            out.push(1);
            encode_tags(out, t);
        },
    }
    proof {
        assert(final(out)@ =~= old(out)@ + spec_enc_point(p@));
    }
}

/// Parse the data point starting at `pos`; the result is well-formed.
pub fn decode_point(b: &Vec<u8>, pos: usize) -> (r: Result<(DataPoint, usize), TimeSeriesError>)
    requires
        pos <= b@.len(),
    ensures
        match spec_dec_point(b@.skip(pos as int)) {
            Some(pr) => r matches Ok(rr) && rr.0@ == pr.0 && rr.0.wf() && rr.1 == pos + pr.1
                && rr.1 <= b@.len(),
            None => r is Err,
        },
{
    let ghost tail = b@.skip(pos as int);
    if b.len() - pos < 8 {
        return Err(TimeSeriesError::serialization("point: truncated timestamp"));
    }
    let ts = read_u64_at(b, pos) as i64;
    proof {
        assert(b@.subrange(pos as int, pos as int + 8) =~= tail.subrange(0, 8));
        assert(b@.skip(pos as int + 8) =~= tail.skip(8));
    }
    let (value, vend) = match decode_value(b, pos + 8) {
        Ok(vv) => vv,
        Err(e) => {
            return Err(e);
        },
    };
    if vend >= b.len() {
        proof {
            let c = spec_dec_value(tail.skip(8)).unwrap().1;
            assert(tail.len() < 8 + c + 1);
        }
        return Err(TimeSeriesError::serialization("point: missing tag marker"));
    }
    let marker = b[vend];
    proof {
        let c = spec_dec_value(tail.skip(8)).unwrap().1;
        assert(vend == pos + 8 + c);
        assert(tail[8 + c] == b@[vend as int]);
    }
    if marker == 0 {
        Ok((DataPoint { timestamp: ts, value, tags: None }, vend + 1))
    } else if marker == 1 {
        proof {
            let c = spec_dec_value(tail.skip(8)).unwrap().1;
            assert(b@.skip(vend as int + 1) =~= tail.skip(8 + c + 1));
        }
        let (t, tend) = match decode_tags(b, vend + 1) {
            Ok(tt) => tt,
            Err(e) => {
                return Err(e);
            },
        };
        Ok((DataPoint { timestamp: ts, value, tags: Some(t) }, tend))
    } else {
        Err(TimeSeriesError::serialization("point: malformed tag marker"))
    }
}

/// Encoded form of a point sequence, in order.
pub open spec fn spec_enc_points(ps: Seq<DataPointView>) -> Seq<u8>
    decreases ps.len(),
{
    if ps.len() == 0 {
        Seq::empty()
    } else {
        spec_enc_point(ps[0]) + spec_enc_points(ps.drop_first())
    }
}

/// Concatenation distributes over point-sequence encoding.
pub proof fn lemma_enc_points_concat(a: Seq<DataPointView>, c: Seq<DataPointView>)
    ensures
        spec_enc_points(a + c) == spec_enc_points(a) + spec_enc_points(c),
    decreases a.len(),
{
    if a.len() == 0 {
        assert(a + c =~= c);
        assert(spec_enc_points(a) =~= Seq::<u8>::empty());
        assert(spec_enc_points(a) + spec_enc_points(c) =~= spec_enc_points(c));
    } else {
        assert((a + c).drop_first() =~= a.drop_first() + c);
        assert((a + c)[0] == a[0]);
        lemma_enc_points_concat(a.drop_first(), c);
        assert(spec_enc_points(a + c) =~= spec_enc_points(a) + spec_enc_points(c));
    }
}

/// Parse exactly `n` points from the front of `b`.
pub open spec fn spec_dec_points(b: Seq<u8>, n: int) -> Option<(Seq<DataPointView>, int)>
    decreases n,
{
    if n <= 0 {
        Some((Seq::empty(), 0))
    } else {
        match spec_dec_point(b) {
            None => None,
            Some((p, c)) => match spec_dec_points(b.skip(c), n - 1) {
                None => None,
                Some((ps, c2)) => Some((seq![p] + ps, c + c2)),
            },
        }
    }
}

/// A parsed point sequence has exactly the requested length and a
/// non-negative consumed count.
pub proof fn lemma_dec_points_shape(b: Seq<u8>, n: int)
    ensures
        spec_dec_points(b, n) matches Some(pr) ==> pr.0.len() == (if n <= 0 {
            0
        } else {
            n
        }) && 0 <= pr.1 <= b.len(),
    decreases n,
{
    if n > 0 {
        match spec_dec_point(b) {
            None => {},
            Some((p, c)) => {
                lemma_dec_point_shape(b);
                lemma_dec_points_shape(b.skip(c), n - 1);
            },
        }
    }
}

/// Whether a batch fits machine limits.
pub open spec fn batch_encodable(ps: Seq<DataPointView>) -> bool {
    &&& ps.len() <= usize::MAX
    &&& forall|i: int| 0 <= i < ps.len() ==> point_encodable(#[trigger] ps[i])
}

/// Parsing `n` encoded points recovers them and consumes exactly their encoding.
#[verifier::rlimit(60)]
pub proof fn lemma_points_round_trip(ps: Seq<DataPointView>, rest: Seq<u8>)
    requires
        batch_encodable(ps),
        crate::types::points_wf(ps),
    ensures
        spec_dec_points(spec_enc_points(ps) + rest, ps.len() as int) == Some(
            (ps, spec_enc_points(ps).len() as int),
        ),
    decreases ps.len(),
{
    if ps.len() == 0 {
        assert(spec_enc_points(ps) + rest =~= rest);
        assert(ps =~= Seq::<DataPointView>::empty());
    } else {
        let b = spec_enc_points(ps) + rest;
        let tail = ps.drop_first();
        assert(b =~= spec_enc_point(ps[0]) + (spec_enc_points(tail) + rest));
        assert(crate::types::spec_point_wf(ps[0]));
        lemma_point_round_trip(ps[0], spec_enc_points(tail) + rest);
        let c = spec_enc_point(ps[0]).len() as int;
        assert(b.skip(c) =~= spec_enc_points(tail) + rest);
        assert(batch_encodable(tail) && crate::types::points_wf(tail)) by {
            assert(forall|i: int| 0 <= i < tail.len() ==> tail[i] == #[trigger] ps[i + 1]);
        }
        lemma_points_round_trip(tail, rest);
        assert(seq![ps[0]] + tail =~= ps);
    }
}

/// Encoded form of a batch: 64-bit point count, then the points.
pub open spec fn spec_enc_batch(ps: Seq<DataPointView>) -> Seq<u8> {
    enc_u64(ps.len() as u64) + spec_enc_points(ps)
}

/// Parse a batch occupying the whole buffer; trailing bytes are rejected.
pub open spec fn spec_dec_batch(b: Seq<u8>) -> Option<Seq<DataPointView>> {
    if b.len() >= 8 {
        let n = spec_u64_from_le_bytes(b.subrange(0, 8)) as int;
        match spec_dec_points(b.skip(8), n) {
            None => None,
            Some((ps, c)) => if 8 + c == b.len() {
                Some(ps)
            } else {
                None
            },
        }
    } else {
        None
    }
}

/// Codec round trip: decoding an encoded batch yields the batch, for every
/// batch of well-formed points that fits machine limits.
pub proof fn lemma_batch_round_trip(ps: Seq<DataPointView>)
    requires
        batch_encodable(ps),
        crate::types::points_wf(ps),
    ensures
        spec_dec_batch(spec_enc_batch(ps)) == Some(ps),
{
    lemma_auto_spec_u64_to_from_le_bytes();
    let b = spec_enc_batch(ps);
    assert(b.subrange(0, 8) =~= enc_u64(ps.len() as u64));
    assert(spec_u64_from_le_bytes(b.subrange(0, 8)) == ps.len());
    assert(b.skip(8) =~= spec_enc_points(ps) + Seq::<u8>::empty());
    lemma_points_round_trip(ps, Seq::empty());
    assert(spec_enc_points(ps) + Seq::<u8>::empty() =~= spec_enc_points(ps));
}

/// Serialize a batch of data points to its canonical binary form.
pub fn encode_batch(points: &Vec<DataPoint>) -> (out: Vec<u8>)
    ensures
        out@ == spec_enc_batch(crate::types::points_view(points@)),
        batch_encodable(crate::types::points_view(points@)),
{
    let ghost ps = crate::types::points_view(points@);
    let mut out: Vec<u8> = Vec::new();
    let n = points.len();
    push_u64(&mut out, n as u64);
    let ghost base = out@;
    let mut i: usize = 0;
    while i < n
        invariant
            n == points@.len(),
            ps == crate::types::points_view(points@),
            base == enc_u64(n as u64),
            i <= n,
            out@ == base + spec_enc_points(ps.take(i as int)),
            forall|j: int| 0 <= j < i ==> point_encodable(#[trigger] ps[j]),
        decreases n - i,
    {
        let ghost before = i as int;
        encode_point(&mut out, &points[i]);
        proof {
            let single = seq![ps[before]];
            assert(ps.take(before + 1) =~= ps.take(before) + single);
            lemma_enc_points_concat(ps.take(before), single);
            assert(single.drop_first() =~= Seq::<DataPointView>::empty());
            assert(spec_enc_points(Seq::<DataPointView>::empty()) == Seq::<u8>::empty());
            assert(spec_enc_points(single) =~= spec_enc_point(ps[before]));
            assert(out@ =~= base + spec_enc_points(ps.take(before + 1)));
        }
        i = i + 1;
    }
    proof {
        assert(ps.take(n as int) =~= ps);
        assert(out@ =~= spec_enc_batch(ps));
    }
    out
}

/// Parse a batch from its canonical binary form; every decoded point is
/// well-formed.  Fails exactly where the parse model fails.
pub fn decode_batch(b: &Vec<u8>) -> (r: Result<Vec<DataPoint>, TimeSeriesError>)
    ensures
        match spec_dec_batch(b@) {
            Some(ps) => r matches Ok(v) && crate::types::points_view(v@) == ps
                && crate::types::points_wf(crate::types::points_view(v@)),
            None => r is Err,
        },
{
    if b.len() < 8 {
        return Err(TimeSeriesError::serialization("batch: truncated count"));
    }
    let n64 = read_u64_at(b, 0);
    proof {
        assert(b@.subrange(0int, 8int) =~= b@.subrange(0, 8));
    }
    let ghost total = spec_dec_points(b@.skip(8), n64 as int);
    let mut points: Vec<DataPoint> = Vec::new();
    let mut cur: usize = 8;
    let mut j: u64 = 0;
    proof {
        lemma_dec_points_shape(b@.skip(8), n64 as int);
        if total is Some {
            let pr = total.unwrap();
            assert(pr.0.skip(0) =~= pr.0);
            assert(crate::types::points_view(points@) =~= pr.0.take(0));
        }
    }
    while j < n64
        invariant
            8 <= cur <= b@.len(),
            j <= n64,
            b@.len() >= 8,
            n64 == spec_u64_from_le_bytes(b@.subrange(0, 8)),
            total == spec_dec_points(b@.skip(8), n64 as int),
            crate::types::points_wf(crate::types::points_view(points@)),
            match total {
                Some(pr) => crate::types::points_view(points@) == pr.0.take(j as int)
                    && pr.0.len() == n64 as int && spec_dec_points(
                    b@.skip(cur as int),
                    n64 as int - j as int,
                ) == Some((pr.0.skip(j as int), pr.1 - (cur - 8))),
                None => spec_dec_points(b@.skip(cur as int), n64 as int - j as int) is None,
            },
        decreases n64 - j,
    {
        let ghost curtail = b@.skip(cur as int);
        let ghost stepn = n64 as int - j as int;
        proof {
            lemma_dec_point_shape(curtail);
        }
        let (p, pend) = match decode_point(b, cur) {
            Ok(pp) => pp,
            Err(e) => {
                proof {
                    assert(spec_dec_point(curtail) is None);
                    assert(spec_dec_points(curtail, stepn) is None);
                    if total is Some {
                        assert(false);
                    }
                }
                return Err(e);
            },
        };
        let ghost pv = p@;
        let ghost consumed = pend as int - cur as int;
        proof {
            assert(spec_dec_point(curtail) == Some((pv, consumed)));
            assert(b@.skip(pend as int) =~= curtail.skip(consumed));
            if total is Some {
                let pr = total.unwrap();
                assert(spec_dec_points(curtail, stepn) == Some(
                    (pr.0.skip(j as int), pr.1 - (cur - 8)),
                ));
                let rest2 = spec_dec_points(curtail.skip(consumed), stepn - 1).unwrap();
                assert(seq![pv] + rest2.0 == pr.0.skip(j as int));
                assert((seq![pv] + rest2.0)[0] == pv);
                assert(pv == pr.0[j as int]);
            } else {
                assert(spec_dec_points(curtail, stepn) is None);
                assert(spec_dec_points(curtail.skip(consumed), stepn - 1) is None);
            }
        }
        let ghost pointspre = points@;
        points.push(p);
        proof {
            assert(crate::types::points_view(points@) =~= crate::types::points_view(
                pointspre,
            ).push(pv));
            if total is Some {
                let pr = total.unwrap();
                assert(crate::types::points_view(points@) =~= pr.0.take(j as int + 1));
                let rest2 = spec_dec_points(curtail.skip(consumed), stepn - 1).unwrap();
                assert(seq![pv] + rest2.0 == pr.0.skip(j as int));
                assert((seq![pv] + rest2.0).len() == pr.0.skip(j as int).len());
                assert forall|m: int| 0 <= m < rest2.0.len() implies rest2.0[m] == pr.0.skip(
                    j as int + 1,
                )[m] by {
                    assert((seq![pv] + rest2.0)[m + 1] == rest2.0[m]);
                    assert(pr.0.skip(j as int)[m + 1] == pr.0[j as int + 1 + m]);
                }
                assert(rest2.0 =~= pr.0.skip(j as int + 1));
                assert(rest2.1 == (pr.1 - (cur - 8)) - consumed);
            }
        }
        cur = pend;
        j = j + 1;
    }
    proof {
        if total is None {
            assert(spec_dec_points(b@.skip(cur as int), 0) is None);
            assert(false);
        }
        let pr = total.unwrap();
        assert(pr.0.skip(n64 as int).len() == 0);
        assert(pr.0.len() == n64 as int);
        assert(crate::types::points_view(points@) =~= pr.0);
        assert(pr.1 == cur - 8);
    }
    if cur != b.len() {
        return Err(TimeSeriesError::serialization("batch: trailing bytes"));
    }
    Ok(points)
}


impl Value {
    /// The value's canonical binary form.
    pub fn to_bytes(&self) -> (r: Vec<u8>)
        ensures
            r@ == spec_enc_value(self@),
    {
        let mut out: Vec<u8> = Vec::new();
        encode_value(&mut out, self);
        proof {
            assert(out@ =~= spec_enc_value(self@));
        }
        out
    }

    /// Recover a value from its canonical binary form; trailing bytes are
    /// rejected.
    pub fn from_bytes(bytes: &Vec<u8>) -> (r: Option<Value>)
        ensures
            match spec_dec_value(bytes@) {
                Some(pr) => if pr.1 == bytes@.len() {
                    r matches Some(v) && v@ == pr.0
                } else {
                    r is None
                },
                None => r is None,
            },
    {
        proof {
            assert(bytes@.skip(0) =~= bytes@);
        }
        match decode_value(bytes, 0) {
            Ok((v, used)) => {
                if used == bytes.len() {
                    Some(v)
                } else {
                    None
                }
            },
            Err(_) => None,
        }
    }
}

} // verus!
