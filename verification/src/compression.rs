//! Block compression codec: a zstd-backed compressor and an adaptive
//! layer that never stores an expanded block.

use crate::encoding::{
    decode_batch, decode_point, encode_batch, encode_point, spec_enc_batch, spec_enc_point,
};
use crate::error::TimeSeriesError;
use crate::types::{points_view, points_wf, spec_point_wf, DataPoint, DataPointView};
use vstd::prelude::*;

verus! {

/// The zstd frame that compressing `data` at `level` produces.  The frame
/// depends on the input bytes and the level alone.
pub uninterp spec fn zstd_frame(level: int, data: Seq<u8>) -> Seq<u8>;

/// What zstd decompression makes of `data`: the decompressed bytes, or
/// nothing when `data` is not a well-formed frame.  The outcome depends on
/// the input bytes alone.
pub uninterp spec fn zstd_unframe(data: Seq<u8>) -> Option<Seq<u8>>;

/// Relies on `zstd::encode_all`: compressing an in-memory slice into a
/// vector at a valid level succeeds (allocation exhaustion aborts the
/// process rather than erring), the result is the zstd frame of the input
/// at that level, and decompressing that frame yields the input again.
#[verifier::external_body]
fn zstd_compress(data: &[u8], level: i32) -> (r: Result<Vec<u8>, TimeSeriesError>)
    requires
        1 <= level <= 22,
    ensures
        r is Ok,
        r matches Ok(v) ==> v@ == zstd_frame(level as int, data@) && zstd_unframe(v@) == Some(
            data@,
        ),
{
    zstd::encode_all(data, level).map_err(
        |e| TimeSeriesError::CompressionError { message: format!("encoder failed: {}", e) },
    )
}

/// Relies on `zstd::decode_all` over an in-memory slice: it succeeds
/// exactly on well-formed frames, and its result depends on the input
/// bytes alone.
#[verifier::external_body]
fn zstd_decompress(data: &[u8]) -> (r: Result<Vec<u8>, TimeSeriesError>)
    ensures
        r matches Ok(v) ==> zstd_unframe(data@) == Some(v@),
        zstd_unframe(data@) is Some ==> r is Ok,
{
    zstd::decode_all(data).map_err(
        |e| TimeSeriesError::CompressionError { message: format!("decoder failed: {}", e) },
    )
}

/// Decompress a frame held in a vector.
pub fn decompress_frame(data: &Vec<u8>) -> (r: Result<Vec<u8>, TimeSeriesError>)
    ensures
        r matches Ok(v) ==> zstd_unframe(data@) == Some(v@),
        zstd_unframe(data@) is Some ==> r is Ok,
{
    zstd_decompress(data.as_slice())
}

/// Compression engine at a fixed zstd level.
#[derive(Debug)]
pub struct ZstdCompressor {
    level: i32,
}

impl ZstdCompressor {
    /// The configured level.
    pub closed spec fn spec_level(&self) -> i32 {
        self.level
    }

    /// Well-formed: the level lies in zstd's accepted range.
    pub open spec fn wf(&self) -> bool {
        1 <= self.spec_level() <= 22
    }

    /// A compressor at the default, balanced level.
    pub fn new() -> (c: Self)
        ensures
            c.wf(),
            c.spec_level() == 3,
    {
        ZstdCompressor { level: 3 }
    }

    /// A compressor at the given level; levels outside 1 through 22 are
    /// rejected with a `Configuration` error.
    pub fn with_level(level: i32) -> (r: Result<Self, TimeSeriesError>)
        ensures
            match r {
                Ok(c) => 1 <= level <= 22 && c.wf() && c.spec_level() == level,
                Err(e) => (level < 1 || level > 22) && e is Configuration,
            },
    {
        if level < 1 || level > 22 {
            return Err(
                TimeSeriesError::configuration("Compression level must be between 1 and 22"),
            );
        }
        Ok(ZstdCompressor { level })
    }

    /// Compress raw bytes into a zstd frame.
    pub fn compress_bytes(&self, data: &[u8]) -> (r: Result<Vec<u8>, TimeSeriesError>)
        requires
            self.wf(),
        ensures
            r is Ok,
            r matches Ok(v) ==> v@ == zstd_frame(self.spec_level() as int, data@) && zstd_unframe(
                v@,
            ) == Some(data@),
    {
        zstd_compress(data, self.level)
    }

    /// Decompress a zstd frame back into the bytes it was made from.
    pub fn decompress_bytes(&self, compressed: &[u8]) -> (r: Result<Vec<u8>, TimeSeriesError>)
        ensures
            r matches Ok(v) ==> zstd_unframe(compressed@) == Some(v@),
            zstd_unframe(compressed@) is Some ==> r is Ok,
    {
        zstd_decompress(compressed)
    }

    /// Serialize one data point and compress it.
    pub fn compress_data_point(&self, data_point: &DataPoint) -> (r: Result<
        Vec<u8>,
        TimeSeriesError,
    >)
        requires
            self.wf(),
        ensures
            r is Ok,
            r matches Ok(v) ==> v@ == zstd_frame(
                self.spec_level() as int,
                spec_enc_point(data_point@),
            ) && zstd_unframe(v@) == Some(spec_enc_point(data_point@))
                && crate::encoding::point_encodable(data_point@),
    {
        let mut serialized: Vec<u8> = Vec::new();
        encode_point(&mut serialized, data_point);
        proof {
            assert(serialized@ =~= spec_enc_point(data_point@));
        }
        self.compress_bytes(serialized.as_slice())
    }

    /// Decompress and deserialize one data point: the inverse of
    /// [`Self::compress_data_point`] on its output.
    pub fn decompress_data_point(&self, compressed: &[u8]) -> (r: Result<
        DataPoint,
        TimeSeriesError,
    >)
        ensures
            (forall|p: DataPointView|
                zstd_unframe(compressed@) == Some(#[trigger] spec_enc_point(p))
                    && crate::encoding::point_encodable(p) && spec_point_wf(p) ==> (
                r matches Ok(dp) && dp@ == p)),
    {
        let bytes = match zstd_decompress(compressed) {
            Ok(b) => b,
            Err(e) => {
                proof {
                    assert forall|p: DataPointView|
                        zstd_unframe(compressed@) == Some(#[trigger] spec_enc_point(p))
                            && crate::encoding::point_encodable(p) && spec_point_wf(
                        p,
                    ) implies false by {}
                }
                return Err(e);
            },
        };
        let parsed = decode_point(&bytes, 0);
        proof {
            assert forall|p: DataPointView|
                zstd_unframe(compressed@) == Some(#[trigger] spec_enc_point(p))
                    && crate::encoding::point_encodable(p) && spec_point_wf(p) implies (
            parsed matches Ok(pr) && pr.0@ == p && pr.1 == spec_enc_point(p).len()) by {
                assert(bytes@ == spec_enc_point(p));
                crate::encoding::lemma_point_round_trip(p, Seq::empty());
                assert(spec_enc_point(p) + Seq::<u8>::empty() =~= spec_enc_point(p));
                assert(bytes@.skip(0) =~= bytes@);
            }
        }
        let (dp, used) = match parsed {
            Ok(pr) => pr,
            Err(e) => {
                return Err(e);
            },
        };
        if used != bytes.len() {
            return Err(TimeSeriesError::serialization("point: trailing bytes"));
        }
        Ok(dp)
    }

    /// Serialize a batch and compress it.
    pub fn compress_batch(&self, data_points: &Vec<DataPoint>) -> (r: Result<
        Vec<u8>,
        TimeSeriesError,
    >)
        requires
            self.wf(),
        ensures
            r is Ok,
            r matches Ok(v) ==> v@ == zstd_frame(
                self.spec_level() as int,
                spec_enc_batch(points_view(data_points@)),
            ) && zstd_unframe(v@) == Some(spec_enc_batch(points_view(data_points@)))
                && crate::encoding::batch_encodable(points_view(data_points@)),
    {
        let serialized = encode_batch(data_points);
        self.compress_bytes(serialized.as_slice())
    }

    /// Decompress and deserialize a batch: the inverse of
    /// [`Self::compress_batch`] on its output.
    pub fn decompress_batch(&self, compressed: &[u8]) -> (r: Result<
        Vec<DataPoint>,
        TimeSeriesError,
    >)
        ensures
            (forall|ps: Seq<DataPointView>|
                zstd_unframe(compressed@) == Some(#[trigger] spec_enc_batch(ps)) && points_wf(ps)
                    && crate::encoding::batch_encodable(ps) ==> (r matches Ok(v) && points_view(
                    v@,
                ) == ps)),
    {
        let bytes = match zstd_decompress(compressed) {
            Ok(b) => b,
            Err(e) => {
                proof {
                    assert forall|ps: Seq<DataPointView>|
                        zstd_unframe(compressed@) == Some(#[trigger] spec_enc_batch(ps))
                            && points_wf(ps) && crate::encoding::batch_encodable(
                        ps,
                    ) implies false by {}
                }
                return Err(e);
            },
        };
        let parsed = decode_batch(&bytes);
        proof {
            assert forall|ps: Seq<DataPointView>|
                zstd_unframe(compressed@) == Some(#[trigger] spec_enc_batch(ps)) && points_wf(ps)
                    && crate::encoding::batch_encodable(ps) implies (parsed matches Ok(v)
                && points_view(v@) == ps) by {
                assert(bytes@ == spec_enc_batch(ps));
                crate::encoding::lemma_batch_round_trip(ps);
            }
        }
        match parsed {
            Ok(v) => Ok(v),
            Err(e) => Err(e),
        }
    }
}

impl Default for ZstdCompressor {
    /// The default, balanced level.
    fn default() -> (c: Self)
        ensures
            c.spec_level() == 3,
    {
        ZstdCompressor::new()
    }
}

/// A stored block: the chosen bytes, whether they are compressed, and the
/// sizes before and after the choice.
#[derive(Debug)]
pub struct CompressedData {
    pub data: Vec<u8>,
    pub is_compressed: bool,
    pub original_size: usize,
    pub compressed_size: usize,
}

impl CompressedData {
    /// Bytes saved by the choice made.
    pub fn space_saved(&self) -> (n: usize)
        ensures
            n == (if self.original_size >= self.compressed_size {
                self.original_size - self.compressed_size
            } else {
                0int
            }),
    {
        if self.original_size >= self.compressed_size {
            self.original_size - self.compressed_size
        } else {
            0
        }
    }
}

/// What a well-formed stored block promises about itself.
pub open spec fn spec_compressed_wf(cd: CompressedData) -> bool {
    &&& cd.compressed_size == cd.data@.len()
    &&& cd.compressed_size <= cd.original_size
}

/// Whether a stored block is a valid stored form of serialized bytes
/// `serialized`: the raw bytes themselves, or a frame that decompresses
/// back to them.
pub open spec fn spec_stored_form(cd: CompressedData, serialized: Seq<u8>) -> bool {
    &&& cd.original_size == serialized.len()
    &&& (if cd.is_compressed {
        zstd_unframe(cd.data@) == Some(serialized)
    } else {
        cd.data@ == serialized
    })
}

/// Adaptive compressor: stores a block compressed only when the zstd frame
/// is small enough, and never stores more bytes than the serialized form.
#[derive(Debug)]
pub struct AdaptiveCompressor {
    compressor: ZstdCompressor,
    min_size_threshold: usize,
    ratio_num: u64,
    ratio_den: u64,
}

impl AdaptiveCompressor {
    /// The level handed to zstd.
    pub closed spec fn spec_level(&self) -> i32 {
        self.compressor.spec_level()
    }

    /// Blocks serialized below this size are stored raw.
    pub closed spec fn spec_min_size(&self) -> usize {
        self.min_size_threshold
    }

    /// The ratio bound as a fraction: a frame is kept only when
    /// `frame len / serialized len < ratio_num / ratio_den`.
    pub closed spec fn spec_ratio(&self) -> (u64, u64) {
        (self.ratio_num, self.ratio_den)
    }

    /// Whether the underlying compressor's level is valid.
    pub closed spec fn spec_compressor_wf(&self) -> bool {
        self.compressor.wf() && self.compressor.spec_level() == self.spec_level()
    }

    /// Whether the configuration is usable: a valid zstd level and a ratio
    /// bound of at most one, so that no stored block can ever expand.
    pub open spec fn wf(&self) -> bool {
        &&& self.spec_compressor_wf()
        &&& self.spec_ratio().1 > 0
        &&& self.spec_ratio().0 <= self.spec_ratio().1
    }

    /// The default adaptive compressor: level 3, a 1 KiB size floor, and a
    /// ratio bound of four fifths (at least 20% savings).
    pub fn new() -> (c: Self)
        ensures
            c.wf(),
            c.spec_level() == 3,
            c.spec_min_size() == 1024,
            c.spec_ratio() == (4u64, 5u64),
    {
        AdaptiveCompressor {
            compressor: ZstdCompressor::new(),
            min_size_threshold: 1024,
            ratio_num: 4,
            ratio_den: 5,
        }
    }

    /// An adaptive compressor with custom thresholds: blocks under
    /// `min_size` bytes stay raw, and a frame is kept only when its size
    /// over the serialized size is below `ratio_num / ratio_den`.  The
    /// ratio may not exceed one: the codec never stores an expansion.
    pub fn with_thresholds(min_size: usize, ratio_num: u64, ratio_den: u64) -> (c: Self)
        requires
            ratio_den > 0,
            ratio_num <= ratio_den,
        ensures
            c.wf(),
            c.spec_level() == 3,
            c.spec_min_size() == min_size,
            c.spec_ratio() == (ratio_num, ratio_den),
    {
        AdaptiveCompressor {
            compressor: ZstdCompressor::new(),
            min_size_threshold: min_size,
            ratio_num,
            ratio_den,
        }
    }

    /// Whether a frame of `frame_len` bytes is worth keeping for a block
    /// serialized to `serialized_len` bytes.
    pub open spec fn spec_beneficial(&self, frame_len: int, serialized_len: int) -> bool {
        frame_len * self.spec_ratio().1 < serialized_len * self.spec_ratio().0
    }

    /// The size of the bytes the adaptive choice stores for a block whose
    /// serialized form is `serialized`: the raw size below the floor or
    /// when the frame is not worth keeping, the frame size otherwise.
    pub open spec fn spec_chosen_len(&self, serialized: Seq<u8>) -> int {
        if serialized.len() < self.spec_min_size() {
            serialized.len() as int
        } else if self.spec_beneficial(
            zstd_frame(self.spec_level() as int, serialized).len() as int,
            serialized.len() as int,
        ) {
            zstd_frame(self.spec_level() as int, serialized).len() as int
        } else {
            serialized.len() as int
        }
    }

    /// Serialize a batch and store it raw or compressed, whichever is
    /// smaller under the configured thresholds.  Blocks below the size
    /// floor are always stored raw and never fail.  The stored size never
    /// exceeds the serialized size.
    pub fn compress_if_beneficial(&self, data_points: &Vec<DataPoint>) -> (r: Result<
        CompressedData,
        TimeSeriesError,
    >)
        requires
            self.wf(),
        ensures
            r is Ok,
            ({
                let serialized = spec_enc_batch(points_view(data_points@));
                &&& (r matches Ok(cd) ==> spec_compressed_wf(cd) && spec_stored_form(
                    cd,
                    serialized,
                ))
                &&& (r matches Ok(cd) ==> (cd.is_compressed <==> serialized.len()
                    >= self.spec_min_size() && self.spec_beneficial(
                    zstd_frame(self.spec_level() as int, serialized).len() as int,
                    serialized.len() as int,
                )))
                &&& (r matches Ok(cd) ==> cd.compressed_size == self.spec_chosen_len(serialized))
                &&& crate::encoding::batch_encodable(points_view(data_points@))
            }),
    {
        let serialized = encode_batch(data_points);
        let original_size = serialized.len();
        if original_size < self.min_size_threshold {
            return Ok(
                CompressedData {
                    data: serialized,
                    is_compressed: false,
                    original_size,
                    compressed_size: original_size,
                },
            );
        }
        let compressed = match self.compressor.compress_bytes(serialized.as_slice()) {
            Ok(v) => v,
            Err(e) => {
                proof {
                    assert(false);
                }
                return Err(e);
            },
        };
        let cl = compressed.len();
        proof {
            assert((cl as int) * (self.ratio_den as int)
                < 340282366920938463463374607431768211456) by (nonlinear_arith)
                requires
                    0 <= cl as int <= 18446744073709551615,
                    0 <= self.ratio_den as int <= 18446744073709551615,
            {}
            assert((original_size as int) * (self.ratio_num as int)
                < 340282366920938463463374607431768211456) by (nonlinear_arith)
                requires
                    0 <= original_size as int <= 18446744073709551615,
                    0 <= self.ratio_num as int <= 18446744073709551615,
            {}
        }
        let keep = (cl as u128) * (self.ratio_den as u128) < (original_size as u128) * (
        self.ratio_num as u128);
        if keep {
            proof {
                let fl = cl as int;
                let sl = original_size as int;
                let num = self.spec_ratio().0 as int;
                let den = self.spec_ratio().1 as int;
                assert(fl < sl) by (nonlinear_arith)
                    requires
                        fl * den < sl * num,
                        num <= den,
                        den > 0,
                        fl >= 0,
                        sl >= 0,
                {}
            }
            Ok(
                CompressedData {
                    data: compressed,
                    is_compressed: true,
                    original_size,
                    compressed_size: cl,
                },
            )
        } else {
            Ok(
                CompressedData {
                    data: serialized,
                    is_compressed: false,
                    original_size,
                    compressed_size: original_size,
                },
            )
        }
    }

    /// Recover the batch from a stored block: the inverse of
    /// [`Self::compress_if_beneficial`] on its output.
    pub fn decompress(&self, compressed_data: &CompressedData) -> (r: Result<
        Vec<DataPoint>,
        TimeSeriesError,
    >)
        ensures
            (forall|ps: Seq<DataPointView>|
                #[trigger] spec_stored_form(*compressed_data, spec_enc_batch(ps)) && points_wf(
                    ps,
                ) && crate::encoding::batch_encodable(ps) ==> (r matches Ok(v) && points_view(v@)
                    == ps)),
    {
        let bytes = if compressed_data.is_compressed {
            match zstd_decompress(compressed_data.data.as_slice()) {
                Ok(b) => b,
                Err(e) => {
                    proof {
                        assert forall|ps: Seq<DataPointView>|
                            #[trigger] spec_stored_form(*compressed_data, spec_enc_batch(ps))
                                && points_wf(ps) && crate::encoding::batch_encodable(
                            ps,
                        ) implies false by {}
                    }
                    return Err(e);
                },
            }
        } else {
            crate::types::clone_bytes(&compressed_data.data)
        };
        let parsed = decode_batch(&bytes);
        proof {
            assert forall|ps: Seq<DataPointView>|
                #[trigger] spec_stored_form(*compressed_data, spec_enc_batch(ps)) && points_wf(
                ps,
            ) && crate::encoding::batch_encodable(ps) implies (parsed matches Ok(v)
                && points_view(v@) == ps) by {
                assert(bytes@ == spec_enc_batch(ps));
                crate::encoding::lemma_batch_round_trip(ps);
            }
        }
        match parsed {
            Ok(v) => Ok(v),
            Err(e) => Err(e),
        }
    }
}

impl Default for AdaptiveCompressor {
    /// The default thresholds.
    fn default() -> (c: Self)
        ensures
            c.wf(),
    {
        AdaptiveCompressor::new()
    }
}

/// Compression statistics for a batch.
#[derive(Debug, Clone, Copy)]
pub struct CompressionStats {
    pub original_size: usize,
    pub compressed_size: usize,
    pub space_saved: usize,
}

impl CompressionStats {
    /// Whether compression saves at least a tenth of the bytes.
    pub fn is_beneficial(&self) -> (b: bool)
        ensures
            b == ((self.compressed_size as int) * 10 < (self.original_size as int) * 9),
    {
        (self.compressed_size as u128) * 10 < (self.original_size as u128) * 9
    }
}

impl ZstdCompressor {
    /// Serialize a batch, compress it, and report the sizes.
    pub fn estimate_batch_savings(&self, data_points: &Vec<DataPoint>) -> (r: Result<
        CompressionStats,
        TimeSeriesError,
    >)
        requires
            self.wf(),
        ensures
            r is Ok,
            r matches Ok(s) ==> s.original_size == spec_enc_batch(
                points_view(data_points@),
            ).len() && s.compressed_size == zstd_frame(
                self.spec_level() as int,
                spec_enc_batch(points_view(data_points@)),
            ).len() && s.space_saved == (if s.original_size >= s.compressed_size {
                s.original_size - s.compressed_size
            } else {
                0int
            }),
    {
        let serialized = encode_batch(data_points);
        let compressed = self.compress_bytes(serialized.as_slice())?;
        let original_size = serialized.len();
        let compressed_size = compressed.len();
        let space_saved = if original_size >= compressed_size {
            original_size - compressed_size
        } else {
            0
        };
        Ok(CompressionStats { original_size, compressed_size, space_saved })
    }
}

} // verus!
