//! The codec pipeline: array-to-array codecs, the array-to-bytes codec, and
//! bytes-to-bytes codecs, with full encode / decode and partial decoding.

use crate::byte_range::{extract_range_spec, ByteRange};
use crate::concurrency::{CodecOptions, RecommendedConcurrency};
use crate::subset::num_elements;
use vstd::prelude::*;

verus! {

broadcast use vstd::arithmetic::mul::lemma_mul_is_commutative;

/// A primitive element kind with a fixed size in bytes.
#[derive(Clone, Copy, Debug, PartialEq, Eq, Structural)]
pub enum DataType {
    Bool,
    Int8,
    Int16,
    Int32,
    Int64,
    UInt8,
    UInt16,
    UInt32,
    UInt64,
    Float16,
    Float32,
    Float64,
    Complex64,
    Complex128,
}

impl DataType {
    /// The size of one element in bytes.
    pub open spec fn spec_size(&self) -> nat {
        match *self {
            DataType::Bool => 1,
            DataType::Int8 => 1,
            DataType::Int16 => 2,
            DataType::Int32 => 4,
            DataType::Int64 => 8,
            DataType::UInt8 => 1,
            DataType::UInt16 => 2,
            DataType::UInt32 => 4,
            DataType::UInt64 => 8,
            DataType::Float16 => 2,
            DataType::Float32 => 4,
            DataType::Float64 => 8,
            DataType::Complex64 => 8,
            DataType::Complex128 => 16,
        }
    }

    /// The size of one element in bytes.
    pub fn size(&self) -> (r: usize)
        ensures
            r == self.spec_size(),
            1 <= r <= 16,
    {
        match *self {
            DataType::Bool => 1,
            DataType::Int8 => 1,
            DataType::Int16 => 2,
            DataType::Int32 => 4,
            DataType::Int64 => 8,
            DataType::UInt8 => 1,
            DataType::UInt16 => 2,
            DataType::UInt32 => 4,
            DataType::UInt64 => 8,
            DataType::Float16 => 2,
            DataType::Float32 => 4,
            DataType::Float64 => 8,
            DataType::Complex64 => 8,
            DataType::Complex128 => 16,
        }
    }
}

/// The native-endian byte pattern of one element, used where a chunk is
/// absent from the store.
#[derive(Debug)]
pub struct FillValue(pub Vec<u8>);

impl FillValue {
    /// Create a fill value from its native-endian bytes.
    pub fn new(bytes: Vec<u8>) -> (r: Self)
        ensures
            r.0@ == bytes@,
    {
        FillValue(bytes)
    }

    /// The native-endian bytes of the fill value.
    pub fn as_ne_bytes(&self) -> (r: &Vec<u8>)
        ensures
            r@ == self.0@,
    {
        &self.0
    }
}

impl Clone for FillValue {
    fn clone(&self) -> (r: Self)
        ensures
            r.0@ == self.0@,
    {
        FillValue(copy_u8_vec(&self.0))
    }
}

/// A copy of a byte vector.
pub fn copy_u8_vec(v: &Vec<u8>) -> (r: Vec<u8>)
    ensures
        r@ == v@,
{
    let mut r: Vec<u8> = Vec::new();
    let n = v.len();
    for i in 0..n
        invariant
            n == v@.len(),
            r@ =~= v@.take(i as int),
    {
        r.push(v[i]);
        assert(r@ =~= v@.take(i + 1));
    }
    assert(r@ =~= v@);
    r
}

/// The fill value's byte length does not match the data type's element size.
#[derive(Debug)]
pub struct IncompatibleFillValueError(pub String);

/// The shape, data type and fill value of one chunk, as needed to size
/// decode buffers.
#[derive(Debug)]
pub struct ChunkRepresentation {
    pub shape: Vec<u64>,
    pub data_type: DataType,
    pub fill_value: FillValue,
}

impl ChunkRepresentation {
    /// Every extent is positive, the fill value is one element wide, and the
    /// chunk's byte size fits in the machine word.
    pub open spec fn wf(&self) -> bool {
        &&& crate::subset::all_positive(self.shape@)
        &&& 1 <= self.shape@.len()
        &&& self.fill_value.0@.len() == self.data_type.spec_size()
        &&& num_elements(self.shape@) * self.data_type.spec_size() <= usize::MAX
    }

    /// The chunk's element size in bytes.
    pub open spec fn spec_element_size(&self) -> nat {
        self.data_type.spec_size()
    }

    /// The chunk's total byte size.
    pub open spec fn spec_size_bytes(&self) -> nat {
        num_elements(self.shape@) * self.data_type.spec_size()
    }

    /// Create a chunk representation.
    pub fn new(shape: Vec<u64>, data_type: DataType, fill_value: FillValue) -> (r: Result<
        Self,
        IncompatibleFillValueError,
    >)
        ensures
            r matches Ok(c) ==> c.wf() && c.shape@ == shape@ && c.data_type == data_type
                && c.fill_value.0@ == fill_value.0@,
            r is Ok <==> (crate::subset::all_positive(shape@) && 1 <= shape@.len()
                && fill_value.0@.len() == data_type.spec_size() && num_elements(shape@)
                * data_type.spec_size() <= usize::MAX),
    {
        let es = data_type.size();
        if fill_value.0.len() != es {
            return Err(IncompatibleFillValueError(String::new()));
        }
        if shape.len() == 0 {
            return Err(IncompatibleFillValueError(String::new()));
        }
        let n = shape.len();
        for i in 0..n
            invariant
                n == shape@.len(),
                forall|k: int| 0 <= k < i ==> 1 <= shape@[k],
        {
            if shape[i] == 0 {
                return Err(IncompatibleFillValueError(String::new()));
            }
        }
        assert(crate::subset::all_positive(shape@));
        proof {
            crate::subset::lemma_num_elements_pos(shape@);
        }
        let ne = match checked_product(&shape) {
            Some(p) => p,
            None => {
                return Err(IncompatibleFillValueError(String::new()));
            },
        };
        if es as u64 > u64::MAX / ne {
            proof {
                let q = u64::MAX as int / ne as int;
                vstd::arithmetic::div_mod::lemma_fundamental_div_mod(u64::MAX as int, ne as int);
                crate::chunk_grid::lemma_div_nonneg(u64::MAX as int, ne as int);
                assert(ne as int * es as int > u64::MAX) by (nonlinear_arith)
                    requires
                        es as int > q,
                        u64::MAX as int == ne as int * q + (u64::MAX as int % ne as int),
                        0 <= (u64::MAX as int % ne as int) < ne as int,
                        0 <= q,
                        1 <= ne as int,
                ;
            }
            return Err(IncompatibleFillValueError(String::new()));
        }
        proof {
            let q = u64::MAX as int / ne as int;
            vstd::arithmetic::div_mod::lemma_fundamental_div_mod(u64::MAX as int, ne as int);
            crate::chunk_grid::lemma_div_nonneg(u64::MAX as int, ne as int);
            assert(ne as int * es as int <= u64::MAX) by (nonlinear_arith)
                requires
                    es as int <= q,
                    u64::MAX as int == ne as int * q + (u64::MAX as int % ne as int),
                    0 <= (u64::MAX as int % ne as int) < ne as int,
                    1 <= ne as int,
                    0 <= es as int,
            ;
        }
        let total = ne * es as u64;
        if total > usize::MAX as u64 {
            return Err(IncompatibleFillValueError(String::new()));
        }
        Ok(ChunkRepresentation { shape, data_type, fill_value })
    }

    /// The chunk's extents.
    pub fn shape(&self) -> (r: &Vec<u64>)
        ensures
            r@ == self.shape@,
    {
        &self.shape
    }

    /// The chunk's data type.
    pub fn data_type(&self) -> (r: &DataType)
        ensures
            *r == self.data_type,
    {
        &self.data_type
    }

    /// The chunk's fill value.
    pub fn fill_value(&self) -> (r: &FillValue)
        ensures
            r.0@ == self.fill_value.0@,
    {
        &self.fill_value
    }

    /// The size of one element in bytes.
    pub fn element_size(&self) -> (r: usize)
        ensures
            r == self.spec_element_size(),
    {
        self.data_type.size()
    }

    /// The number of elements in the chunk.
    pub fn num_elements(&self) -> (r: u64)
        requires
            self.wf(),
        ensures
            r == num_elements(self.shape@),
    {
        proof {
            lemma_chunk_counts(self.shape@, self.data_type.spec_size());
        }
        crate::subset::product_u64(&self.shape)
    }

    /// The chunk's total size in bytes.
    pub fn size_bytes(&self) -> (r: usize)
        requires
            self.wf(),
        ensures
            r == self.spec_size_bytes(),
    {
        proof {
            lemma_chunk_counts(self.shape@, self.data_type.spec_size());
        }
        let ne = crate::subset::product_u64(&self.shape) as usize;
        ne * self.data_type.size()
    }
}

impl Clone for ChunkRepresentation {
    fn clone(&self) -> (r: Self)
        ensures
            r.shape@ == self.shape@,
            r.data_type == self.data_type,
            r.fill_value.0@ == self.fill_value.0@,
    {
        ChunkRepresentation {
            shape: crate::subset::copy_u64_vec(&self.shape),
            data_type: self.data_type,
            fill_value: self.fill_value.clone(),
        }
    }
}

/// The element count of a chunk is bounded by its byte size.
pub proof fn lemma_chunk_counts(shape: Seq<u64>, es: nat)
    requires
        1 <= es,
        num_elements(shape) * es <= usize::MAX,
    ensures
        num_elements(shape) <= usize::MAX,
{
    assert(num_elements(shape) <= num_elements(shape) * es) by (nonlinear_arith)
        requires
            1 <= es,
    ;
}

/// The product of the extents when it fits in a machine integer.
pub fn checked_product(shape: &Vec<u64>) -> (r: Option<u64>)
    ensures
        r matches Some(p) ==> p == num_elements(shape@),
        r is None ==> num_elements(shape@) > u64::MAX,
    {
    let n = shape.len();
    for i in 0..n
        invariant
            n == shape@.len(),
            forall|k: int| 0 <= k < i ==> 1 <= shape@[k],
    {
        if shape[i] == 0 {
            proof {
                crate::subset::lemma_zero_extent(shape@, i as int);
            }
            return Some(0);
        }
    }
    assert(crate::subset::all_positive(shape@));
    let mut acc: u64 = 1;
    for i in 0..n
        invariant
            n == shape@.len(),
            crate::subset::all_positive(shape@),
            acc == num_elements(shape@.take(i as int)),
            1 <= acc,
    {
        proof {
            assert(shape@.take(i + 1).drop_last() =~= shape@.take(i as int));
            assert(shape@.take(i + 1).last() == shape@[i as int]);
        }
        let s = shape[i];
        if s > u64::MAX / acc {
            proof {
                let q = u64::MAX as int / acc as int;
                vstd::arithmetic::div_mod::lemma_fundamental_div_mod(u64::MAX as int, acc as int);
                crate::chunk_grid::lemma_div_nonneg(u64::MAX as int, acc as int);
                assert(num_elements(shape@.take(i + 1)) > u64::MAX) by (nonlinear_arith)
                    requires
                        num_elements(shape@.take(i + 1)) == acc as int * s as int,
                        s as int > q,
                        u64::MAX as int == acc as int * q + (u64::MAX as int % acc as int),
                        0 <= (u64::MAX as int % acc as int) < acc as int,
                        0 <= q,
                        1 <= acc as int,
                ;
                assert(shape@.take(i + 1) + shape@.skip(i + 1) =~= shape@);
                crate::subset::lemma_num_elements_concat(shape@.take(i + 1), shape@.skip(i + 1));
                assert(crate::subset::all_positive(shape@.skip(i + 1))) by {
                    assert forall|k: int| 0 <= k < shape@.skip(i + 1).len() implies 1 <= #[trigger] shape@.skip(
                        i + 1,
                    )[k] by {
                        assert(shape@[k + i + 1] >= 1);
                    }
                }
                crate::subset::lemma_num_elements_pos(shape@.skip(i + 1));
                assert(num_elements(shape@) >= num_elements(shape@.take(i + 1)) * 1)
                    by (nonlinear_arith)
                    requires
                        num_elements(shape@) == num_elements(shape@.take(i + 1)) * num_elements(
                            shape@.skip(i + 1),
                        ),
                        1 <= num_elements(shape@.skip(i + 1)),
                ;
            }
            return None;
        }
        proof {
            let q = u64::MAX as int / acc as int;
            vstd::arithmetic::div_mod::lemma_fundamental_div_mod(u64::MAX as int, acc as int);
            crate::chunk_grid::lemma_div_nonneg(u64::MAX as int, acc as int);
            assert(acc as int * s as int <= u64::MAX) by (nonlinear_arith)
                requires
                    s as int <= q,
                    u64::MAX as int == acc as int * q + (u64::MAX as int % acc as int),
                    0 <= (u64::MAX as int % acc as int) < acc as int,
                    1 <= acc as int,
                    0 <= s as int,
            ;
        }
        acc = acc * s;
        proof {
            assert(acc >= 1) by (nonlinear_arith)
                requires
                    acc as int == num_elements(shape@.take(i as int)) * s as int,
                    1 <= num_elements(shape@.take(i as int)),
                    1 <= s,
            ;
        }
    }
    proof {
        assert(shape@.take(n as int) =~= shape@);
    }
    Some(acc)
}

/// A codec-layer failure.
#[derive(Debug)]
pub enum CodecError {
    /// The decoded chunk does not have the expected byte length.
    UnexpectedChunkDecodedSize(usize, u64),
    /// A checksum did not match on a whole-blob decode.
    InvalidChecksum,
    /// A byte range does not fit in the value it addresses.
    InvalidByteRangeError(ByteRange),
    /// A store-layer failure beneath a partial decoder.
    StorageError(crate::store::StorageError),
    /// Any other failure.
    Other(String),
}

/// The checksum of the CRC-32C (Castagnoli) algorithm.
pub uninterp spec fn crc32c_of(data: Seq<u8>) -> u32;

/// Relies on `crc32c::crc32c`: the CRC-32C checksum of a byte slice, a pure
/// function of the bytes alone.
#[verifier::external_body]
fn compute_crc32c(data: &Vec<u8>) -> (r: u32)
    ensures
        r == crc32c_of(data@),
{
    crc32c::crc32c(data.as_slice())
}

/// The four little-endian bytes of a 32-bit value.
pub open spec fn u32_le_bytes(x: u32) -> Seq<u8> {
    seq![
        (x & 0xff) as u8,
        ((x >> 8) & 0xff) as u8,
        ((x >> 16) & 0xff) as u8,
        ((x >> 24) & 0xff) as u8,
    ]
}

/// The number of checksum bytes a `crc32c` codec appends.
pub const CHECKSUM_SIZE: usize = 4;

/// The `crc32c` codec: appends the little-endian CRC-32C of the payload.
#[derive(Clone, Copy, Debug, PartialEq, Eq, Structural)]
pub struct Crc32cCodec {}

/// What a `crc32c` encode produces: the payload followed by its checksum.
pub open spec fn crc32c_encode_spec(data: Seq<u8>) -> Seq<u8> {
    data + u32_le_bytes(crc32c_of(data))
}

/// What a `crc32c` whole-blob decode yields: the payload with the trailer
/// stripped, provided the trailer is present and (when `validate`) matches.
pub open spec fn crc32c_decode_spec(raw: Seq<u8>, validate: bool) -> Option<Seq<u8>> {
    if raw.len() < 4 {
        None
    } else {
        let payload = raw.subrange(0, raw.len() - 4);
        let trailer = raw.subrange(raw.len() - 4, raw.len() as int);
        if !validate || trailer == u32_le_bytes(crc32c_of(payload)) {
            Some(payload)
        } else {
            None
        }
    }
}

impl Crc32cCodec {
    pub fn new() -> (r: Self)
        ensures
            r == (Crc32cCodec {  }),
    {
        Crc32cCodec {  }
    }

    /// Append the payload's CRC-32C checksum, little-endian.
    pub fn encode(&self, data: Vec<u8>, _options: &CodecOptions) -> (r: Result<Vec<u8>, CodecError>)
        requires
            data@.len() + 4 <= usize::MAX,
        ensures
            r matches Ok(v) ==> v@ == crc32c_encode_spec(data@),
            r is Ok,
    {
        let crc = compute_crc32c(&data);
        let mut out = data;
        let ghost payload = out@;
        out.push((crc & 0xff) as u8);
        out.push(((crc >> 8) & 0xff) as u8);
        out.push(((crc >> 16) & 0xff) as u8);
        out.push(((crc >> 24) & 0xff) as u8);
        proof {
            assert(out@ =~= payload + u32_le_bytes(crc32c_of(payload)));
        }
        Ok(out)
    }

    /// Strip and (by option) verify the trailing checksum.
    pub fn decode(&self, raw: Vec<u8>, options: &CodecOptions) -> (r: Result<Vec<u8>, CodecError>)
        ensures
            r matches Ok(v) ==> crc32c_decode_spec(raw@, options.validate_checksums) matches Some(p)
                && v@ == p,
            r is Ok <==> crc32c_decode_spec(raw@, options.validate_checksums) is Some,
            r matches Err(e) ==> e is InvalidChecksum,
    {
        if raw.len() < CHECKSUM_SIZE {
            return Err(CodecError::InvalidChecksum);
        }
        let ghost raw0 = raw@;
        let mut payload = raw;
        let b3 = payload.pop().unwrap();
        let b2 = payload.pop().unwrap();
        let b1 = payload.pop().unwrap();
        let b0 = payload.pop().unwrap();
        proof {
            assert(payload@ =~= raw0.subrange(0, raw0.len() - 4));
            assert(seq![b0, b1, b2, b3] =~= raw0.subrange(raw0.len() - 4, raw0.len() as int));
        }
        if options.validate_checksums {
            let crc = compute_crc32c(&payload);
            let c0 = (crc & 0xff) as u8;
            let c1 = ((crc >> 8) & 0xff) as u8;
            let c2 = ((crc >> 16) & 0xff) as u8;
            let c3 = ((crc >> 24) & 0xff) as u8;
            if b0 != c0 || b1 != c1 || b2 != c2 || b3 != c3 {
                proof {
                    assert(seq![b0, b1, b2, b3] != u32_le_bytes(crc32c_of(payload@))) by {
                        if seq![b0, b1, b2, b3] == u32_le_bytes(crc32c_of(payload@)) {
                            assert(seq![b0, b1, b2, b3][0] == c0);
                            assert(seq![b0, b1, b2, b3][1] == c1);
                            assert(seq![b0, b1, b2, b3][2] == c2);
                            assert(seq![b0, b1, b2, b3][3] == c3);
                        }
                    }
                }
                return Err(CodecError::InvalidChecksum);
            }
            proof {
                assert(seq![b0, b1, b2, b3] =~= u32_le_bytes(crc32c_of(payload@)));
            }
        }
        Ok(payload)
    }

    /// The codec works sequentially: a window of one.
    pub fn recommended_concurrency(&self, _rep: &ChunkRepresentation) -> (r: RecommendedConcurrency)
        ensures
            r == (RecommendedConcurrency { min: 1usize, max: 1usize }),
    {
        RecommendedConcurrency::new_maximum(1)
    }
}

/// The `bytes` codec: the identity on native-endian element bytes, checking
/// that the payload has exactly the chunk's byte size.
#[derive(Clone, Copy, Debug, PartialEq, Eq, Structural)]
pub struct BytesCodec {}

/// What a `bytes` decode yields: the raw bytes, provided they have exactly
/// the chunk's byte size.
pub open spec fn bytes_decode_spec(raw: Seq<u8>, size_bytes: nat) -> Option<Seq<u8>> {
    if raw.len() == size_bytes {
        Some(raw)
    } else {
        None
    }
}

impl BytesCodec {
    pub fn new() -> (r: Self)
        ensures
            r == (BytesCodec {  }),
    {
        BytesCodec {  }
    }

    /// Serialise a chunk's elements: the identity on native-endian bytes.
    pub fn encode(&self, data: Vec<u8>, rep: &ChunkRepresentation, _options: &CodecOptions) -> (r:
        Result<Vec<u8>, CodecError>)
        requires
            rep.wf(),
        ensures
            r matches Ok(v) ==> v@ == data@ && data@.len() == rep.spec_size_bytes(),
            r is Ok <==> data@.len() == rep.spec_size_bytes(),
            r matches Err(e) ==> (e matches CodecError::UnexpectedChunkDecodedSize(g, x) && g
                == data@.len() && x == rep.spec_size_bytes()),
    {
        if data.len() == rep.size_bytes() {
            Ok(data)
        } else {
            Err(CodecError::UnexpectedChunkDecodedSize(data.len(), rep.size_bytes() as u64))
        }
    }

    /// Deserialise a chunk's elements: the identity, checking the size.
    pub fn decode(&self, raw: Vec<u8>, rep: &ChunkRepresentation, _options: &CodecOptions) -> (r:
        Result<Vec<u8>, CodecError>)
        requires
            rep.wf(),
        ensures
            r matches Ok(v) ==> bytes_decode_spec(raw@, rep.spec_size_bytes()) matches Some(p)
                && v@ == p,
            r is Ok <==> bytes_decode_spec(raw@, rep.spec_size_bytes()) is Some,
            r matches Err(e) ==> (e matches CodecError::UnexpectedChunkDecodedSize(g, x) && g
                == raw@.len() && x == rep.spec_size_bytes()),
    {
        if raw.len() == rep.size_bytes() {
            Ok(raw)
        } else {
            Err(CodecError::UnexpectedChunkDecodedSize(raw.len(), rep.size_bytes() as u64))
        }
    }

    /// The codec works sequentially: a window of one.
    pub fn recommended_concurrency(&self, _rep: &ChunkRepresentation) -> (r: RecommendedConcurrency)
        ensures
            r == (RecommendedConcurrency { min: 1usize, max: 1usize }),
    {
        RecommendedConcurrency::new_maximum(1)
    }
}

/// A handle yielding byte ranges of one decoded blob. `blob()` is the blob
/// the handle exposes, or nothing when the underlying key is absent.
/// `spec_answer` is the bytes the handle returns for each requested range:
/// for a range that addresses only bytes within the blob through an explicit
/// start and length it is exactly that span of the blob
/// (`lemma_answer_in_blob`); for other ranges it is fixed by the handle's
/// own masking rules. `answers` is the requests the handle is bound to
/// answer: on those it must return its blob's ranges (or report the blob
/// absent), never an error; a handle over fallible reads answers for
/// nothing.
pub trait BytesPartialDecoderTraits: Sized {
    spec fn pd_inv(&self) -> bool;

    spec fn blob(&self) -> Option<Seq<u8>>;

    spec fn spec_answer(&self, range: ByteRange) -> Seq<u8>;

    spec fn answers(&self, ranges: Seq<ByteRange>) -> bool;

    /// An explicit span lying within the blob is answered exactly.
    proof fn lemma_answer_in_blob(&self, range: ByteRange)
        requires
            self.blob() is Some,
            range_in_prefix(range, self.blob()->0.len() as int),
        ensures
            self.spec_answer(range) == extract_range_spec(self.blob()->0, range),
    ;

    fn partial_decode(&self, decoded_regions: &Vec<ByteRange>, options: &CodecOptions) -> (r:
        Result<Option<Vec<Vec<u8>>>, CodecError>)
        requires
            self.pd_inv(),
        ensures
            r matches Ok(Some(v)) ==> self.blob() is Some && v@.len() == decoded_regions@.len() && (
            forall|i: int| 0 <= i < v@.len() ==> (#[trigger] v@[i])@ == self.spec_answer(
                decoded_regions@[i],
            )),
            r matches Ok(None) ==> self.blob() is None,
            (self.answers(decoded_regions@) && self.blob() is Some) ==> r matches Ok(Some(_)),
            (self.answers(decoded_regions@) && self.blob() is None) ==> r matches Ok(None),
    ;
}

/// The range names an explicit span lying within the first `len` bytes.
pub open spec fn range_in_prefix(range: ByteRange, len: int) -> bool {
    match range {
        ByteRange::FromStart(offset, length) => match length {
            Some(l) => offset + l <= len,
            None => false,
        },
        ByteRange::FromEnd(_, _) => false,
    }
}

/// A whole in-memory value used as a partial-decode input. It answers every
/// request whose ranges all fit the value, extracting each exactly; a range
/// that does not fit is an error.
impl BytesPartialDecoderTraits for Vec<u8> {
    open spec fn pd_inv(&self) -> bool {
        true
    }

    open spec fn blob(&self) -> Option<Seq<u8>> {
        Some(self@)
    }

    open spec fn spec_answer(&self, range: ByteRange) -> Seq<u8> {
        extract_range_spec(self@, range)
    }

    open spec fn answers(&self, ranges: Seq<ByteRange>) -> bool {
        forall|i: int| 0 <= i < ranges.len() ==> (#[trigger] ranges[i]).spec_valid(
            self@.len() as int,
        )
    }

    proof fn lemma_answer_in_blob(&self, range: ByteRange) {
    }

    fn partial_decode(&self, decoded_regions: &Vec<ByteRange>, _options: &CodecOptions) -> (r:
        Result<Option<Vec<Vec<u8>>>, CodecError>)
        ensures
            r is Ok <==> self.answers(decoded_regions@),
            r matches Err(e) ==> e matches CodecError::InvalidByteRangeError(_),
    {
        let n = decoded_regions.len();
        let mut out: Vec<Vec<u8>> = Vec::new();
        for i in 0..n
            invariant
                n == decoded_regions@.len(),
                out@.len() == i,
                forall|k: int| 0 <= k < i ==> (#[trigger] decoded_regions@[k]).spec_valid(
                    self@.len() as int,
                ),
                forall|k: int| 0 <= k < i ==> (#[trigger] out@[k])@ == extract_range_spec(
                    self@,
                    decoded_regions@[k],
                ),
        {
            let range = decoded_regions[i];
            match crate::byte_range::extract_byte_range(self, &range) {
                Ok(v) => {
                    out.push(v);
                },
                Err(e) => {
                    proof {
                        assert(!(#[trigger] decoded_regions@[i as int]).spec_valid(
                            self@.len() as int,
                        ));
                    }
                    return Err(CodecError::InvalidByteRangeError(e.0));
                },
            }
        }
        Ok(Some(out))
    }
}

/// Partial decoder for the `crc32c` codec: passes ranges through to its
/// input and masks the four trailing checksum bytes out of the results.
pub struct Crc32cPartialDecoder<T> {
    pub input_handle: T,
}

impl<T: BytesPartialDecoderTraits> Crc32cPartialDecoder<T> {
    /// Create a partial decoder for the `crc32c` codec over an input handle.
    pub fn new(input_handle: T) -> (r: Self)
        ensures
            r.input_handle == input_handle,
    {
        Crc32cPartialDecoder { input_handle }
    }
}

/// Apply the `crc32c` masking rule to the bytes answering one range: a
/// suffix that could include trailer bytes is truncated accordingly.
pub open spec fn crc32c_mask_spec(bytes: Seq<u8>, range: ByteRange) -> Seq<u8> {
    match range {
        ByteRange::FromStart(_, Some(_)) => bytes,
        ByteRange::FromStart(_, None) => if bytes.len() >= 4 {
            bytes.subrange(0, bytes.len() - 4)
        } else {
            Seq::empty()
        },
        ByteRange::FromEnd(offset, _) => if offset < 4 {
            if bytes.len() >= 4 - offset {
                bytes.subrange(0, bytes.len() - (4 - offset))
            } else {
                Seq::empty()
            }
        } else {
            bytes
        },
    }
}

impl<T: BytesPartialDecoderTraits> BytesPartialDecoderTraits for Crc32cPartialDecoder<T> {
    open spec fn pd_inv(&self) -> bool {
        self.input_handle.pd_inv()
    }

    /// The decoder answers whatever its input handle answers: the masking
    /// itself never fails.
    open spec fn answers(&self, ranges: Seq<ByteRange>) -> bool {
        self.input_handle.answers(ranges)
    }

    /// The blob this handle exposes: its input's blob with the four trailing
    /// checksum bytes stripped.
    open spec fn blob(&self) -> Option<Seq<u8>> {
        match self.input_handle.blob() {
            Some(raw) => if raw.len() >= 4 {
                Some(raw.subrange(0, raw.len() - 4))
            } else {
                Some(Seq::empty())
            },
            None => None,
        }
    }

    /// The input's answer with the checksum masking applied: a whole-value
    /// read loses its four trailing bytes, and a suffix read loses whatever
    /// part of it lay inside the trailer.
    open spec fn spec_answer(&self, range: ByteRange) -> Seq<u8> {
        crc32c_mask_spec(self.input_handle.spec_answer(range), range)
    }

    proof fn lemma_answer_in_blob(&self, range: ByteRange) {
        let blob = self.blob()->0;
        let raw = self.input_handle.blob()->0;
        assert(blob.len() <= raw.len());
        assert(blob =~= raw.subrange(0, blob.len() as int));
        self.input_handle.lemma_answer_in_blob(range);
        assert(extract_range_spec(raw, range) =~= extract_range_spec(blob, range));
    }

    fn partial_decode(&self, decoded_regions: &Vec<ByteRange>, options: &CodecOptions) -> (r:
        Result<Option<Vec<Vec<u8>>>, CodecError>)
    {
        let inner = self.input_handle.partial_decode(decoded_regions, options);
        let bytes = match inner {
            Ok(Some(v)) => v,
            Ok(None) => {
                return Ok(None);
            },
            Err(e) => {
                return Err(e);
            },
        };
        let n = bytes.len();
        if n != decoded_regions.len() {
            return Err(CodecError::Other(String::new()));
        }
        // Drop the trailing checksum from suffix reads.
        let mut output: Vec<Vec<u8>> = Vec::new();
        let mut i: usize = 0;
        while i < n
            invariant
                i <= n,
                n == bytes@.len() == decoded_regions@.len(),
                self.input_handle.blob() is Some,
                output@.len() == i,
                forall|k: int| 0 <= k < i ==> (#[trigger] output@[k])@ == crc32c_mask_spec(
                    self.input_handle.spec_answer(decoded_regions@[k]),
                    decoded_regions@[k],
                ),
                forall|k: int| 0 <= k < n ==> (#[trigger] bytes@[k])@
                    == self.input_handle.spec_answer(decoded_regions@[k]),
            decreases n - i,
        {
            let range = decoded_regions[i];
            let b = copy_u8_vec(&bytes[i]);
            let ghost bview = b@;
            let masked = match range {
                ByteRange::FromStart(_, Some(_)) => b,
                ByteRange::FromStart(_, None) => {
                    let mut b = b;
                    let keep = if b.len() >= CHECKSUM_SIZE {
                        b.len() - CHECKSUM_SIZE
                    } else {
                        0
                    };
                    b.truncate(keep);
                    b
                },
                ByteRange::FromEnd(offset, _) => {
                    if offset < CHECKSUM_SIZE as u64 {
                        let cut = CHECKSUM_SIZE - offset as usize;
                        let mut b = b;
                        let keep = if b.len() >= cut {
                            b.len() - cut
                        } else {
                            0
                        };
                        b.truncate(keep);
                        b
                    } else {
                        b
                    }
                },
            };
            proof {
                let rg = decoded_regions@[i as int];
                assert(bview == bytes@[i as int]@);
                assert(masked@ =~= crc32c_mask_spec(bview, rg));
            }
            output.push(masked);
            i = i + 1;
        }
        Ok(Some(output))
    }
}


/// The characters of the qualified name of the pcodec codec.
pub open spec fn pcodec_identifier_chars() -> Seq<char> {
    seq!['n', 'u', 'm', 'c', 'o', 'd', 'e', 'c', 's', '.', 'p', 'c', 'o', 'd', 'e', 'c']
}

/// Whether a codec name denotes the pcodec codec, under its qualified
/// identifier or its plain alias. This pipeline does not provide that codec;
/// configuration parsing rejects a pipeline naming it.
pub fn is_name_pcodec(name: &str) -> (r: bool)
    ensures
        r == (name@ == pcodec_identifier_chars() || name@ == seq![
            'p',
            'c',
            'o',
            'd',
            'e',
            'c',
        ]),
{
    proof {
        reveal_strlit("numcodecs.pcodec");
        reveal_strlit("pcodec");
        assert("numcodecs.pcodec"@ =~= pcodec_identifier_chars());
        assert("pcodec"@ =~= seq!['p', 'c', 'o', 'd', 'e', 'c']);
    }
    crate::store_key::str_eq_chars(name, "numcodecs.pcodec") || crate::store_key::str_eq_chars(
        name,
        "pcodec",
    )
}

/// A permutation of the dimension indices, stored with its inverse.
#[derive(Debug)]
pub struct TransposeOrder {
    pub order: Vec<usize>,
    pub inverse: Vec<usize>,
}

/// An invalid permutation order error: the order is not a permutation of the
/// dimension indices.
#[derive(Debug)]
pub struct InvalidPermutationError(pub Vec<usize>);

/// Some entry of `order` is the index `k`.
pub open spec fn order_hits(order: Seq<usize>, k: int) -> bool {
    exists|i: int| 0 <= i < order.len() && (#[trigger] order[i]) == k
}

/// `order` is a permutation of the dimension indices: every entry is an
/// index, no index repeats, and every index occurs.
pub open spec fn is_permutation(order: Seq<usize>, n: nat) -> bool {
    &&& order.len() == n
    &&& forall|i: int| 0 <= i < n ==> (#[trigger] order[i]) < n
    &&& forall|i: int, j: int| 0 <= i < j < n ==> order[i] != order[j]
    &&& forall|k: int| 0 <= k < n ==> #[trigger] order_hits(order, k)
}

/// `order` and `inverse` are mutually inverse permutations of `0 .. n`.
pub open spec fn is_permutation_pair(order: Seq<usize>, inverse: Seq<usize>, n: nat) -> bool {
    &&& order.len() == n
    &&& inverse.len() == n
    &&& forall|i: int| 0 <= i < n ==> (#[trigger] order[i]) < n
    &&& forall|i: int| 0 <= i < n ==> (#[trigger] inverse[i]) < n
    &&& forall|i: int| 0 <= i < n ==> #[trigger] inverse[order[i] as int] == i
    &&& forall|i: int| 0 <= i < n ==> #[trigger] order[inverse[i] as int] == i
}

/// The extents seen through a permutation of the axes.
pub open spec fn permute(v: Seq<u64>, order: Seq<usize>) -> Seq<u64> {
    Seq::new(order.len(), |i: int| v[order[i] as int])
}

impl TransposeOrder {
    pub open spec fn wf(&self) -> bool {
        is_permutation_pair(self.order@, self.inverse@, self.order@.len())
    }

    /// Create a transpose order, rejecting any sequence that is not a
    /// permutation of the dimension indices.
    pub fn new(order: Vec<usize>) -> (r: Result<Self, InvalidPermutationError>)
        ensures
            r is Ok <==> is_permutation(order@, order@.len()),
            r matches Ok(t) ==> t.wf() && t.order@ == order@,
            r matches Err(e) ==> e.0@ == order@,
    {
        let n = order.len();
        let mut inverse: Vec<usize> = Vec::new();
        // the array length marks a slot not yet assigned
        for i in 0..n
            invariant
                inverse@.len() == i,
                forall|k: int| 0 <= k < i ==> inverse@[k] == n,
        {
            inverse.push(n);
        }
        for j in 0..n
            invariant
                n == order@.len(),
                inverse@.len() == n,
                forall|k: int| 0 <= k < n ==> (#[trigger] inverse@[k] == n) || inverse@[k] < j,
                forall|k: int| 0 <= k < n && #[trigger] inverse@[k] != n ==> (inverse@[k] < j
                    && order@[inverse@[k] as int] == k),
                forall|t: int| 0 <= t < j ==> (#[trigger] order@[t]) < n && inverse@[order@[t] as int]
                    == t,
        {
            let v = order[j];
            if v >= n {
                proof {
                    assert(!is_permutation(order@, order@.len())) by {
                        assert(order@[j as int] >= n);
                    }
                }
                return Err(InvalidPermutationError(order));
            }
            if inverse[v] != n {
                proof {
                    // the index already assigned points at an earlier equal entry
                    assert(!is_permutation(order@, order@.len())) by {
                        let prev = inverse@[v as int] as int;
                        assert(order@[prev] == v as usize && prev < j);
                        assert(order@[prev] == order@[j as int]);
                    }
                }
                return Err(InvalidPermutationError(order));
            }
            inverse.set(v, j);
        }
        // every slot must be assigned: the order covers all indices
        for k in 0..n
            invariant
                n == order@.len(),
                inverse@.len() == n,
                forall|t: int| 0 <= t < n ==> (#[trigger] order@[t]) < n && inverse@[order@[t] as int]
                    == t,
                forall|t: int| 0 <= t < n && #[trigger] inverse@[t] != n ==> (inverse@[t] < n
                    && order@[inverse@[t] as int] == t),
                forall|t: int| 0 <= t < k ==> (#[trigger] inverse@[t]) != n,
        {
            if inverse[k] == n {
                proof {
                    // no entry names this index, so the order is not onto
                    assert(!is_permutation(order@, order@.len())) by {
                        if order_hits(order@, k as int) {
                            let i = choose|i: int| 0 <= i < order@.len() && (#[trigger] order@[i])
                                == k as int;
                            assert(inverse@[order@[i] as int] == i);
                        }
                    }
                }
                return Err(InvalidPermutationError(order));
            }
        }
        proof {
            assert forall|t: int| 0 <= t < n implies (#[trigger] inverse@[t]) < n by {
                assert(inverse@[t] != n);
            }
            assert(is_permutation(order@, order@.len())) by {
                assert forall|i: int, j: int| 0 <= i < j < n implies order@[i] != order@[j] by {
                    assert(inverse@[order@[i] as int] == i);
                    assert(inverse@[order@[j] as int] == j);
                }
                assert forall|k: int| 0 <= k < n implies #[trigger] order_hits(order@, k) by {
                    assert(inverse@[k] != n);
                    assert(order@[inverse@[k] as int] == k as usize);
                }
            }
        }
        Ok(TransposeOrder { order, inverse })
    }

    /// The permutation itself.
    pub fn as_slice(&self) -> (r: &Vec<usize>)
        ensures
            r@ == self.order@,
    {
        &self.order
    }
}

impl Clone for TransposeOrder {
    fn clone(&self) -> (r: Self)
        ensures
            r.order@ == self.order@,
            r.inverse@ == self.inverse@,
    {
        let mut order: Vec<usize> = Vec::new();
        let mut inverse: Vec<usize> = Vec::new();
        let n = self.order.len();
        for i in 0..n
            invariant
                n == self.order@.len(),
                order@ =~= self.order@.take(i as int),
        {
            order.push(self.order[i]);
            assert(order@ =~= self.order@.take(i + 1));
        }
        let m = self.inverse.len();
        for i in 0..m
            invariant
                m == self.inverse@.len(),
                inverse@ =~= self.inverse@.take(i as int),
        {
            inverse.push(self.inverse[i]);
            assert(inverse@ =~= self.inverse@.take(i + 1));
        }
        proof {
            assert(order@ =~= self.order@);
            assert(inverse@ =~= self.inverse@);
        }
        TransposeOrder { order, inverse }
    }
}

/// Removing one axis divides the element count by that axis's extent.
pub proof fn lemma_product_remove(s: Seq<u64>, i: int)
    requires
        0 <= i < s.len(),
    ensures
        num_elements(s) == num_elements(s.remove(i)) * (s[i] as nat),
{
    let a = s.take(i);
    let b = s.skip(i + 1);
    assert(s =~= a + (seq![s[i]] + b));
    crate::subset::lemma_num_elements_concat(a, seq![s[i]] + b);
    crate::subset::lemma_num_elements_concat(seq![s[i]], b);
    assert(seq![s[i]].drop_last() =~= Seq::<u64>::empty());
    assert(seq![s[i]].last() == s[i]);
    assert(num_elements(seq![s[i]].drop_last()) == 1);
    assert(num_elements(seq![s[i]]) == num_elements(seq![s[i]].drop_last()) * (s[i] as nat));
    assert(1nat * (s[i] as nat) == (s[i] as nat)) by (nonlinear_arith);
    assert(s.remove(i) =~= a + b);
    crate::subset::lemma_num_elements_concat(a, b);
    assert(num_elements(a) * ((s[i] as nat) * num_elements(b)) == (num_elements(a) * num_elements(
        b,
    )) * (s[i] as nat)) by (nonlinear_arith);
}

/// A permutation of the axes leaves the element count unchanged.
pub proof fn lemma_num_elements_permute(shape: Seq<u64>, order: Seq<usize>, inverse: Seq<usize>)
    requires
        is_permutation_pair(order, inverse, shape.len()),
    ensures
        num_elements(permute(shape, order)) == num_elements(shape),
    decreases shape.len(),
{
    let n = shape.len() as int;
    if n > 0 {
        let p = inverse[n - 1] as int;
        assert(order[p] == n - 1);
        let order2 = order.remove(p);
        let inverse2 = Seq::new((n - 1) as nat, |i: int| if inverse[i] < p { inverse[i] } else { (inverse[i] - 1) as usize });
        assert(is_permutation_pair(order2, inverse2, (n - 1) as nat)) by {
            assert forall|i: int| 0 <= i < n - 1 implies (#[trigger] order2[i]) < n - 1 by {
                if i < p {
                    assert(order2[i] == order[i]);
                    if order[i] as int == n - 1 {
                        assert(inverse[order[i] as int] == i);
                    }
                } else {
                    assert(order2[i] == order[i + 1]);
                    if order[i + 1] as int == n - 1 {
                        assert(inverse[order[i + 1] as int] == i + 1);
                    }
                }
            }
            assert forall|i: int| 0 <= i < n - 1 implies (#[trigger] inverse2[i]) < n - 1 by {
                assert(inverse[i] < n);
                assert(order[inverse[i] as int] == i);
                if inverse[i] as int == p {
                    assert(order[p] == n - 1);
                }
            }
            assert forall|i: int| 0 <= i < n - 1 implies #[trigger] inverse2[order2[i] as int] == i by {
                if i < p {
                    assert(order2[i] == order[i]);
                    assert(inverse[order[i] as int] == i);
                } else {
                    assert(order2[i] == order[i + 1]);
                    assert(inverse[order[i + 1] as int] == i + 1);
                }
            }
            assert forall|i: int| 0 <= i < n - 1 implies #[trigger] order2[inverse2[i] as int] == i by {
                assert(order[inverse[i] as int] == i);
                if inverse[i] < p {
                    assert(order2[inverse2[i] as int] == order[inverse[i] as int]);
                } else {
                    assert(inverse[i] as int != p) by {
                        if inverse[i] as int == p {
                            assert(order[p] == n - 1);
                        }
                    }
                    assert(inverse2[i] == inverse[i] - 1);
                    assert(order2[inverse2[i] as int] == order[inverse[i] as int]);
                }
            }
        }
        assert(permute(shape.drop_last(), order2) =~= permute(shape, order).remove(p)) by {
            assert forall|i: int| 0 <= i < n - 1 implies permute(shape.drop_last(), order2)[i]
                == permute(shape, order).remove(p)[i] by {
                if i < p {
                    assert(order2[i] == order[i]);
                    assert(order[i] as int != n - 1) by {
                        if order[i] as int == n - 1 {
                            assert(inverse[order[i] as int] == i);
                        }
                    }
                } else {
                    assert(order2[i] == order[i + 1]);
                    assert(order[i + 1] as int != n - 1) by {
                        if order[i + 1] as int == n - 1 {
                            assert(inverse[order[i + 1] as int] == i + 1);
                        }
                    }
                }
            }
        }
        lemma_product_remove(permute(shape, order), p);
        lemma_num_elements_permute(shape.drop_last(), order2, inverse2);
        assert(permute(shape, order)[p] == shape[n - 1]);
        assert(num_elements(shape) == num_elements(shape.drop_last()) * (shape.last() as nat));
    } else {
        assert(permute(shape, order) =~= shape);
    }
}

/// The bytes of a chunk seen through a permutation of the axes: byte `b` of
/// the result is the byte of `data` holding the same element, located by
/// mapping the permuted coordinate back through `inverse`.
pub open spec fn transpose_encode_bytes(
    data: Seq<u8>,
    shape: Seq<u64>,
    order: Seq<usize>,
    inverse: Seq<usize>,
    es: nat,
) -> Seq<u8> {
    Seq::new(
        num_elements(permute(shape, order)) * es,
        |b: int|
            {
                let pc = coord_of_b(b, es, permute(shape, order));
                let c = Seq::new(shape.len(), |i: int| pc[inverse[i] as int]);
                data[crate::subset::linear_index(c, shape) * es + b % es as int]
            },
    )
}

/// The inverse of `transpose_encode_bytes`: byte `b` of the result gathers
/// the byte of the permuted layout holding the same element.
pub open spec fn transpose_decode_bytes(
    raw: Seq<u8>,
    shape: Seq<u64>,
    order: Seq<usize>,
    es: nat,
) -> Seq<u8> {
    Seq::new(
        num_elements(shape) * es,
        |b: int|
            {
                let c = coord_of_b(b, es, shape);
                let pc = Seq::new(order.len(), |i: int| c[order[i] as int]);
                raw[crate::subset::linear_index(pc, permute(shape, order)) * es + b % es as int]
            },
    )
}

/// The coordinate of the element holding byte `b`.
pub open spec fn coord_of_b(b: int, es: nat, shape: Seq<u64>) -> Seq<u64> {
    crate::subset::coord_of(b / es as int, shape)
}

/// Gather the bytes of a chunk laid out by `src_shape` into the layout
/// `dst_shape`, where destination coordinate `c` reads source coordinate
/// `i ↦ c[axis_map[i]]`.
#[verifier::loop_isolation(false)]
fn gather_permuted(
    data: &Vec<u8>,
    src_shape: &Vec<u64>,
    dst_shape: &Vec<u64>,
    axis_map: &Vec<usize>,
    es: usize,
) -> (r: Vec<u8>)
    requires
        src_shape@.len() == dst_shape@.len(),
        axis_map@.len() == src_shape@.len(),
        forall|i: int| 0 <= i < axis_map@.len() ==> (#[trigger] axis_map@[i]) < dst_shape@.len(),
        forall|i: int| 0 <= i < axis_map@.len() ==> src_shape@[i] == dst_shape@[axis_map@[i] as int],
        num_elements(dst_shape@) == num_elements(src_shape@),
        1 <= es,
        data@.len() == num_elements(src_shape@) * es,
        data@.len() <= usize::MAX,
    ensures
        r@.len() == num_elements(dst_shape@) * es,
        forall|b: int| 0 <= b < r@.len() ==> r@[b] == data@[crate::subset::linear_index(
            Seq::new(src_shape@.len(), |i: int| coord_of_b(b, es as nat, dst_shape@)[axis_map@[i] as int]),
            src_shape@,
        ) * es + b % es as int],
{
    let ghost gsrc = src_shape@;
    let ghost gdst = dst_shape@;
    let n = src_shape.len();
    let mut out: Vec<u8> = Vec::new();
    if data.len() == 0 {
        proof {
            assert(num_elements(gdst) * es == 0);
        }
        return out;
    }
    proof {
        assert(num_elements(gsrc) >= 1) by (nonlinear_arith)
            requires
                num_elements(gsrc) * es >= 1,
                es >= 1,
        ;
        assert(num_elements(gsrc) <= num_elements(gsrc) * es) by (nonlinear_arith)
            requires
                es >= 1,
        ;
    }
    let ne = crate::subset::product_u64(dst_shape) as usize;
    proof {
        assert(0int * es as int == 0) by (nonlinear_arith);
        assert(out@.len() == 0);
    }
    for e in 0..ne
        invariant
            out@.len() == e * es,
            forall|b: int| 0 <= b < out@.len() ==> out@[b] == data@[crate::subset::linear_index(
                Seq::new(gsrc.len(), |i: int| coord_of_b(b, es as nat, gdst)[axis_map@[i] as int]),
                gsrc,
            ) * es + b % es as int],
    {
        let pc = crate::subset::coord_from_linear(e as u64, dst_shape);
        let mut c: Vec<u64> = Vec::new();
        for i in 0..n
            invariant
                pc@ == crate::subset::coord_of(e as int, gdst),
                crate::subset::valid_coord(pc@, gdst),
                c@ =~= Seq::new(i as nat, |k: int| pc@[axis_map@[k] as int]),
        {
            c.push(pc[axis_map[i]]);
            assert(c@ =~= Seq::new((i + 1) as nat, |k: int| pc@[axis_map@[k] as int]));
        }
        proof {
            assert(crate::subset::valid_coord(c@, gsrc)) by {
                assert forall|i: int| 0 <= i < n implies #[trigger] c@[i] < gsrc[i] by {
                    assert(pc@[axis_map@[i] as int] < gdst[axis_map@[i] as int]);
                }
            }
        }
        let src = crate::subset::linear_index_u64(&c, src_shape) as usize;
        proof {
            assert(src as int * es + es <= num_elements(gsrc) * es) by (nonlinear_arith)
                requires
                    (src as int) < num_elements(gsrc),
                    0 <= src as int,
                    1 <= es,
            ;
        }
        for o in 0..es
            invariant
                out@.len() == e * es + o,
                src as int == crate::subset::linear_index(c@, gsrc),
                src as int * es + es <= data@.len(),
                forall|b: int| 0 <= b < out@.len() ==> out@[b] == data@[crate::subset::linear_index(
                    Seq::new(gsrc.len(), |i: int| coord_of_b(b, es as nat, gdst)[axis_map@[i] as int]),
                    gsrc,
                ) * es + b % es as int],
        {
            let ghost bb = e * es + o;
            out.push(data[src * es + o]);
            proof {
                vstd::arithmetic::div_mod::lemma_fundamental_div_mod_converse(
                    bb as int,
                    es as int,
                    e as int,
                    o as int,
                );
                assert(coord_of_b(bb as int, es as nat, gdst) == pc@);
                assert(Seq::new(gsrc.len(), |i: int| coord_of_b(bb as int, es as nat, gdst)[axis_map@[i] as int])
                    =~= c@);
            }
        }
        proof {
            assert(e * es + es == (e + 1) * es) by (nonlinear_arith);
        }
    }
    proof {
        assert(ne * es == num_elements(gdst) * es);
    }
    out
}

/// The extents seen through a permutation, as a vector.
pub fn permute_shape(shape: &Vec<u64>, order: &Vec<usize>) -> (r: Vec<u64>)
    requires
        forall|i: int| 0 <= i < order@.len() ==> (#[trigger] order@[i]) < shape@.len(),
    ensures
        r@ == permute(shape@, order@),
{
    let n = order.len();
    let mut r: Vec<u64> = Vec::new();
    for i in 0..n
        invariant
            n == order@.len(),
            forall|k: int| 0 <= k < n ==> (#[trigger] order@[k]) < shape@.len(),
            r@ =~= permute(shape@, order@).take(i as int),
    {
        r.push(shape[order[i]]);
        assert(r@ =~= permute(shape@, order@).take(i + 1));
    }
    assert(r@ =~= permute(shape@, order@));
    r
}

/// How a codec may be created from configuration.
#[derive(Debug)]
pub enum PluginCreateError {
    /// The configuration is not valid for the codec.
    Other(String),
}

/// Configuration for the transpose codec, by configuration version.
#[derive(Debug)]
pub enum TransposeCodecConfiguration {
    V1(TransposeCodecConfigurationV1),
}

/// Version 1 configuration of the transpose codec: the permutation order.
#[derive(Debug)]
pub struct TransposeCodecConfigurationV1 {
    pub order: TransposeOrder,
}

/// The transpose codec: permutes the dimensions of a chunk.
#[derive(Debug)]
pub struct TransposeCodec {
    pub order: TransposeOrder,
}

impl TransposeCodec {
    /// Create a transpose codec from configuration.
    pub fn new_with_configuration(configuration: &TransposeCodecConfiguration) -> (r: Result<
        Self,
        PluginCreateError,
    >)
        ensures
            r matches Ok(c) ==> (configuration matches TransposeCodecConfiguration::V1(v)
                && c.order.order@ == v.order.order@ && c.order.inverse@ == v.order.inverse@),
            r is Ok,
    {
        let TransposeCodecConfiguration::V1(configuration) = configuration;
        Ok(Self::new(configuration.order.clone()))
    }

    /// Create a transpose codec.
    pub fn new(order: TransposeOrder) -> (r: Self)
        ensures
            r.order == order,
    {
        Self { order }
    }

    /// Whether a partial decoder for this codec wants its input cached.
    pub fn partial_decoder_should_cache_input(&self) -> (r: bool)
        ensures
            r == false,
    {
        false
    }

    /// Whether this codec's partial decoder decodes everything regardless of
    /// the regions requested.
    pub fn partial_decoder_decodes_all(&self) -> (r: bool)
        ensures
            r == false,
    {
        false
    }

    /// The representation seen by the next codec: the extents permuted.
    pub fn compute_encoded_size(&self, decoded_representation: &ChunkRepresentation) -> (r: Result<
        ChunkRepresentation,
        CodecError,
    >)
        requires
            decoded_representation.wf(),
            self.order.wf(),
            self.order.order@.len() == decoded_representation.shape@.len(),
        ensures
            r matches Ok(c) ==> c.wf() && c.shape@ == permute(
                decoded_representation.shape@,
                self.order.order@,
            ) && c.data_type == decoded_representation.data_type && c.fill_value.0@
                == decoded_representation.fill_value.0@,
            r is Ok,
    {
        let transposed_shape = permute_shape(&decoded_representation.shape, &self.order.order);
        proof {
            lemma_num_elements_permute(
                decoded_representation.shape@,
                self.order.order@,
                self.order.inverse@,
            );
            assert(crate::subset::all_positive(permute(
                decoded_representation.shape@,
                self.order.order@,
            ))) by {
                assert forall|i: int|
                    0 <= i < self.order.order@.len() implies 1 <= #[trigger] permute(
                    decoded_representation.shape@,
                    self.order.order@,
                )[i] by {
                    assert(1 <= decoded_representation.shape@[self.order.order@[i] as int]);
                }
            }
        }
        Ok(
            ChunkRepresentation {
                shape: transposed_shape,
                data_type: decoded_representation.data_type,
                fill_value: decoded_representation.fill_value.clone(),
            },
        )
    }

    /// Transposing gains nothing from internal parallelism.
    pub fn recommended_concurrency(&self, _rep: &ChunkRepresentation) -> (r: RecommendedConcurrency)
        ensures
            r == (RecommendedConcurrency { min: 1usize, max: 1usize }),
    {
        RecommendedConcurrency::new_maximum(1)
    }

    /// Reorder a chunk's bytes into the permuted layout.
    pub fn encode(
        &self,
        decoded_value: Vec<u8>,
        decoded_representation: &ChunkRepresentation,
        _options: &CodecOptions,
    ) -> (r: Result<Vec<u8>, CodecError>)
        requires
            decoded_representation.wf(),
            self.order.wf(),
            self.order.order@.len() == decoded_representation.shape@.len(),
        ensures
            r matches Ok(v) ==> v@ == transpose_encode_bytes(
                decoded_value@,
                decoded_representation.shape@,
                self.order.order@,
                self.order.inverse@,
                decoded_representation.spec_element_size(),
            ) && decoded_value@.len() == decoded_representation.spec_size_bytes(),
            r is Ok <==> decoded_value@.len() == decoded_representation.spec_size_bytes(),
            r matches Err(e) ==> (e matches CodecError::UnexpectedChunkDecodedSize(g, x) && g
                == decoded_value@.len() && x == decoded_representation.spec_size_bytes()),
    {
        if decoded_value.len() != decoded_representation.size_bytes() {
            return Err(
                CodecError::UnexpectedChunkDecodedSize(
                    decoded_value.len(),
                    decoded_representation.size_bytes() as u64,
                ),
            );
        }
        let shape = &decoded_representation.shape;
        let es = decoded_representation.element_size();
        let pshape = permute_shape(shape, &self.order.order);
        proof {
            lemma_num_elements_permute(shape@, self.order.order@, self.order.inverse@);
            assert forall|i: int| 0 <= i < self.order.inverse@.len() implies shape@[i]
                == permute(shape@, self.order.order@)[self.order.inverse@[i] as int] by {
                assert(self.order.order@[self.order.inverse@[i] as int] == i);
            }
        }
        let out = gather_permuted(&decoded_value, shape, &pshape, &self.order.inverse, es);
        proof {
            assert(out@ =~= transpose_encode_bytes(
                decoded_value@,
                shape@,
                self.order.order@,
                self.order.inverse@,
                es as nat,
            ));
        }
        Ok(out)
    }

    /// Reorder permuted bytes back into the chunk's layout.
    pub fn decode(
        &self,
        encoded_value: Vec<u8>,
        decoded_representation: &ChunkRepresentation,
        _options: &CodecOptions,
    ) -> (r: Result<Vec<u8>, CodecError>)
        requires
            decoded_representation.wf(),
            self.order.wf(),
            self.order.order@.len() == decoded_representation.shape@.len(),
        ensures
            r matches Ok(v) ==> v@ == transpose_decode_bytes(
                encoded_value@,
                decoded_representation.shape@,
                self.order.order@,
                decoded_representation.spec_element_size(),
            ) && encoded_value@.len() == decoded_representation.spec_size_bytes(),
            r is Ok <==> encoded_value@.len() == decoded_representation.spec_size_bytes(),
            r matches Err(e) ==> (e matches CodecError::UnexpectedChunkDecodedSize(g, x) && g
                == encoded_value@.len() && x == decoded_representation.spec_size_bytes()),
    {
        if encoded_value.len() != decoded_representation.size_bytes() {
            return Err(
                CodecError::UnexpectedChunkDecodedSize(
                    encoded_value.len(),
                    decoded_representation.size_bytes() as u64,
                ),
            );
        }
        let shape = &decoded_representation.shape;
        let es = decoded_representation.element_size();
        let pshape = permute_shape(shape, &self.order.order);
        proof {
            lemma_num_elements_permute(shape@, self.order.order@, self.order.inverse@);
        }
        let out = gather_permuted(&encoded_value, &pshape, shape, &self.order.order, es);
        proof {
            assert(out@ =~= transpose_decode_bytes(
                encoded_value@,
                shape@,
                self.order.order@,
                es as nat,
            ));
        }
        Ok(out)
    }
}

impl Clone for TransposeCodec {
    fn clone(&self) -> (r: Self)
        ensures
            r.order.order@ == self.order.order@,
            r.order.inverse@ == self.order.inverse@,
    {
        TransposeCodec { order: self.order.clone() }
    }
}

} // verus!
