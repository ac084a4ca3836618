//! The codec pipeline as an ordered composition: array-to-array codecs, one
//! array-to-bytes codec, then bytes-to-bytes codecs, with whole-chunk encode
//! and decode and the round-trip law.

use crate::codec::{
    bytes_decode_spec, crc32c_decode_spec, crc32c_encode_spec, crc32c_of, permute,
    transpose_decode_bytes, transpose_encode_bytes, u32_le_bytes, BytesCodec, ChunkRepresentation,
    CodecError, Crc32cCodec, TransposeCodec,
};
use crate::concurrency::{CodecOptions, RecommendedConcurrency};
use crate::subset::num_elements;
use vstd::prelude::*;

verus! {

broadcast use vstd::arithmetic::mul::lemma_mul_is_commutative;

/// A codec mapping chunk bytes to chunk bytes under a known shape.
#[derive(Debug)]
pub enum ArrayToArrayCodec {
    Transpose(TransposeCodec),
}

/// A codec mapping opaque byte blobs to opaque byte blobs.
#[derive(Debug)]
pub enum BytesToBytesCodec {
    Crc32c(Crc32cCodec),
}

impl ArrayToArrayCodec {
    /// The codec's configuration suits a chunk of `dim` dimensions.
    pub open spec fn wf(&self, dim: nat) -> bool {
        match *self {
            ArrayToArrayCodec::Transpose(t) => t.order.wf() && t.order.order@.len() == dim,
        }
    }

    /// The shape the next codec sees.
    pub open spec fn spec_shape_step(&self, shape: Seq<u64>) -> Seq<u64> {
        match *self {
            ArrayToArrayCodec::Transpose(t) => permute(shape, t.order.order@),
        }
    }

    /// What encoding one chunk through this codec yields.
    pub open spec fn spec_encode_step(&self, data: Seq<u8>, shape: Seq<u64>, es: nat) -> Seq<u8> {
        match *self {
            ArrayToArrayCodec::Transpose(t) => transpose_encode_bytes(
                data,
                shape,
                t.order.order@,
                t.order.inverse@,
                es,
            ),
        }
    }

    /// What decoding one chunk through this codec yields.
    pub open spec fn spec_decode_step(&self, raw: Seq<u8>, shape: Seq<u64>, es: nat) -> Seq<u8> {
        match *self {
            ArrayToArrayCodec::Transpose(t) => transpose_decode_bytes(
                raw,
                shape,
                t.order.order@,
                es,
            ),
        }
    }
}

/// What the array-to-array codecs `codecs` make of chunk bytes `data` of
/// extents `shape`, applied in order.
pub open spec fn aa_encode_seq(
    codecs: Seq<ArrayToArrayCodec>,
    data: Seq<u8>,
    shape: Seq<u64>,
    es: nat,
) -> Seq<u8>
    decreases codecs.len(),
{
    if codecs.len() == 0 {
        data
    } else {
        aa_encode_seq(
            codecs.skip(1),
            codecs[0].spec_encode_step(data, shape, es),
            codecs[0].spec_shape_step(shape),
            es,
        )
    }
}

/// The inverse of `aa_encode_seq`: undo the codecs from the last back to the
/// first.
pub open spec fn aa_decode_seq(
    codecs: Seq<ArrayToArrayCodec>,
    raw: Seq<u8>,
    shape: Seq<u64>,
    es: nat,
) -> Seq<u8>
    decreases codecs.len(),
{
    if codecs.len() == 0 {
        raw
    } else {
        codecs[0].spec_decode_step(
            aa_decode_seq(codecs.skip(1), raw, codecs[0].spec_shape_step(shape), es),
            shape,
            es,
        )
    }
}

/// What the bytes-to-bytes codecs make of a blob, applied in order.
pub open spec fn bb_encode_seq(codecs: Seq<BytesToBytesCodec>, data: Seq<u8>) -> Seq<u8>
    decreases codecs.len(),
{
    if codecs.len() == 0 {
        data
    } else {
        match codecs[0] {
            BytesToBytesCodec::Crc32c(_) => bb_encode_seq(codecs.skip(1), data) + u32_le_bytes(
                crc32c_of(bb_encode_seq(codecs.skip(1), data)),
            ),
        }
    }
}

/// The inverse of `bb_encode_seq`: unwrap the codecs from the first (which
/// sits outermost in this orientation) back through the rest.
pub open spec fn bb_decode_seq(
    codecs: Seq<BytesToBytesCodec>,
    raw: Seq<u8>,
    validate: bool,
) -> Option<Seq<u8>>
    decreases codecs.len(),
{
    if codecs.len() == 0 {
        Some(raw)
    } else {
        match codecs[0] {
            BytesToBytesCodec::Crc32c(_) => match crc32c_decode_spec(raw, validate) {
                Some(mid) => bb_decode_seq(codecs.skip(1), mid, validate),
                None => None,
            },
        }
    }
}

/// An ordered codec pipeline: zero or more array-to-array codecs, exactly
/// one array-to-bytes codec, and zero or more bytes-to-bytes codecs, each
/// list in the order the codecs apply on encode.
#[derive(Debug)]
pub struct CodecChain {
    pub array_to_array: Vec<ArrayToArrayCodec>,
    pub array_to_bytes: BytesCodec,
    pub bytes_to_bytes: Vec<BytesToBytesCodec>,
}

/// What encoding one chunk through the whole pipeline yields.
pub open spec fn chain_encode_spec(
    chain: &CodecChain,
    data: Seq<u8>,
    shape: Seq<u64>,
    es: nat,
) -> Seq<u8> {
    bb_encode_seq(
        chain.bytes_to_bytes@.reverse(),
        aa_encode_seq(chain.array_to_array@, data, shape, es),
    )
}

/// What decoding one stored blob through the whole pipeline yields: nothing
/// when a trailer is missing, a checksum fails (with `validate`), or the
/// unwrapped payload does not have the chunk's exact byte size.
pub open spec fn chain_decode_spec(
    chain: &CodecChain,
    raw: Seq<u8>,
    shape: Seq<u64>,
    es: nat,
    validate: bool,
) -> Option<Seq<u8>> {
    match bb_decode_seq(chain.bytes_to_bytes@.reverse(), raw, validate) {
        Some(mid) => match bytes_decode_spec(mid, num_elements(shape) * es) {
            Some(x) => Some(aa_decode_seq(chain.array_to_array@, x, shape, es)),
            None => None,
        },
        None => None,
    }
}

impl CodecChain {
    /// Every array-to-array codec suits chunks of `dim` dimensions.
    pub open spec fn wf(&self, dim: nat) -> bool {
        forall|i: int| 0 <= i < self.array_to_array@.len() ==> (#[trigger] self.array_to_array@[i]).wf(dim)
    }

    /// Create a pipeline from its three codec classes.
    pub fn new(
        array_to_array: Vec<ArrayToArrayCodec>,
        array_to_bytes: BytesCodec,
        bytes_to_bytes: Vec<BytesToBytesCodec>,
    ) -> (r: Self)
        ensures
            r.array_to_array@ == array_to_array@,
            r.array_to_bytes == array_to_bytes,
            r.bytes_to_bytes@ == bytes_to_bytes@,
    {
        CodecChain { array_to_array, array_to_bytes, bytes_to_bytes }
    }

    /// The codecs' joint recommendation for internal parallelism. All the
    /// codecs of this pipeline work sequentially, so the window is one.
    pub fn recommended_concurrency(&self, _rep: &ChunkRepresentation) -> (r: RecommendedConcurrency)
        ensures
            r == (RecommendedConcurrency { min: 1usize, max: 1usize }),
    {
        RecommendedConcurrency::new_maximum(1)
    }

    /// Encode one chunk: array-to-array codecs in order, then the
    /// array-to-bytes codec, then bytes-to-bytes codecs in order.
    pub fn encode(&self, data: Vec<u8>, rep: &ChunkRepresentation, options: &CodecOptions) -> (r:
        Result<Vec<u8>, CodecError>)
        requires
            rep.wf(),
            self.wf(rep.shape@.len()),
            rep.spec_size_bytes() + 4 * self.bytes_to_bytes@.len() <= usize::MAX,
        ensures
            r matches Ok(v) ==> v@ == chain_encode_spec(
                self,
                data@,
                rep.shape@,
                rep.spec_element_size(),
            ) && data@.len() == rep.spec_size_bytes(),
            r is Ok <==> data@.len() == rep.spec_size_bytes(),
    {
        if data.len() != rep.size_bytes() {
            return Err(CodecError::UnexpectedChunkDecodedSize(data.len(), rep.size_bytes() as u64));
        }
        let rep0 = rep.clone();
        let ghost d0 = data@;
        let mid = match aa_encode_from(&self.array_to_array, 0, data, rep0, options) {
            Ok(v) => v,
            Err(e) => {
                return Err(e);
            },
        };
        proof {
            assert(self.array_to_array@.skip(0) =~= self.array_to_array@);
            lemma_aa_encode_len(self.array_to_array@, d0, rep.shape@, rep.spec_element_size());
        }
        let out = match bb_encode_down(&self.bytes_to_bytes, self.bytes_to_bytes.len(), mid, options) {
            Ok(v) => v,
            Err(e) => {
                return Err(e);
            },
        };
        proof {
            assert(self.bytes_to_bytes@.take(self.bytes_to_bytes@.len() as int)
                =~= self.bytes_to_bytes@);
        }
        Ok(out)
    }

    /// Decode one stored blob: bytes-to-bytes codecs unwrapped from the
    /// outermost, then the array-to-bytes codec, then array-to-array codecs
    /// undone in reverse.
    pub fn decode(&self, raw: Vec<u8>, rep: &ChunkRepresentation, options: &CodecOptions) -> (r:
        Result<Vec<u8>, CodecError>)
        requires
            rep.wf(),
            self.wf(rep.shape@.len()),
        ensures
            r matches Ok(v) ==> chain_decode_spec(
                self,
                raw@,
                rep.shape@,
                rep.spec_element_size(),
                options.validate_checksums,
            ) matches Some(p) && v@ == p,
            r is Ok <==> chain_decode_spec(
                self,
                raw@,
                rep.shape@,
                rep.spec_element_size(),
                options.validate_checksums,
            ) is Some,
            bb_decode_seq(self.bytes_to_bytes@.reverse(), raw@, options.validate_checksums)
                is None ==> (r matches Err(e) && e is InvalidChecksum),
            (bb_decode_seq(self.bytes_to_bytes@.reverse(), raw@, options.validate_checksums)
                matches Some(mid) && mid.len() != rep.spec_size_bytes()) ==> (r matches Err(e)
                && e matches CodecError::UnexpectedChunkDecodedSize(g, x) && g == bb_decode_seq(
                self.bytes_to_bytes@.reverse(),
                raw@,
                options.validate_checksums,
            )->0.len() && x == rep.spec_size_bytes()),
    {
        let mid = match bb_decode_up(&self.bytes_to_bytes, 0, raw, options) {
            Ok(v) => v,
            Err(e) => {
                proof {
                    assert(self.bytes_to_bytes@.take(self.bytes_to_bytes@.len() as int)
                        =~= self.bytes_to_bytes@);
                }
                return Err(e);
            },
        };
        proof {
            assert(self.bytes_to_bytes@.take(self.bytes_to_bytes@.len() as int)
                =~= self.bytes_to_bytes@);
        }
        let x = match self.array_to_bytes.decode(mid, rep, options) {
            Ok(v) => v,
            Err(e) => {
                return Err(e);
            },
        };
        let rep0 = rep.clone();
        let out = match aa_decode_from(&self.array_to_array, 0, x, rep0, options) {
            Ok(v) => v,
            Err(e) => {
                return Err(e);
            },
        };
        proof {
            assert(self.array_to_array@.skip(0) =~= self.array_to_array@);
        }
        Ok(out)
    }
}

/// Apply the array-to-array codecs from position `i` on, in order.
fn aa_encode_from(
    codecs: &Vec<ArrayToArrayCodec>,
    i: usize,
    data: Vec<u8>,
    rep: ChunkRepresentation,
    options: &CodecOptions,
) -> (r: Result<Vec<u8>, CodecError>)
    requires
        i <= codecs@.len(),
        rep.wf(),
        forall|k: int| i <= k < codecs@.len() ==> (#[trigger] codecs@[k]).wf(rep.shape@.len()),
        data@.len() == rep.spec_size_bytes(),
    ensures
        r matches Ok(v) ==> v@ == aa_encode_seq(
            codecs@.skip(i as int),
            data@,
            rep.shape@,
            rep.spec_element_size(),
        ),
        r is Ok,
    decreases codecs@.len() - i,
{
    if i == codecs.len() {
        proof {
            assert(codecs@.skip(i as int).len() == 0);
        }
        return Ok(data);
    }
    let c = &codecs[i];
    match c {
        ArrayToArrayCodec::Transpose(t) => {
            let step = match t.encode(data, &rep, options) {
                Ok(v) => v,
                Err(e) => {
                    return Err(e);
                },
            };
            let rep2 = match t.compute_encoded_size(&rep) {
                Ok(v) => v,
                Err(e) => {
                    return Err(e);
                },
            };
            proof {
                crate::codec::lemma_num_elements_permute(rep.shape@, t.order.order@, t.order.inverse@);
                assert(step@.len() == rep2.spec_size_bytes()) by {
                    assert(step@.len() == num_elements(permute(rep.shape@, t.order.order@))
                        * rep.spec_element_size());
                }
                assert forall|k: int| i + 1 <= k < codecs@.len() implies (#[trigger] codecs@[k]).wf(
                    rep2.shape@.len(),
                ) by {
                    assert(codecs@[k].wf(rep.shape@.len()));
                }
            }
            let out = match aa_encode_from(codecs, i + 1, step, rep2, options) {
                Ok(v) => v,
                Err(e) => {
                    return Err(e);
                },
            };
            proof {
                assert(codecs@.skip(i as int)[0] == codecs@[i as int]);
                assert(codecs@.skip(i as int).skip(1) =~= codecs@.skip(i + 1));
            }
            Ok(out)
        },
    }
}

/// Undo the array-to-array codecs from position `i` on: the later codecs
/// are undone first.
pub(crate) fn aa_decode_from(
    codecs: &Vec<ArrayToArrayCodec>,
    i: usize,
    raw: Vec<u8>,
    rep: ChunkRepresentation,
    options: &CodecOptions,
) -> (r: Result<Vec<u8>, CodecError>)
    requires
        i <= codecs@.len(),
        rep.wf(),
        forall|k: int| i <= k < codecs@.len() ==> (#[trigger] codecs@[k]).wf(rep.shape@.len()),
        raw@.len() == rep.spec_size_bytes(),
    ensures
        r matches Ok(v) ==> v@ == aa_decode_seq(
            codecs@.skip(i as int),
            raw@,
            rep.shape@,
            rep.spec_element_size(),
        ),
        r is Ok,
    decreases codecs@.len() - i,
{
    if i == codecs.len() {
        proof {
            assert(codecs@.skip(i as int).len() == 0);
        }
        return Ok(raw);
    }
    let c = &codecs[i];
    match c {
        ArrayToArrayCodec::Transpose(t) => {
            let rep2 = match t.compute_encoded_size(&rep) {
                Ok(v) => v,
                Err(e) => {
                    return Err(e);
                },
            };
            proof {
                crate::codec::lemma_num_elements_permute(rep.shape@, t.order.order@, t.order.inverse@);
                assert forall|k: int| i + 1 <= k < codecs@.len() implies (#[trigger] codecs@[k]).wf(
                    rep2.shape@.len(),
                ) by {
                    assert(codecs@[k].wf(rep.shape@.len()));
                }
            }
            let inner = match aa_decode_from(codecs, i + 1, raw, rep2, options) {
                Ok(v) => v,
                Err(e) => {
                    return Err(e);
                },
            };
            proof {
                crate::codec::lemma_num_elements_permute(rep.shape@, t.order.order@, t.order.inverse@);
            }
            let out = match t.decode(inner, &rep, options) {
                Ok(v) => v,
                Err(e) => {
                    return Err(e);
                },
            };
            proof {
                assert(codecs@.skip(i as int)[0] == codecs@[i as int]);
                assert(codecs@.skip(i as int).skip(1) =~= codecs@.skip(i + 1));
            }
            Ok(out)
        },
    }
}

/// Apply the bytes-to-bytes codecs with indices below `upto`, innermost
/// (highest index) first.
fn bb_encode_down(
    codecs: &Vec<BytesToBytesCodec>,
    upto: usize,
    data: Vec<u8>,
    options: &CodecOptions,
) -> (r: Result<Vec<u8>, CodecError>)
    requires
        upto <= codecs@.len(),
        data@.len() + 4 * upto <= usize::MAX,
    ensures
        r matches Ok(v) ==> v@ == bb_encode_seq(codecs@.take(upto as int).reverse(), data@),
        r is Ok,
    decreases upto,
{
    if upto == 0 {
        proof {
            assert(codecs@.take(0int).reverse().len() == 0);
        }
        return Ok(data);
    }
    let c = &codecs[upto - 1];
    match c {
        BytesToBytesCodec::Crc32c(cc) => {
            let inner = match bb_encode_down(codecs, upto - 1, data, options) {
                Ok(v) => v,
                Err(e) => {
                    return Err(e);
                },
            };
            proof {
                lemma_bb_encode_len(codecs@.take(upto - 1).reverse(), data@);
            }
            let out = match cc.encode(inner, options) {
                Ok(v) => v,
                Err(e) => {
                    return Err(e);
                },
            };
            proof {
                let full = codecs@.take(upto as int).reverse();
                assert(full[0] == codecs@[upto - 1]);
                assert(full.skip(1) =~= codecs@.take(upto - 1).reverse());
            }
            Ok(out)
        },
    }
}

/// Unwrap the bytes-to-bytes codecs from position `i` on: position `i` sits
/// outermost on the wire among those remaining. `i` counts from the end of
/// the list, so the codec unwrapped first is the one applied last on encode.
fn bb_decode_up(
    codecs: &Vec<BytesToBytesCodec>,
    i: usize,
    raw: Vec<u8>,
    options: &CodecOptions,
) -> (r: Result<Vec<u8>, CodecError>)
    requires
        i <= codecs@.len(),
    ensures
        r matches Ok(v) ==> bb_decode_seq(
            codecs@.take(codecs@.len() - i).reverse(),
            raw@,
            options.validate_checksums,
        ) matches Some(p) && v@ == p,
        r is Ok <==> bb_decode_seq(
            codecs@.take(codecs@.len() - i).reverse(),
            raw@,
            options.validate_checksums,
        ) is Some,
        r matches Err(e) ==> e is InvalidChecksum,
    decreases codecs@.len() - i,
{
    let n = codecs.len();
    if i == n {
        proof {
            assert(codecs@.take(0int).reverse().len() == 0);
        }
        return Ok(raw);
    }
    let c = &codecs[n - 1 - i];
    match c {
        BytesToBytesCodec::Crc32c(cc) => {
            let ghost full = codecs@.take(codecs@.len() - i).reverse();
            proof {
                assert(full[0] == codecs@[codecs@.len() - 1 - i]);
                assert(full.skip(1) =~= codecs@.take(codecs@.len() - (i + 1)).reverse());
            }
            let mid = match cc.decode(raw, options) {
                Ok(v) => v,
                Err(e) => {
                    return Err(e);
                },
            };
            bb_decode_up(codecs, i + 1, mid, options)
        },
    }
}

/// Each bytes-to-bytes codec grows a blob by its trailer: four bytes here.
pub proof fn lemma_bb_encode_len(codecs: Seq<BytesToBytesCodec>, data: Seq<u8>)
    ensures
        bb_encode_seq(codecs, data).len() == data.len() + 4 * codecs.len(),
    decreases codecs.len(),
{
    if codecs.len() > 0 {
        lemma_bb_encode_len(codecs.skip(1), data);
    }
}

/// Stripping a trailer just written recovers the blob, whether or not the
/// checksum is verified.
pub proof fn lemma_crc32c_roundtrip(data: Seq<u8>, validate: bool)
    ensures
        crc32c_decode_spec(crc32c_encode_spec(data), validate) == Some(data),
{
    let enc = crc32c_encode_spec(data);
    assert(enc.len() == data.len() + 4);
    assert(enc.subrange(0, enc.len() - 4) =~= data);
    assert(enc.subrange(enc.len() - 4, enc.len() as int) =~= u32_le_bytes(crc32c_of(data)));
}

/// Unwrapping what the bytes-to-bytes codecs wrapped recovers the blob.
pub proof fn lemma_bb_roundtrip(codecs: Seq<BytesToBytesCodec>, data: Seq<u8>, validate: bool)
    ensures
        bb_decode_seq(codecs, bb_encode_seq(codecs, data), validate) == Some(data),
    decreases codecs.len(),
{
    if codecs.len() > 0 {
        match codecs[0] {
            BytesToBytesCodec::Crc32c(_) => {
                lemma_crc32c_roundtrip(bb_encode_seq(codecs.skip(1), data), validate);
                lemma_bb_roundtrip(codecs.skip(1), data, validate);
            },
        }
    }
}

/// Undoing a transpose recovers the chunk bytes.
pub proof fn lemma_transpose_roundtrip(
    data: Seq<u8>,
    shape: Seq<u64>,
    order: Seq<usize>,
    inverse: Seq<usize>,
    es: nat,
)
    requires
        crate::codec::is_permutation_pair(order, inverse, shape.len()),
        1 <= es,
        data.len() == num_elements(shape) * es,
    ensures
        transpose_decode_bytes(transpose_encode_bytes(data, shape, order, inverse, es), shape, order, es)
            == data,
{
    let pshape = permute(shape, order);
    let enc = transpose_encode_bytes(data, shape, order, inverse, es);
    let dec = transpose_decode_bytes(enc, shape, order, es);
    crate::codec::lemma_num_elements_permute(shape, order, inverse);
    assert forall|b: int| 0 <= b < data.len() implies dec[b] == data[b] by {
        vstd::arithmetic::div_mod::lemma_fundamental_div_mod(b, es as int);
        let e = b / es as int;
        let o = b % es as int;
        assert(0 <= e < num_elements(shape)) by (nonlinear_arith)
            requires
                b == e * es + o,
                0 <= o < es,
                0 <= b,
                b < num_elements(shape) * es,
                1 <= es,
        ;
        crate::subset::lemma_coord_of_roundtrip(e, shape);
        let c = crate::subset::coord_of(e, shape);
        let pc = Seq::new(order.len(), |i: int| c[order[i] as int]);
        assert(crate::subset::valid_coord(pc, pshape)) by {
            assert forall|i: int| 0 <= i < pc.len() implies #[trigger] pc[i] < pshape[i] by {
                assert(c[order[i] as int] < shape[order[i] as int]);
            }
        }
        crate::subset::lemma_linear_index_bounds(pc, pshape);
        let li = crate::subset::linear_index(pc, pshape);
        let bp = li * es + o;
        vstd::arithmetic::div_mod::lemma_fundamental_div_mod_converse(bp, es as int, li, o);
        assert(0 <= bp < num_elements(pshape) * es) by (nonlinear_arith)
            requires
                bp == li * es + o,
                0 <= o < es,
                0 <= li,
                li < num_elements(pshape),
        ;
        assert(dec[b] == enc[bp]);
        crate::subset::lemma_linear_coord_roundtrip(pc, pshape);
        assert(crate::subset::coord_of(li, pshape) == pc);
        let c2 = Seq::new(shape.len(), |i: int| pc[inverse[i] as int]);
        assert(c2 =~= c) by {
            assert forall|i: int| 0 <= i < shape.len() implies c2[i] == c[i] by {
                assert(order[inverse[i] as int] == i);
                assert(pc[inverse[i] as int] == c[order[inverse[i] as int] as int]);
            }
        }
        assert(enc[bp] == data[crate::subset::linear_index(c, shape) * es + o]);
        assert(crate::subset::linear_index(c, shape) == e);
    }
    assert(dec =~= data);
}

/// Undoing the array-to-array codecs recovers the chunk bytes.
pub proof fn lemma_aa_roundtrip(
    codecs: Seq<ArrayToArrayCodec>,
    data: Seq<u8>,
    shape: Seq<u64>,
    es: nat,
)
    requires
        forall|i: int| 0 <= i < codecs.len() ==> (#[trigger] codecs[i]).wf(shape.len()),
        1 <= es,
        data.len() == num_elements(shape) * es,
    ensures
        aa_decode_seq(codecs, aa_encode_seq(codecs, data, shape, es), shape, es) == data,
    decreases codecs.len(),
{
    if codecs.len() > 0 {
        match codecs[0] {
            ArrayToArrayCodec::Transpose(t) => {
                let step = transpose_encode_bytes(data, shape, t.order.order@, t.order.inverse@, es);
                let pshape = permute(shape, t.order.order@);
                crate::codec::lemma_num_elements_permute(shape, t.order.order@, t.order.inverse@);
                assert(step.len() == num_elements(pshape) * es);
                assert forall|i: int| 0 <= i < codecs.skip(1).len() implies (#[trigger] codecs.skip(
                    1,
                )[i]).wf(pshape.len()) by {
                    assert(codecs[i + 1].wf(shape.len()));
                }
                lemma_aa_roundtrip(codecs.skip(1), step, pshape, es);
                lemma_transpose_roundtrip(data, shape, t.order.order@, t.order.inverse@, es);
            },
        }
    }
}

/// Round trip: decoding what the pipeline encoded recovers the chunk bytes,
/// for every chunk byte buffer of the chunk's exact size, whether or not
/// checksums are verified.
pub proof fn lemma_chain_round_trip(
    chain: &CodecChain,
    data: Seq<u8>,
    shape: Seq<u64>,
    es: nat,
    validate: bool,
)
    requires
        chain.wf(shape.len()),
        1 <= es,
        data.len() == num_elements(shape) * es,
    ensures
        chain_decode_spec(chain, chain_encode_spec(chain, data, shape, es), shape, es, validate)
            == Some(data),
{
    let mid = aa_encode_seq(chain.array_to_array@, data, shape, es);
    lemma_aa_encode_len(chain.array_to_array@, data, shape, es);
    lemma_bb_roundtrip(chain.bytes_to_bytes@.reverse(), mid, validate);
    lemma_aa_roundtrip(chain.array_to_array@, data, shape, es);
}

/// Array-to-array codecs preserve the chunk's byte size.
pub proof fn lemma_aa_encode_len(
    codecs: Seq<ArrayToArrayCodec>,
    data: Seq<u8>,
    shape: Seq<u64>,
    es: nat,
)
    requires
        forall|i: int| 0 <= i < codecs.len() ==> (#[trigger] codecs[i]).wf(shape.len()),
        data.len() == num_elements(shape) * es,
    ensures
        aa_encode_seq(codecs, data, shape, es).len() == data.len(),
    decreases codecs.len(),
{
    if codecs.len() > 0 {
        match codecs[0] {
            ArrayToArrayCodec::Transpose(t) => {
                let pshape = permute(shape, t.order.order@);
                crate::codec::lemma_num_elements_permute(shape, t.order.order@, t.order.inverse@);
                let step = transpose_encode_bytes(data, shape, t.order.order@, t.order.inverse@, es);
                assert(step.len() == num_elements(pshape) * es);
                assert forall|i: int| 0 <= i < codecs.skip(1).len() implies (#[trigger] codecs.skip(
                    1,
                )[i]).wf(pshape.len()) by {
                    assert(codecs[i + 1].wf(shape.len()));
                }
                lemma_aa_encode_len(codecs.skip(1), step, pshape, es);
            },
        }
    }
}


/// Undoing the array-to-array codecs preserves the chunk's byte size.
pub proof fn lemma_aa_decode_len(
    codecs: Seq<ArrayToArrayCodec>,
    raw: Seq<u8>,
    shape: Seq<u64>,
    es: nat,
)
    requires
        raw.len() == num_elements(shape) * es,
    ensures
        aa_decode_seq(codecs, raw, shape, es).len() == num_elements(shape) * es,
{
    if codecs.len() > 0 {
        match codecs[0] {
            ArrayToArrayCodec::Transpose(_) => {
            },
        }
    }
}


/// What the bytes-to-bytes codecs unwrap is a prefix of the wrapped blob:
/// each codec strips its own trailer.
pub proof fn lemma_bb_decode_prefix(codecs: Seq<BytesToBytesCodec>, raw: Seq<u8>, validate: bool)
    ensures
        bb_decode_seq(codecs, raw, validate) matches Some(mid) ==> (mid.len() + 4 * codecs.len()
            == raw.len() && mid =~= raw.subrange(0, mid.len() as int)),
    decreases codecs.len(),
{
    if codecs.len() > 0 {
        match codecs[0] {
            BytesToBytesCodec::Crc32c(_) => {
                match crc32c_decode_spec(raw, validate) {
                    Some(m1) => {
                        lemma_bb_decode_prefix(codecs.skip(1), m1, validate);
                        match bb_decode_seq(codecs.skip(1), m1, validate) {
                            Some(mid) => {
                                assert(mid =~= raw.subrange(0, mid.len() as int));
                            },
                            None => {
                            },
                        }
                    },
                    None => {
                    },
                }
            },
        }
    }
}

} // verus!
